//! Ledger configuration and the factory functions for genesis blocks, child
//! blocks and transactions.
use crate::block::{mature_balances, Block, BlockV};
use crate::bytemap::ByteMap;
use crate::transaction::{Transaction, TxView};
use crate::{
    calc_pow_target, Address, COINBASE_REWARD, CONFIRMED_DEPTH, DEFAULT_FEE, POW_LEADING_ZEROS,
};
use vstd::prelude::*;

verus! {

/// The recognized configuration of the ledger.
pub struct Blockchain {
    pub pow_leading_zeros: usize,
    pub coinbase_reward: u16,
    pub default_tx_fee: u32,
    pub confirmed_depth: u8,
}

impl Blockchain {
    /// The default configuration.
    pub fn new() -> (r: Self)
        ensures
            r.pow_leading_zeros == POW_LEADING_ZEROS,
            r.coinbase_reward == COINBASE_REWARD,
            r.default_tx_fee == DEFAULT_FEE,
            r.confirmed_depth == CONFIRMED_DEPTH,
    {
        Blockchain {
            pow_leading_zeros: POW_LEADING_ZEROS,
            coinbase_reward: COINBASE_REWARD,
            default_tx_fee: DEFAULT_FEE,
            confirmed_depth: CONFIRMED_DEPTH,
        }
    }

    /// The genesis block: chain length zero, no parent, no transactions, and
    /// the given starting balances.
    pub fn make_genesis(starting_balances: ByteMap<u128>) -> (r: Block)
        requires
            starting_balances.wf(),
        ensures
            r.wf(),
            r@.chain_length == 0,
            r@.balances == starting_balances@,
            r@.next_nonce == Seq::<(Seq<u8>, u128)>::empty(),
            r@.transactions == Seq::<(Seq<u8>, TxView)>::empty(),
            r@.proof == 0,
            r@.coinbase_reward == 0,
            r@.timestamp == 0,
            r@.reward_addr == seq![48u8],
            r@.prev_block_hash == Seq::new(32, |i: int| 0u8),
            r@.pow_target == Seq::new(
                32,
                |i: int| crate::pow_target_byte(POW_LEADING_ZEROS as nat, i as nat),
            ),
    {
        let mut zero_addr: Vec<u8> = Vec::new();
        zero_addr.push(48u8);
        let mut prev: Vec<u8> = Vec::new();
        let mut i: usize = 0;
        while i < 32
            invariant
                i <= 32,
                prev@ =~= Seq::new(i as nat, |j: int| 0u8),
            decreases 32 - i,
        {
            prev.push(0u8);
            proof {
                assert(prev@ =~= Seq::new(i as nat + 1, |j: int| 0u8));
            }
            i = i + 1;
        }
        let r = Block {
            reward_addr: zero_addr,
            prev_block_hash: crate::Hash { bytes: prev },
            pow_target: calc_pow_target(),
            proof: 0,
            coinbase_reward: 0,
            transactions: ByteMap::new(),
            chain_length: 0,
            timestamp: 0,
            balances: starting_balances,
            next_nonce: ByteMap::new(),
        };
        proof {
            assert(r@.reward_addr =~= seq![48u8]);
            assert(r@.pow_target =~= Seq::new(
                32,
                |i: int| crate::pow_target_byte(POW_LEADING_ZEROS as nat, i as nat),
            ));
        }
        r
    }

    /// A fresh block on a parent, rewarded to the given address with the
    /// configured coinbase reward.
    pub fn make_block(reward_addr: Address, prev_block: &Block) -> (r: Block)
        requires
            prev_block.wf(),
            prev_block@.chain_length < u32::MAX,
        ensures
            r.wf(),
            r@.reward_addr == reward_addr@,
            r@.prev_block_hash == crate::block::block_id_of(prev_block@),
            r@.proof == 0,
            r@.coinbase_reward == COINBASE_REWARD,
            r@.transactions == Seq::<(Seq<u8>, TxView)>::empty(),
            r@.chain_length == prev_block@.chain_length + 1,
            r@.timestamp == 0,
            r@.pow_target == Seq::new(
                32,
                |i: int| crate::pow_target_byte(POW_LEADING_ZEROS as nat, i as nat),
            ),
            r@.balances == mature_balances(prev_block@),
            r@.next_nonce == prev_block@.next_nonce,
    {
        let r = Block::new(reward_addr, COINBASE_REWARD, prev_block);
        proof {
            assert(r@.pow_target =~= Seq::new(
                32,
                |i: int| crate::pow_target_byte(POW_LEADING_ZEROS as nat, i as nat),
            ));
        }
        r
    }

    /// An unsigned transaction from its fields.
    pub fn make_transaction(
        from: Address,
        nonce: u128,
        pubkey_bytes: Vec<u8>,
        outputs: Vec<(Address, u128)>,
        fee: u32,
        data: Vec<u8>,
    ) -> (r: Transaction)
        ensures
            r@ == (TxView {
                from: from@,
                nonce,
                pubkey: pubkey_bytes@,
                sig: None,
                outputs: outputs@.map_values(|p: (Address, u128)| (p.0@, p.1)),
                fee,
                data: data@,
            }),
    {
        Transaction::new(from, nonce, pubkey_bytes, outputs, fee, data)
    }
}

} // verus!
