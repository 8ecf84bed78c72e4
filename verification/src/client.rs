//! Chain state: all known blocks keyed by identity hash, the current best
//! and confirmed tips, orphan buffering for blocks whose parent is not yet
//! known, and the longest-chain fork-choice rule.
use crate::block::{
    block_id_of, block_wf, pow_accepts, rerun_spec, Block, BlockV,
};
use crate::bytemap::{
    clone_bytes, get_or0, lemma_get_absent, lemma_get_some_means_present, lemma_insert_props,
    lemma_remove_props, seq_get, seq_has_key, seq_insert, seq_remove, unique_keys, ByteMap,
};
use crate::crypto::{base64_of, calc_address, keypair_public_bytes};
use crate::transaction::{total_output_of, tx_id_of, Transaction, TxView};
use crate::{Address, CONFIRMED_DEPTH, DEFAULT_FEE};
use vstd::prelude::*;

verus! {

/// What became of a received block.
#[derive(Clone, Copy, Debug, PartialEq, Eq, Structural)]
pub enum ReceiveOutcome {
    /// Validated, stored, and possibly promoted to tip.
    Accepted,
    /// Already known by identity hash; nothing changed.
    DuplicateBlock,
    /// The identity hash does not satisfy the proof-of-work target.
    InvalidProof,
    /// The parent is not known yet; the block is buffered, awaiting it.
    UnknownParent,
    /// The block cannot be reconciled against its declared parent.
    InvalidTransition,
}

/// Misuse of the chain state: conditions the caller must rule out.
#[derive(Clone, Copy, Debug, PartialEq, Eq, Structural)]
pub enum ChainError {
    /// A genesis block was offered to a chain state that already has one.
    AlreadyInitialized,
}

/// A client's chain state and transaction pools.
pub struct Client {
    pub keypair: ring::signature::Ed25519KeyPair,
    pub name: String,
    pub_key: Vec<u8>,
    nonce: u128,
    pending_outgoing_transactions: ByteMap<Transaction>,
    pending_received_transactions: ByteMap<Transaction>,
    pub blocks: ByteMap<Block>,
    last_confirmed_block_id: Option<Vec<u8>>,
    last_block_id: Option<Vec<u8>>,
    pending_blocks: ByteMap<Vec<Block>>,
}

/// The mathematical value of a chain state.
#[verifier::ext_equal]
pub struct ClientV {
    pub pub_key: Seq<u8>,
    pub nonce: u128,
    pub pending_outgoing: Seq<(Seq<u8>, TxView)>,
    pub pending_received: Seq<(Seq<u8>, TxView)>,
    pub blocks: Seq<(Seq<u8>, BlockV)>,
    pub last_confirmed: Option<Seq<u8>>,
    pub last_block: Option<Seq<u8>>,
    pub pending_blocks: Seq<(Seq<u8>, Seq<Block>)>,
}

impl View for Client {
    type V = ClientV;

    closed spec fn view(&self) -> ClientV {
        ClientV {
            pub_key: self.pub_key@,
            nonce: self.nonce,
            pending_outgoing: self.pending_outgoing_transactions@,
            pending_received: self.pending_received_transactions@,
            blocks: self.blocks@,
            last_confirmed: match self.last_confirmed_block_id {
                Some(h) => Some(h@),
                None => None,
            },
            last_block: match self.last_block_id {
                Some(h) => Some(h@),
                None => None,
            },
            pending_blocks: self.pending_blocks@,
        }
    }
}

/// The chain length of the current tip, zero when there is none.
pub open spec fn tip_len(c: ClientV) -> int {
    match c.last_block {
        Some(h) => seq_get(c.blocks, h)->Some_0.chain_length as int,
        None => 0,
    }
}

/// How many blocks sit buffered across all orphan lists.
pub open spec fn pending_count(s: Seq<(Seq<u8>, Seq<Block>)>) -> int
    decreases s.len(),
{
    if s.len() == 0 {
        0
    } else {
        pending_count(s.drop_last()) + s.last().1.len()
    }
}

/// The invariant of a chain state: distinct keys everywhere, every stored
/// block well-formed, tips stored, every stored non-genesis block's parent
/// stored one length below it, no stored block longer than the tip, and every
/// buffered orphan well-formed.
pub open spec fn client_wf(c: ClientV) -> bool {
    &&& unique_keys(c.blocks)
    &&& unique_keys(c.pending_outgoing)
    &&& unique_keys(c.pending_received)
    &&& unique_keys(c.pending_blocks)
    &&& forall|i: int| 0 <= i < c.blocks.len() ==> #[trigger] block_wf(c.blocks[i].1)
    &&& forall|i: int|
        0 <= i < c.blocks.len() ==> #[trigger] c.blocks[i].0 == block_id_of(c.blocks[i].1)
    &&& match c.last_block {
        Some(h) => seq_has_key(c.blocks, h),
        None => true,
    }
    &&& match c.last_confirmed {
        Some(h) => seq_has_key(c.blocks, h),
        None => true,
    }
    &&& (c.last_confirmed is Some ==> c.last_block is Some)
    &&& forall|i: int|
        0 <= i < c.blocks.len() && #[trigger] c.blocks[i].1.chain_length > 0 ==> seq_has_key(
            c.blocks,
            c.blocks[i].1.prev_block_hash,
        ) && seq_get(c.blocks, c.blocks[i].1.prev_block_hash)->Some_0.chain_length + 1
            == c.blocks[i].1.chain_length
    &&& forall|i: int| 0 <= i < c.blocks.len() ==> #[trigger] c.blocks[i].1.chain_length <= tip_len(c)
    &&& forall|i: int, j: int|
        0 <= i < c.pending_blocks.len() && 0 <= j < c.pending_blocks[i].1.len() ==> block_wf(
            #[trigger] c.pending_blocks[i].1[j]@,
        ) && c.pending_blocks[i].1[j]@.prev_block_hash == c.pending_blocks[i].0
            && c.pending_blocks[i].1[j]@.chain_length > 0
}

/// Walks back from a stored block until its chain length is at most
/// `target`, following parent links; stops where a link is missing.
pub open spec fn walk_back(blocks: Seq<(Seq<u8>, BlockV)>, id: Seq<u8>, target: int) -> Seq<u8>
    decreases (match seq_get(blocks, id) {
        Some(b) => b.chain_length as int,
        None => 0,
    }),
{
    match seq_get(blocks, id) {
        None => id,
        Some(b) => if b.chain_length <= target {
            id
        } else {
            match seq_get(blocks, b.prev_block_hash) {
                Some(p) => if p.chain_length < b.chain_length {
                    walk_back(blocks, b.prev_block_hash, target)
                } else {
                    id
                },
                None => id,
            }
        },
    }
}

impl Client {
    /// The chain state's invariant.
    pub open spec fn wf(&self) -> bool {
        client_wf(self@)
    }

    /// A fresh client around a key pair, optionally seeded with a genesis
    /// block.
    pub fn new(name: String, starting_block: Option<Block>, keypair: ring::signature::Ed25519KeyPair) -> (r:
        Client)
        requires
            match starting_block {
                Some(b) => b.wf() && b@.chain_length == 0,
                None => true,
            },
        ensures
            r.wf(),
            r@.nonce == 0,
            r@.pending_outgoing == Seq::<(Seq<u8>, TxView)>::empty(),
            match starting_block {
                Some(b) => r@.blocks == seq_insert(
                    Seq::<(Seq<u8>, BlockV)>::empty(),
                    block_id_of(b@),
                    b@,
                ) && r@.last_block == Some(block_id_of(b@)) && r@.last_confirmed == Some(
                    block_id_of(b@),
                ),
                None => r@.blocks == Seq::<(Seq<u8>, BlockV)>::empty() && r@.last_block is None,
            },
    {
        let pub_key = keypair_public_bytes(&keypair);
        let mut client = Client {
            keypair,
            name,
            pub_key,
            nonce: 0,
            pending_outgoing_transactions: ByteMap::new(),
            pending_received_transactions: ByteMap::new(),
            blocks: ByteMap::new(),
            last_confirmed_block_id: None,
            last_block_id: None,
            pending_blocks: ByteMap::new(),
        };
        match starting_block {
            Some(b) => {
                let res = client.set_genesis(b);
                proof {
                    assert(res is Ok);
                }
            },
            None => {},
        }
        client
    }

    /// Seeds the chain state with its genesis block: both tips point at it.
    /// Fails on a chain state that already holds blocks.
    pub fn set_genesis(&mut self, starting_block: Block) -> (r: Result<(), ChainError>)
        requires
            old(self).wf(),
            starting_block.wf(),
            starting_block@.chain_length == 0,
        ensures
            final(self).wf(),
            match r {
                Ok(()) => old(self)@.blocks.len() == 0 && old(self)@.last_block is None
                    && final(self)@ == (ClientV {
                    blocks: seq_insert(
                        old(self)@.blocks,
                        block_id_of(starting_block@),
                        starting_block@,
                    ),
                    last_block: Some(block_id_of(starting_block@)),
                    last_confirmed: Some(block_id_of(starting_block@)),
                    ..old(self)@
                }),
                Err(e) => e == ChainError::AlreadyInitialized && final(self)@ == old(self)@ && (
                old(self)@.blocks.len() > 0 || old(self)@.last_block is Some),
            },
    {
        if self.last_block_id.is_some() || self.blocks.len() > 0 {
            return Err(ChainError::AlreadyInitialized);
        }
        let id = starting_block.hash_val();
        proof {
            lemma_insert_props(self@.blocks, id@, starting_block@);
        }
        self.blocks.insert(clone_bytes(&id.bytes), starting_block);
        self.last_block_id = Some(clone_bytes(&id.bytes));
        self.last_confirmed_block_id = Some(id.bytes);
        proof {
            let c = self@;
            assert(client_wf(c)) by {
                assert(c.blocks.len() == 1);
                assert(c.blocks[0].1.chain_length == 0);
                assert(seq_get(c.blocks, c.blocks[0].0) == Some(c.blocks[0].1));
            }
        }
        Ok(())
    }

    /// The stored blocks, keyed by identity hash.
    pub fn blocks_ref(&self) -> (r: &ByteMap<Block>)
        ensures
            r@ == self@.blocks,
    {
        &self.blocks
    }

    /// The block the tip points at, if any.
    pub fn last_block(&self) -> (r: Option<Block>)
        requires
            self.wf(),
        ensures
            match r {
                Some(b) => self@.last_block matches Some(h) && seq_get(self@.blocks, h) == Some(b@)
                    && b.wf(),
                None => self@.last_block is None,
            },
    {
        match &self.last_block_id {
            Some(id) => {
                let b = self.blocks.get(id);
                proof {
                    lemma_get_some_means_present(self@.blocks, id@);
                }
                match b {
                    Some(b) => Some(b.duplicate()),
                    None => None,
                }
            },
            None => None,
        }
    }

    /// The block the confirmed tip points at, if any.
    pub fn last_confirmed_block(&self) -> (r: Option<Block>)
        requires
            self.wf(),
        ensures
            match r {
                Some(b) => self@.last_confirmed matches Some(h) && seq_get(self@.blocks, h)
                    == Some(b@) && b.wf(),
                None => self@.last_confirmed is None,
            },
    {
        match &self.last_confirmed_block_id {
            Some(id) => {
                let b = self.blocks.get(id);
                proof {
                    lemma_get_some_means_present(self@.blocks, id@);
                }
                match b {
                    Some(b) => Some(b.duplicate()),
                    None => None,
                }
            },
            None => None,
        }
    }

    /// This client's own address.
    pub fn address(&self) -> (r: Address)
        ensures
            r@ == base64_of(self@.pub_key),
    {
        calc_address(self.pub_key.as_slice())
    }

    /// The balance of this client's address as of the confirmed tip, zero on
    /// a chain state without one.
    pub fn confirmed_balance(&self) -> (r: u128)
        requires
            self.wf(),
        ensures
            r == confirmed_balance_of(self@),
    {
        match &self.last_confirmed_block_id {
            Some(id) => {
                let addr = self.address();
                match self.blocks.get(id) {
                    Some(b) => {
                        proof {
                            lemma_get_some_means_present(self@.blocks, id@);
                        }
                        b.balance_of(&addr)
                    },
                    None => 0,
                }
            },
            None => 0,
        }
    }
}

/// The balance the confirmed tip records for the client's own address.
pub open spec fn confirmed_balance_of(c: ClientV) -> u128 {
    match c.last_confirmed {
        Some(h) => match seq_get(c.blocks, h) {
            Some(b) => get_or0(b.balances, base64_of(c.pub_key)),
            None => 0,
        },
        None => 0,
    }
}

/// The total the outstanding outgoing transactions would debit.
pub open spec fn pending_spent(s: Seq<(Seq<u8>, TxView)>) -> int
    decreases s.len(),
{
    if s.len() == 0 {
        0
    } else {
        pending_spent(s.drop_last()) + total_output_of(s.last().1)
    }
}

/// The confirmed balance minus the outstanding outgoing totals, floored at
/// zero.
pub open spec fn available_gold_of(c: ClientV) -> int {
    if pending_spent(c.pending_outgoing) >= confirmed_balance_of(c) {
        0
    } else {
        confirmed_balance_of(c) - pending_spent(c.pending_outgoing)
    }
}

/// The fee a posted transaction carries: the asked fee, floored at the
/// default.
pub open spec fn chosen_fee(custom_fee: Option<u32>) -> u32 {
    match custom_fee {
        Some(f) => if f < DEFAULT_FEE {
            DEFAULT_FEE
        } else {
            f
        },
        None => DEFAULT_FEE,
    }
}

proof fn lemma_pending_spent_nonneg(s: Seq<(Seq<u8>, TxView)>)
    ensures
        pending_spent(s) >= 0,
    decreases s.len(),
{
    if s.len() > 0 {
        lemma_pending_spent_nonneg(s.drop_last());
        crate::transaction::lemma_sum_prefix(s.last().1.outputs, 0);
    }
}

impl Client {
    /// The confirmed balance minus everything already promised in pending
    /// outgoing transactions, floored at zero.
    pub fn available_gold(&self) -> (r: u128)
        requires
            self.wf(),
        ensures
            r == available_gold_of(self@),
    {
        let conf = self.confirmed_balance();
        let pool = &self.pending_outgoing_transactions;
        let n = pool.len();
        let ghost entries = self@.pending_outgoing;
        let mut spent: u128 = 0;
        let mut i: usize = 0;
        while i < n
            invariant
                i <= n,
                n == entries.len(),
                entries == self@.pending_outgoing,
                pool == &self.pending_outgoing_transactions,
                spent == if pending_spent(entries.subrange(0, i as int)) > u128::MAX {
                    u128::MAX as int
                } else {
                    pending_spent(entries.subrange(0, i as int))
                },
            decreases n - i,
        {
            let ghost pre = entries.subrange(0, i as int);
            let ghost cur = entries.subrange(0, i as int + 1);
            proof {
                assert(cur.drop_last() =~= pre);
                assert(cur.last() == entries[i as int]);
                lemma_pending_spent_nonneg(pre);
                crate::transaction::lemma_sum_prefix(entries[i as int].1.outputs, 0);
            }
            match pool.val_at(i).total_output_checked() {
                Some(t) => {
                    spent = match spent.checked_add(t) {
                        Some(s) => s,
                        None => u128::MAX,
                    };
                },
                None => {
                    spent = u128::MAX;
                },
            }
            i = i + 1;
        }
        proof {
            assert(entries.subrange(0, n as int) =~= entries);
        }
        if spent >= conf {
            0
        } else {
            conf - spent
        }
    }

    /// Creates, signs and pools a transaction paying `outputs`, if the
    /// client can afford it out of its available gold; the sender nonce
    /// advances with each posted transaction.
    pub fn post_transaction(&mut self, outputs: Vec<(Address, u128)>, custom_fee: Option<u32>) -> (r:
        Option<Transaction>)
        requires
            old(self).wf(),
        ensures
            final(self).wf(),
            match r {
                Some(tx) => {
                    &&& tx@ == (TxView {
                        from: base64_of(old(self)@.pub_key),
                        nonce: old(self)@.nonce,
                        pubkey: old(self)@.pub_key,
                        sig: tx@.sig,
                        outputs: outputs@.map_values(|p: (Address, u128)| (p.0@, p.1)),
                        fee: chosen_fee(custom_fee),
                        data: Seq::<u8>::empty(),
                    })
                    &&& tx@.sig is Some
                    &&& available_gold_of(old(self)@) > total_output_of(tx@)
                    &&& old(self)@.nonce < u128::MAX
                    &&& final(self)@ == (ClientV {
                        nonce: (old(self)@.nonce + 1) as u128,
                        pending_outgoing: seq_insert(
                            old(self)@.pending_outgoing,
                            tx_id_of(tx@),
                            tx@,
                        ),
                        ..old(self)@
                    })
                },
                None => final(self)@ == old(self)@ && (available_gold_of(old(self)@)
                    <= total_output_of(
                    TxView {
                        from: base64_of(old(self)@.pub_key),
                        nonce: old(self)@.nonce,
                        pubkey: old(self)@.pub_key,
                        sig: None,
                        outputs: outputs@.map_values(|p: (Address, u128)| (p.0@, p.1)),
                        fee: chosen_fee(custom_fee),
                        data: Seq::<u8>::empty(),
                    },
                ) || old(self)@.nonce == u128::MAX),
            },
    {
        let fee = match custom_fee {
            Some(f) => if f < DEFAULT_FEE {
                DEFAULT_FEE
            } else {
                f
            },
            None => DEFAULT_FEE,
        };
        let mut tx = Transaction::new(
            self.address(),
            self.nonce,
            clone_bytes(&self.pub_key),
            outputs,
            fee,
            Vec::new(),
        );
        let available = self.available_gold();
        let total = match tx.total_output_checked() {
            Some(t) => t,
            None => {
                return None;
            },
        };
        if available > total && self.nonce < u128::MAX {
            tx.sign(&self.keypair);
            let id = tx.id();
            proof {
                lemma_insert_props(self@.pending_outgoing, tx_id_of(tx@), tx@);
            }
            self.pending_outgoing_transactions.insert(id.bytes, tx.duplicate());
            self.nonce = self.nonce + 1;
            Some(tx)
        } else {
            None
        }
    }
}

/// The chain length the confirmed tip should sit at: the tip's length minus
/// the confirmation depth, floored at the genesis.
pub open spec fn conf_target(c: ClientV) -> int {
    if tip_len(c) >= CONFIRMED_DEPTH {
        tip_len(c) - CONFIRMED_DEPTH
    } else {
        0
    }
}

/// A pool with every entry removed whose key the given transaction map
/// includes: those transactions are settled.
pub open spec fn prune_of(
    s: Seq<(Seq<u8>, TxView)>,
    txs: Seq<(Seq<u8>, TxView)>,
) -> Seq<(Seq<u8>, TxView)>
    decreases s.len(),
{
    if s.len() == 0 {
        s
    } else {
        let rest = prune_of(s.drop_last(), txs);
        if seq_has_key(txs, s.last().0) {
            rest
        } else {
            rest.push(s.last())
        }
    }
}

/// Every pruned entry was an entry of the pool.
proof fn lemma_prune_members(s: Seq<(Seq<u8>, TxView)>, txs: Seq<(Seq<u8>, TxView)>)
    ensures
        forall|i: int|
            0 <= i < prune_of(s, txs).len() ==> exists|j: int|
                0 <= j < s.len() && s[j] == #[trigger] prune_of(s, txs)[i],
    decreases s.len(),
{
    if s.len() > 0 {
        lemma_prune_members(s.drop_last(), txs);
        let rest = prune_of(s.drop_last(), txs);
        assert forall|i: int| 0 <= i < prune_of(s, txs).len() implies exists|j: int|
            0 <= j < s.len() && s[j] == #[trigger] prune_of(s, txs)[i] by {
            if i < rest.len() {
                assert(prune_of(s, txs)[i] == rest[i]);
                let w = choose|w: int|
                    0 <= w < s.drop_last().len() && s.drop_last()[w] == rest[i];
                assert(s[w] == prune_of(s, txs)[i]);
            } else {
                assert(s[s.len() - 1] == prune_of(s, txs)[i]);
            }
        }
    }
}

/// Keeps only the pool entries whose identity hash the confirmed block does
/// not include.
fn prune_pool(pool: &ByteMap<Transaction>, confirmed: &ByteMap<Transaction>) -> (r: ByteMap<
    Transaction,
>)
    requires
        pool.wf(),
        confirmed.wf(),
    ensures
        r.wf(),
        r@ == prune_of(pool@, confirmed@),
{
    let mut r: ByteMap<Transaction> = ByteMap::new();
    let n = pool.len();
    let mut i: usize = 0;
    while i < n
        invariant
            i <= n,
            n == pool@.len(),
            pool.wf(),
            confirmed.wf(),
            r.wf(),
            r@ == prune_of(pool@.subrange(0, i as int), confirmed@),
        decreases n - i,
    {
        let ghost pre = pool@.subrange(0, i as int);
        let ghost cur = pool@.subrange(0, i as int + 1);
        proof {
            assert(cur.drop_last() =~= pre);
            assert(cur.last() == pool@[i as int]);
        }
        let k = pool.key_at(i);
        if !confirmed.contains_key(k) {
            proof {
                lemma_prune_members(pre, confirmed@);
                assert forall|j: int| 0 <= j < r@.len() implies r@[j].0 != k@ by {
                    let w = choose|w: int| 0 <= w < pre.len() && pre[w] == r@[j];
                    assert(pool@[w] == pre[w]);
                }
                lemma_get_absent(r@, k@);
                lemma_insert_props(r@, k@, pool@[i as int].1);
            }
            let key = clone_bytes(k);
            let v = pool.val_at(i).duplicate();
            r.insert(key, v);
        }
        i = i + 1;
    }
    proof {
        assert(pool@.subrange(0, n as int) =~= pool@);
    }
    r
}

impl Client {
    /// Recomputes the confirmed tip: walk back from the tip by the
    /// confirmation depth, floored at the genesis, and drop from both pools
    /// every transaction that block includes — those are settled and must not
    /// be resubmitted.
    fn set_last_confirmed(&mut self)
        requires
            old(self).wf(),
            old(self)@.last_block is Some,
        ensures
            final(self).wf(),
            final(self)@ == (ClientV {
                last_confirmed: final(self)@.last_confirmed,
                pending_outgoing: final(self)@.pending_outgoing,
                pending_received: final(self)@.pending_received,
                ..old(self)@
            }),
            final(self)@.last_confirmed == Some(
                walk_back(
                    old(self)@.blocks,
                    old(self)@.last_block->Some_0,
                    conf_target(old(self)@),
                ),
            ),
            ({
                let cid = walk_back(
                    old(self)@.blocks,
                    old(self)@.last_block->Some_0,
                    conf_target(old(self)@),
                );
                let cb = seq_get(old(self)@.blocks, cid)->Some_0;
                final(self)@.pending_outgoing == prune_of(
                    old(self)@.pending_outgoing,
                    cb.transactions,
                ) && final(self)@.pending_received == prune_of(
                    old(self)@.pending_received,
                    cb.transactions,
                )
            }),
    {
        let ghost c0 = self@;
        let ghost tip = c0.last_block->Some_0;
        let ghost target = conf_target(c0);
        let mut cur_id = match &self.last_block_id {
            Some(h) => clone_bytes(h),
            None => Vec::new(),
        };
        let mut cur_len: u32 = 0;
        let target_len: u32;
        match self.blocks.get(&cur_id) {
            Some(b) => {
                proof {
                    lemma_get_some_means_present(c0.blocks, cur_id@);
                }
                cur_len = b.chain_length;
                target_len = if b.chain_length >= CONFIRMED_DEPTH as u32 {
                    b.chain_length - CONFIRMED_DEPTH as u32
                } else {
                    0
                };
            },
            None => {
                proof {
                    assert(false);
                }
                target_len = 0;
            },
        }
        while cur_len > target_len
            invariant
                self@ == c0,
                target_len == target,
                seq_get(c0.blocks, cur_id@) matches Some(b) && b.chain_length == cur_len,
                cur_len >= target_len,
                walk_back(c0.blocks, tip, target) == walk_back(c0.blocks, cur_id@, target),
            decreases cur_len,
        {
            match self.blocks.get(&cur_id) {
                Some(b) => {
                    proof {
                        lemma_get_some_means_present(c0.blocks, cur_id@);
                        let i = choose|i: int|
                            0 <= i < c0.blocks.len() && c0.blocks[i].0 == cur_id@
                                && c0.blocks[i].1 == seq_get(c0.blocks, cur_id@)->Some_0;
                        assert(c0.blocks[i].1.chain_length > 0);
                    }
                    let next = clone_bytes(&b.prev_block_hash.bytes);
                    cur_id = next;
                    cur_len = cur_len - 1;
                },
                None => {
                    proof {
                        assert(false);
                    }
                },
            }
        }
        proof {
            assert(walk_back(c0.blocks, cur_id@, target) == cur_id@);
            assert(walk_back(c0.blocks, tip, target) == cur_id@);
        }
        // prune both pools against the confirmed block
        match self.blocks.get(&cur_id) {
            Some(confirmed_block) => {
                proof {
                    lemma_get_some_means_present(c0.blocks, cur_id@);
                    let i = choose|i: int|
                        0 <= i < c0.blocks.len() && c0.blocks[i].0 == cur_id@ && c0.blocks[i].1
                            == seq_get(c0.blocks, cur_id@)->Some_0;
                    assert(block_wf(c0.blocks[i].1));
                    assert(confirmed_block.transactions.wf());
                }
                let new_outgoing = prune_pool(
                    &self.pending_outgoing_transactions,
                    &confirmed_block.transactions,
                );
                let new_received = prune_pool(
                    &self.pending_received_transactions,
                    &confirmed_block.transactions,
                );
                self.pending_outgoing_transactions = new_outgoing;
                self.pending_received_transactions = new_received;
            },
            None => {
                proof {
                    assert(false);
                }
            },
        }
        self.last_confirmed_block_id = Some(cur_id);
        proof {
            assert(client_wf(self@));
            assert(self@ =~= (ClientV {
                last_confirmed: self@.last_confirmed,
                pending_outgoing: self@.pending_outgoing,
                pending_received: self@.pending_received,
                ..c0
            }));
        }
    }
}

/// The form in which a received block would be stored against a block store:
/// itself for a genesis block, its rerun against its stored parent otherwise;
/// `None` where a check fails.
pub open spec fn stored_form(blocks: Seq<(Seq<u8>, BlockV)>, b: BlockV) -> Option<BlockV> {
    if b.chain_length == 0 {
        Some(b)
    } else if !pow_accepts(block_id_of(b), b.pow_target) {
        None
    } else {
        match seq_get(blocks, b.prev_block_hash) {
            None => None,
            Some(p) => if b.chain_length == p.chain_length + 1 && rerun_spec(b, p) is Ok {
                Some(rerun_spec(b, p)->Ok_0)
            } else {
                None
            },
        }
    }
}

/// The blocks buffered under a parent hash.
pub open spec fn orphans_of(pend: Seq<(Seq<u8>, Seq<Block>)>, k: Seq<u8>) -> Seq<Block> {
    match seq_get(pend, k) {
        Some(l) => l,
        None => Seq::empty(),
    }
}

/// An orphan waiting on a stored block either fails one of the reception
/// checks or ends up stored itself.
pub open spec fn resolved_orphan(blocks: Seq<(Seq<u8>, BlockV)>, st: BlockV, o: BlockV) -> bool {
    (o.prev_block_hash == block_id_of(st) && pow_accepts(block_id_of(o), o.pow_target)
        && o.chain_length == st.chain_length + 1 && rerun_spec(o, st) is Ok) ==> (seq_has_key(
        blocks,
        block_id_of(o),
    ) || seq_has_key(blocks, block_id_of(rerun_spec(o, st)->Ok_0)))
}

proof fn lemma_pending_nonneg(s: Seq<(Seq<u8>, Seq<Block>)>)
    ensures
        pending_count(s) >= 0,
    decreases s.len(),
{
    if s.len() > 0 {
        lemma_pending_nonneg(s.drop_last());
    }
}

proof fn lemma_pending_remove(s: Seq<(Seq<u8>, Seq<Block>)>, k: Seq<u8>)
    requires
        unique_keys(s),
    ensures
        pending_count(seq_remove(s, k)) == pending_count(s) - orphans_of(s, k).len(),
    decreases s.len(),
{
    if s.len() == 0 {
    } else if s.last().0 == k {
        assert(seq_remove(s, k) == s.drop_last());
    } else {
        assert(unique_keys(s.drop_last())) by {
            assert(forall|i: int| 0 <= i < s.drop_last().len() ==> s.drop_last()[i] == s[i]);
        }
        lemma_pending_remove(s.drop_last(), k);
        let t = seq_remove(s.drop_last(), k).push(s.last());
        assert(seq_remove(s, k) == t);
        assert(t.drop_last() =~= seq_remove(s.drop_last(), k));
        assert(seq_get(s, k) == seq_get(s.drop_last(), k));
    }
}

/// Storing one validated block keeps the chain state's invariant, and the
/// tip length moves exactly by the strict-longer rule.
proof fn lemma_wf_after_store(c: ClientV, c2: ClientV, st: BlockV, sid: Seq<u8>)
    requires
        client_wf(c),
        block_wf(st),
        sid == block_id_of(st),
        !seq_has_key(c.blocks, sid),
        st.chain_length > 0 ==> (seq_get(c.blocks, st.prev_block_hash) matches Some(p)
            && p.chain_length + 1 == st.chain_length),
        c2.blocks == seq_insert(c.blocks, sid, st),
        c2.pending_blocks == c.pending_blocks,
        c2.pending_outgoing == c.pending_outgoing,
        c2.pending_received == c.pending_received,
        c2.last_confirmed == c.last_confirmed,
        (c2.last_block == c.last_block && c.last_block is Some && st.chain_length <= tip_len(c))
            || (c2.last_block == Some(sid) && (c.last_block is None || st.chain_length > tip_len(
            c,
        ))),
    ensures
        client_wf(c2),
        tip_len(c2) == if c.last_block is None || st.chain_length > tip_len(c) {
            st.chain_length as int
        } else {
            tip_len(c)
        },
{
    lemma_insert_props(c.blocks, sid, st);
    let nb = c2.blocks;
    assert(nb == c.blocks.push((sid, st)));
    assert forall|i: int| 0 <= i < nb.len() implies #[trigger] block_wf(nb[i].1) by {
        if i < c.blocks.len() {
            assert(nb[i] == c.blocks[i]);
        } else {
            assert(nb[i] == (sid, st));
        }
    }
    assert forall|i: int| 0 <= i < nb.len() implies #[trigger] nb[i].0 == block_id_of(nb[i].1) by {
        if i < c.blocks.len() {
            assert(nb[i] == c.blocks[i]);
        } else {
            assert(nb[i] == (sid, st));
        }
    }
    // old lookups are unchanged: the new key is fresh
    assert forall|k: Seq<u8>| seq_has_key(c.blocks, k) implies seq_get(nb, k) == seq_get(
        c.blocks,
        k,
    ) by {
        assert(k != sid);
    }
    match c.last_block {
        Some(h) => {
            assert(seq_has_key(nb, h));
        },
        None => {},
    }
    match c.last_confirmed {
        Some(h) => {
            assert(seq_has_key(nb, h));
        },
        None => {},
    }
    assert forall|i: int|
        0 <= i < nb.len() && #[trigger] nb[i].1.chain_length > 0 implies seq_has_key(
        nb,
        nb[i].1.prev_block_hash,
    ) && seq_get(nb, nb[i].1.prev_block_hash)->Some_0.chain_length + 1
        == nb[i].1.chain_length by {
        if i < c.blocks.len() {
            assert(nb[i] == c.blocks[i]);
            assert(seq_has_key(c.blocks, c.blocks[i].1.prev_block_hash));
        } else {
            assert(nb[i] == (sid, st));
            assert(seq_has_key(c.blocks, st.prev_block_hash));
        }
    }
    // the tip after the store
    if c.last_block is None || st.chain_length > tip_len(c) {
        assert(c2.last_block == Some(sid));
        assert(seq_get(nb, sid) == Some(st));
        assert(tip_len(c2) == st.chain_length as int);
    } else {
        assert(c2.last_block == c.last_block);
        match c.last_block {
            Some(h) => {
                assert(seq_get(nb, h) == seq_get(c.blocks, h));
            },
            None => {},
        }
        assert(tip_len(c2) == tip_len(c));
    }
    assert forall|i: int| 0 <= i < nb.len() implies #[trigger] nb[i].1.chain_length <= tip_len(
        c2,
    ) by {
        if i < c.blocks.len() {
            assert(nb[i] == c.blocks[i]);
            assert(c.blocks[i].1.chain_length <= tip_len(c));
        } else {
            assert(nb[i] == (sid, st));
        }
    }
    assert forall|i: int, j: int|
        0 <= i < c2.pending_blocks.len() && 0 <= j < c2.pending_blocks[i].1.len() implies block_wf(
        #[trigger] c2.pending_blocks[i].1[j]@,
    ) && c2.pending_blocks[i].1[j]@.prev_block_hash == c2.pending_blocks[i].0
        && c2.pending_blocks[i].1[j]@.chain_length > 0 by {
        assert(c2.pending_blocks[i] == c.pending_blocks[i]);
        assert(block_wf(c.pending_blocks[i].1[j]@));
    }
}

impl Client {
    /// The chain length of the current tip, zero when there is none.
    pub fn tip_length(&self) -> (r: u32)
        requires
            unique_keys(self@.blocks),
            match self@.last_block {
                Some(h) => seq_has_key(self@.blocks, h),
                None => true,
            },
        ensures
            r as int == tip_len(self@),
    {
        match &self.last_block_id {
            Some(id) => match self.blocks.get(id) {
                Some(b) => b.chain_length,
                None => {
                    proof {
                        assert(false);
                    }
                    0
                },
            },
            None => 0,
        }
    }

    /// Buffers a block under the hash of the parent it waits for.
    fn buffer_orphan(&mut self, block: Block)
        requires
            old(self).wf(),
            block.wf(),
            block@.chain_length > 0,
        ensures
            final(self).wf(),
            final(self)@ == (ClientV { pending_blocks: final(self)@.pending_blocks, ..old(self)@ }),
            final(self)@.pending_blocks == seq_remove(
                old(self)@.pending_blocks,
                block@.prev_block_hash,
            ).push(
                (
                    block@.prev_block_hash,
                    orphans_of(old(self)@.pending_blocks, block@.prev_block_hash).push(block),
                ),
            ),
            pending_count(final(self)@.pending_blocks) == pending_count(old(self)@.pending_blocks)
                + 1,
    {
        let ghost c0 = self@;
        let ghost key_v = block@.prev_block_hash;
        let key = clone_bytes(&block.prev_block_hash.bytes);
        proof {
            lemma_remove_props(c0.pending_blocks, key_v);
            lemma_pending_remove(c0.pending_blocks, key_v);
        }
        let mut list: Vec<Block> = match self.pending_blocks.remove(&key) {
            Some(l) => l,
            None => Vec::new(),
        };
        let ghost mid = self@.pending_blocks;
        proof {
            assert(list@ =~= orphans_of(c0.pending_blocks, key_v));
        }
        list.push(block);
        let ghost nl = list@;
        proof {
            assert(seq_get(mid, key_v) is None);
            lemma_insert_props(mid, key_v, nl);
            assert(seq_insert(mid, key_v, nl) == mid.push((key_v, nl)));
        }
        self.pending_blocks.insert(key, list);
        proof {
            let c2 = self@;
            assert(c2.pending_blocks == mid.push((key_v, orphans_of(c0.pending_blocks, key_v).push(
                block,
            ))));
            // every remaining entry was an entry before, so the per-entry
            // clauses carry over; the new entry extends the old list by a
            // block that waits on exactly this key
            assert forall|i: int, j: int|
                0 <= i < c2.pending_blocks.len() && 0 <= j
                    < c2.pending_blocks[i].1.len() implies block_wf(
                #[trigger] c2.pending_blocks[i].1[j]@,
            ) && c2.pending_blocks[i].1[j]@.prev_block_hash == c2.pending_blocks[i].0
                && c2.pending_blocks[i].1[j]@.chain_length > 0 by {
                if i < mid.len() {
                    assert(c2.pending_blocks[i] == mid[i]);
                    let w = choose|w: int|
                        0 <= w < c0.pending_blocks.len() && c0.pending_blocks[w] == mid[i];
                    assert(block_wf(c0.pending_blocks[w].1[j]@));
                } else {
                    let entry = c2.pending_blocks[i];
                    if j < entry.1.len() - 1 {
                        let old_list = orphans_of(c0.pending_blocks, key_v);
                        assert(entry.1[j] == old_list[j]);
                        lemma_get_some_means_present(c0.pending_blocks, key_v);
                        let w = choose|w: int|
                            0 <= w < c0.pending_blocks.len() && c0.pending_blocks[w].0 == key_v
                                && c0.pending_blocks[w].1 == seq_get(c0.pending_blocks, key_v)->Some_0;
                        assert(block_wf(c0.pending_blocks[w].1[j]@));
                    } else {
                        assert(entry.1[j] == block);
                    }
                }
            }
            assert(pending_count(c2.pending_blocks) == pending_count(mid) + nl.len()) by {
                assert(c2.pending_blocks.drop_last() =~= mid);
            }
            assert(client_wf(c2));
            assert(c2 =~= (ClientV { pending_blocks: c2.pending_blocks, ..c0 }));
        }
    }

    /// Takes in one block: check for duplication, proof of work and a known
    /// parent, re-derive its state against that parent, store it, promote the
    /// tip under the strict-longer rule, and move any orphans that were
    /// waiting for it onto the worklist.
    #[verifier::rlimit(100)]
    #[verifier::spinoff_prover]
    fn process_block(&mut self, block: Block, worklist: &mut Vec<Block>) -> (r: ReceiveOutcome)
        requires
            old(self).wf(),
            block.wf(),
        ensures
            final(self).wf(),
            final(self)@.pub_key == old(self)@.pub_key,
            final(self)@.nonce == old(self)@.nonce,
            tip_len(old(self)@) <= tip_len(final(self)@),
            final(self)@.last_block == old(self)@.last_block || tip_len(final(self)@) > tip_len(
                old(self)@,
            ) || old(self)@.last_block is None,
            forall|k: Seq<u8>|
                seq_has_key(old(self)@.blocks, k) ==> seq_get(final(self)@.blocks, k) == seq_get(
                    old(self)@.blocks,
                    k,
                ),
            old(worklist)@.len() <= final(worklist)@.len(),
            forall|w: int| 0 <= w < old(worklist)@.len() ==> final(worklist)@[w] == old(worklist)@[w],
            match r {
                ReceiveOutcome::Accepted => ({
                    let st = stored_form(old(self)@.blocks, block@)->Some_0;
                    let sid = block_id_of(st);
                    let orph = orphans_of(old(self)@.pending_blocks, sid);
                    &&& stored_form(old(self)@.blocks, block@) is Some
                    &&& !seq_has_key(old(self)@.blocks, block_id_of(block@))
                    &&& !seq_has_key(old(self)@.blocks, sid)
                    &&& final(self)@.blocks == seq_insert(old(self)@.blocks, sid, st)
                    &&& seq_get(final(self)@.blocks, sid) == Some(st)
                    &&& tip_len(final(self)@) >= st.chain_length
                    &&& (old(self)@.last_block is None || st.chain_length > tip_len(old(self)@)
                        ==> final(self)@.last_block == Some(sid))
                    &&& (old(self)@.last_block is Some && st.chain_length <= tip_len(old(self)@)
                        ==> final(self)@.last_block == old(self)@.last_block
                        && final(self)@.last_confirmed == old(self)@.last_confirmed
                        && final(self)@.pending_outgoing == old(self)@.pending_outgoing
                        && final(self)@.pending_received == old(self)@.pending_received)
                    &&& final(self)@.pending_blocks == seq_remove(old(self)@.pending_blocks, sid)
                    &&& final(worklist)@.len() == old(worklist)@.len() + orph.len()
                    &&& (forall|j: int|
                        0 <= j < orph.len() ==> final(worklist)@[old(worklist)@.len() + orph.len()
                            - 1 - j] == orph[j])
                    &&& pending_count(final(self)@.pending_blocks) + final(worklist)@.len()
                        == pending_count(old(self)@.pending_blocks) + old(worklist)@.len()
                }),
                ReceiveOutcome::DuplicateBlock => final(self)@ == old(self)@ && final(worklist)@
                    == old(worklist)@ && (seq_has_key(old(self)@.blocks, block_id_of(block@)) || (
                stored_form(old(self)@.blocks, block@) matches Some(st) && seq_has_key(
                    old(self)@.blocks,
                    block_id_of(st),
                ))),
                ReceiveOutcome::InvalidProof => final(self)@ == old(self)@ && final(worklist)@
                    == old(worklist)@ && !seq_has_key(old(self)@.blocks, block_id_of(block@))
                    && block@.chain_length != 0 && !pow_accepts(
                    block_id_of(block@),
                    block@.pow_target,
                ),
                ReceiveOutcome::UnknownParent => final(worklist)@ == old(worklist)@ && !seq_has_key(
                    old(self)@.blocks,
                    block_id_of(block@),
                ) && block@.chain_length != 0 && pow_accepts(block_id_of(block@), block@.pow_target)
                    && seq_get(old(self)@.blocks, block@.prev_block_hash) is None && final(self)@
                    == (ClientV { pending_blocks: final(self)@.pending_blocks, ..old(self)@ })
                    && final(self)@.pending_blocks == seq_remove(
                    old(self)@.pending_blocks,
                    block@.prev_block_hash,
                ).push(
                    (
                        block@.prev_block_hash,
                        orphans_of(old(self)@.pending_blocks, block@.prev_block_hash).push(block),
                    ),
                ) && pending_count(final(self)@.pending_blocks) == pending_count(
                    old(self)@.pending_blocks,
                ) + 1,
                ReceiveOutcome::InvalidTransition => final(self)@ == old(self)@ && final(worklist)@
                    == old(worklist)@ && !seq_has_key(old(self)@.blocks, block_id_of(block@))
                    && block@.chain_length != 0 && pow_accepts(
                    block_id_of(block@),
                    block@.pow_target,
                ) && (seq_get(old(self)@.blocks, block@.prev_block_hash) matches Some(p) && !(
                block@.chain_length == p.chain_length + 1 && rerun_spec(block@, p) is Ok)),
            },
    {
        let ghost c0 = self@;
        let ghost bv = block@;
        let incoming_id = block.hash_val();
        if self.blocks.contains_key(&incoming_id.bytes) {
            return ReceiveOutcome::DuplicateBlock;
        }
        let genesis = block.is_genesis();
        if !genesis {
            if !block.has_valid_proof() {
                return ReceiveOutcome::InvalidProof;
            }
            if !self.blocks.contains_key(&block.prev_block_hash.bytes) {
                self.buffer_orphan(block);
                return ReceiveOutcome::UnknownParent;
            }
        }
        let mut stored = block;
        if !genesis {
            let ghost pv = seq_get(c0.blocks, bv.prev_block_hash)->Some_0;
            match self.blocks.get(&stored.prev_block_hash.bytes) {
                Some(parent) => {
                    proof {
                        lemma_get_some_means_present(c0.blocks, bv.prev_block_hash);
                        assert(parent.wf());
                    }
                    if parent.chain_length == u32::MAX || stored.chain_length
                        != parent.chain_length + 1 {
                        return ReceiveOutcome::InvalidTransition;
                    }
                    match stored.rerun(parent) {
                        Ok(()) => {},
                        Err(_) => {
                            return ReceiveOutcome::InvalidTransition;
                        },
                    }
                },
                None => {
                    proof {
                        assert(false);
                    }
                    return ReceiveOutcome::InvalidTransition;
                },
            }
        }
        let ghost st = stored@;
        proof {
            assert(stored_form(c0.blocks, bv) == Some(st));
            if bv.chain_length > 0 {
                let pv = seq_get(c0.blocks, bv.prev_block_hash)->Some_0;
                crate::block::lemma_apply_txs_header(
                    crate::block::reset_against(bv, pv),
                    crate::block::sort_by_nonce(crate::block::values_of(bv.transactions)),
                );
                assert(st.prev_block_hash == bv.prev_block_hash);
                assert(st.chain_length == bv.chain_length);
            }
        }
        let stored_id = stored.hash_val();
        let ghost sid = stored_id@;
        if self.blocks.contains_key(&stored_id.bytes) {
            return ReceiveOutcome::DuplicateBlock;
        }
        self.accept_block(stored, worklist);
        ReceiveOutcome::Accepted
    }

    /// Stores a validated block, promotes the tip, and dequeues its waiting
    /// orphans.
    fn accept_block(&mut self, stored: Block, worklist: &mut Vec<Block>)
        requires
            old(self).wf(),
            stored.wf(),
            !seq_has_key(old(self)@.blocks, block_id_of(stored@)),
            stored@.chain_length > 0 ==> (seq_get(old(self)@.blocks, stored@.prev_block_hash)
                matches Some(p) && p.chain_length + 1 == stored@.chain_length),
        ensures
            final(self).wf(),
            final(self)@.pub_key == old(self)@.pub_key,
            final(self)@.nonce == old(self)@.nonce,
            tip_len(old(self)@) <= tip_len(final(self)@),
            final(self)@.last_block == old(self)@.last_block || tip_len(final(self)@) > tip_len(
                old(self)@,
            ) || old(self)@.last_block is None,
            forall|k: Seq<u8>|
                seq_has_key(old(self)@.blocks, k) ==> seq_get(final(self)@.blocks, k) == seq_get(
                    old(self)@.blocks,
                    k,
                ),
            final(self)@.blocks == seq_insert(
                old(self)@.blocks,
                block_id_of(stored@),
                stored@,
            ),
            seq_get(final(self)@.blocks, block_id_of(stored@)) == Some(stored@),
            tip_len(final(self)@) >= stored@.chain_length,
            old(self)@.last_block is None || stored@.chain_length > tip_len(old(self)@)
                ==> final(self)@.last_block == Some(block_id_of(stored@)),
            old(self)@.last_block is Some && stored@.chain_length <= tip_len(old(self)@)
                ==> final(self)@.last_block == old(self)@.last_block && final(self)@.last_confirmed
                == old(self)@.last_confirmed && final(self)@.pending_outgoing
                == old(self)@.pending_outgoing && final(self)@.pending_received
                == old(self)@.pending_received,
            final(self)@.pending_blocks == seq_remove(
                old(self)@.pending_blocks,
                block_id_of(stored@),
            ),
            final(worklist)@.len() == old(worklist)@.len() + orphans_of(
                old(self)@.pending_blocks,
                block_id_of(stored@),
            ).len(),
            forall|w: int| 0 <= w < old(worklist)@.len() ==> final(worklist)@[w] == old(worklist)@[w],
            forall|j: int|
                0 <= j < orphans_of(old(self)@.pending_blocks, block_id_of(stored@)).len()
                    ==> final(worklist)@[old(worklist)@.len() + orphans_of(
                    old(self)@.pending_blocks,
                    block_id_of(stored@),
                ).len() - 1 - j] == orphans_of(old(self)@.pending_blocks, block_id_of(stored@))[j],
            pending_count(final(self)@.pending_blocks) + final(worklist)@.len() == pending_count(
                old(self)@.pending_blocks,
            ) + old(worklist)@.len(),
    {
        let ghost c0 = self@;
        let ghost st = stored@;
        let ghost sid = block_id_of(st);
        let stored_id = stored.hash_val();
        self.store_and_promote(stored);
        let ghost c1 = self@;
        proof {
            assert(c1.pending_blocks == c0.pending_blocks);
        }
        self.dequeue_orphans(&stored_id.bytes, worklist);
        proof {
            assert(self@.blocks == c1.blocks);
            assert(self@.last_block == c1.last_block);
            assert(tip_len(self@) == tip_len(c1));
        }
    }

    /// Stores a validated block and promotes the tip if the block's chain is
    /// strictly the longest seen, recomputing the confirmed tip when it is.
    fn store_and_promote(&mut self, stored: Block)
        requires
            old(self).wf(),
            stored.wf(),
            !seq_has_key(old(self)@.blocks, block_id_of(stored@)),
            stored@.chain_length > 0 ==> (seq_get(old(self)@.blocks, stored@.prev_block_hash)
                matches Some(p) && p.chain_length + 1 == stored@.chain_length),
        ensures
            final(self).wf(),
            final(self)@.pub_key == old(self)@.pub_key,
            final(self)@.nonce == old(self)@.nonce,
            final(self)@.pending_blocks == old(self)@.pending_blocks,
            final(self)@.blocks == seq_insert(
                old(self)@.blocks,
                block_id_of(stored@),
                stored@,
            ),
            seq_get(final(self)@.blocks, block_id_of(stored@)) == Some(stored@),
            forall|k: Seq<u8>|
                seq_has_key(old(self)@.blocks, k) ==> seq_get(final(self)@.blocks, k) == seq_get(
                    old(self)@.blocks,
                    k,
                ),
            tip_len(old(self)@) <= tip_len(final(self)@),
            tip_len(final(self)@) >= stored@.chain_length,
            old(self)@.last_block is None || stored@.chain_length > tip_len(old(self)@)
                ==> final(self)@.last_block == Some(block_id_of(stored@)),
            old(self)@.last_block is Some && stored@.chain_length <= tip_len(old(self)@)
                ==> final(self)@.last_block == old(self)@.last_block && final(self)@.last_confirmed
                == old(self)@.last_confirmed && final(self)@.pending_outgoing
                == old(self)@.pending_outgoing && final(self)@.pending_received
                == old(self)@.pending_received,
    {
        let ghost c0 = self@;
        let ghost st = stored@;
        let stored_id = stored.hash_val();
        let ghost sid = stored_id@;
        let stored_len = stored.chain_length;
        proof {
            lemma_insert_props(c0.blocks, sid, st);
        }
        self.blocks.insert(clone_bytes(&stored_id.bytes), stored);
        proof {
            match c0.last_block {
                Some(h) => {
                    assert(h != sid);
                    assert(seq_has_key(self@.blocks, h));
                },
                None => {},
            }
        }
        let no_tip = self.last_block_id.is_none();
        let current_length = self.tip_length();
        if no_tip || current_length < stored_len {
            self.last_block_id = Some(clone_bytes(&stored_id.bytes));
            proof {
                lemma_wf_after_store(c0, self@, st, sid);
            }
            self.set_last_confirmed();
        } else {
            proof {
                lemma_wf_after_store(c0, self@, st, sid);
            }
        }
    }

    /// Moves every orphan buffered under the given hash onto the worklist.
    fn dequeue_orphans(&mut self, stored_id: &Vec<u8>, worklist: &mut Vec<Block>)
        requires
            old(self).wf(),
        ensures
            final(self).wf(),
            final(self)@ == (ClientV { pending_blocks: final(self)@.pending_blocks, ..old(self)@ }),
            final(self)@.pending_blocks == seq_remove(old(self)@.pending_blocks, stored_id@),
            final(worklist)@.len() == old(worklist)@.len() + orphans_of(
                old(self)@.pending_blocks,
                stored_id@,
            ).len(),
            forall|w: int| 0 <= w < old(worklist)@.len() ==> final(worklist)@[w] == old(worklist)@[w],
            forall|j: int|
                0 <= j < orphans_of(old(self)@.pending_blocks, stored_id@).len()
                    ==> final(worklist)@[old(worklist)@.len() + orphans_of(
                    old(self)@.pending_blocks,
                    stored_id@,
                ).len() - 1 - j] == orphans_of(old(self)@.pending_blocks, stored_id@)[j],
            pending_count(final(self)@.pending_blocks) + final(worklist)@.len() == pending_count(
                old(self)@.pending_blocks,
            ) + old(worklist)@.len(),
    {
        let ghost c0 = self@;
        let ghost sid = stored_id@;
        proof {
            lemma_remove_props(c0.pending_blocks, sid);
            lemma_pending_remove(c0.pending_blocks, sid);
        }
        let orphans = self.pending_blocks.remove(stored_id);
        proof {
            // every remaining orphan entry was an entry before
            let c2 = self@;
            assert forall|i: int, j: int|
                0 <= i < c2.pending_blocks.len() && 0 <= j
                    < c2.pending_blocks[i].1.len() implies block_wf(
                #[trigger] c2.pending_blocks[i].1[j]@,
            ) && c2.pending_blocks[i].1[j]@.prev_block_hash == c2.pending_blocks[i].0
                && c2.pending_blocks[i].1[j]@.chain_length > 0 by {
                let w = choose|w: int|
                    0 <= w < c0.pending_blocks.len() && c0.pending_blocks[w]
                        == c2.pending_blocks[i];
                assert(block_wf(c0.pending_blocks[w].1[j]@));
            }
            assert(client_wf(self@));
            assert(self@ =~= (ClientV { pending_blocks: self@.pending_blocks, ..c0 }));
        }
        match orphans {
            Some(list) => {
                let ghost orph = orphans_of(c0.pending_blocks, sid);
                let ghost w0 = worklist@;
                let ghost c3 = self@;
                let mut list = list;
                proof {
                    assert(list@ == orph);
                    assert(orph.subrange(0, orph.len() as int) =~= orph);
                }
                while list.len() > 0
                    invariant
                        self@ == c3,
                        list@ == orph.subrange(0, list@.len() as int),
                        list@.len() <= orph.len(),
                        worklist@.len() == w0.len() + orph.len() - list@.len(),
                        forall|w: int| 0 <= w < w0.len() ==> worklist@[w] == w0[w],
                        forall|j: int|
                            list@.len() <= j < orph.len() ==> worklist@[w0.len() + orph.len() - 1
                                - j] == orph[j],
                    decreases list@.len(),
                {
                    let ghost m = list@.len() as int;
                    match list.pop() {
                        Some(b) => {
                            proof {
                                assert(b == orph.subrange(0, m)[m - 1]);
                                assert(b == orph[m - 1]);
                                assert(list@ =~= orph.subrange(0, m - 1));
                            }
                            worklist.push(b);
                        },
                        None => {
                            proof {
                                assert(false);
                            }
                        },
                    }
                }
            },
            None => {
                proof {
                    assert(orphans_of(c0.pending_blocks, sid).len() == 0);
                }
            },
        }
    }
}

impl Client {
    /// Receives a block: validates and stores it by the rules of
    /// `process_block`, and then resolves, through an explicit worklist,
    /// every buffered orphan a newly stored block unlocks. The tip only ever
    /// moves to a strictly longer chain; equal lengths never change it.
    pub fn receive_block(&mut self, block: Block) -> (r: ReceiveOutcome)
        requires
            old(self).wf(),
            block.wf(),
        ensures
            final(self).wf(),
            final(self)@.pub_key == old(self)@.pub_key,
            final(self)@.nonce == old(self)@.nonce,
            tip_len(old(self)@) <= tip_len(final(self)@),
            final(self)@.last_block == old(self)@.last_block || tip_len(final(self)@) > tip_len(
                old(self)@,
            ) || old(self)@.last_block is None,
            forall|k: Seq<u8>|
                seq_has_key(old(self)@.blocks, k) ==> seq_get(final(self)@.blocks, k) == seq_get(
                    old(self)@.blocks,
                    k,
                ),
            match r {
                ReceiveOutcome::Accepted => ({
                    let st = stored_form(old(self)@.blocks, block@)->Some_0;
                    let sid = block_id_of(st);
                    let orph = orphans_of(old(self)@.pending_blocks, sid);
                    &&& stored_form(old(self)@.blocks, block@) is Some
                    &&& !seq_has_key(old(self)@.blocks, block_id_of(block@))
                    &&& !seq_has_key(old(self)@.blocks, sid)
                    &&& seq_get(final(self)@.blocks, sid) == Some(st)
                    &&& tip_len(final(self)@) >= st.chain_length
                    &&& (orph.len() == 0 && (old(self)@.last_block is None || st.chain_length
                        > tip_len(old(self)@)) ==> final(self)@.last_block == Some(sid))
                    &&& (orph.len() == 0 && old(self)@.last_block is Some && st.chain_length
                        <= tip_len(old(self)@) ==> final(self)@.last_block
                        == old(self)@.last_block)
                    &&& forall|j: int|
                        0 <= j < orph.len() ==> resolved_orphan(final(self)@.blocks, st, orph[j]@)
                }),
                ReceiveOutcome::DuplicateBlock => final(self)@ == old(self)@ && (seq_has_key(
                    old(self)@.blocks,
                    block_id_of(block@),
                ) || (stored_form(old(self)@.blocks, block@) matches Some(st) && seq_has_key(
                    old(self)@.blocks,
                    block_id_of(st),
                ))),
                ReceiveOutcome::InvalidProof => final(self)@ == old(self)@ && !seq_has_key(
                    old(self)@.blocks,
                    block_id_of(block@),
                ) && block@.chain_length != 0 && !pow_accepts(
                    block_id_of(block@),
                    block@.pow_target,
                ),
                ReceiveOutcome::UnknownParent => !seq_has_key(
                    old(self)@.blocks,
                    block_id_of(block@),
                ) && block@.chain_length != 0 && pow_accepts(block_id_of(block@), block@.pow_target)
                    && seq_get(old(self)@.blocks, block@.prev_block_hash) is None && final(self)@
                    == (ClientV { pending_blocks: final(self)@.pending_blocks, ..old(self)@ })
                    && final(self)@.pending_blocks == seq_remove(
                    old(self)@.pending_blocks,
                    block@.prev_block_hash,
                ).push(
                    (
                        block@.prev_block_hash,
                        orphans_of(old(self)@.pending_blocks, block@.prev_block_hash).push(block),
                    ),
                ),
                ReceiveOutcome::InvalidTransition => final(self)@ == old(self)@ && !seq_has_key(
                    old(self)@.blocks,
                    block_id_of(block@),
                ) && block@.chain_length != 0 && pow_accepts(block_id_of(block@), block@.pow_target)
                    && (seq_get(old(self)@.blocks, block@.prev_block_hash) matches Some(p) && !(
                block@.chain_length == p.chain_length + 1 && rerun_spec(block@, p) is Ok)),
            },
    {
        let ghost c0 = self@;
        let ghost bv = block@;
        let mut worklist: Vec<Block> = Vec::new();
        let r = self.process_block(block, &mut worklist);
        if worklist.len() == 0 {
            return r;
        }
        proof {
            assert(r == ReceiveOutcome::Accepted);
        }
        let ghost st = stored_form(c0.blocks, bv)->Some_0;
        let ghost sid = block_id_of(st);
        let ghost orph = orphans_of(c0.pending_blocks, sid);
        proof {
            // what sits in the worklist came out of the orphan list of the
            // stored block: well-formed blocks waiting on exactly that key
            lemma_get_some_means_present(c0.pending_blocks, sid);
            assert forall|w: int| 0 <= w < worklist@.len() implies block_wf(
                #[trigger] worklist@[w]@,
            ) && worklist@[w]@.chain_length > 0 && seq_has_key(
                self@.blocks,
                worklist@[w]@.prev_block_hash,
            ) by {
                let j = orph.len() - 1 - w;
                assert(worklist@[w] == orph[j]);
                let i = choose|i: int|
                    0 <= i < c0.pending_blocks.len() && c0.pending_blocks[i].0 == sid
                        && c0.pending_blocks[i].1 == seq_get(c0.pending_blocks, sid)->Some_0;
                assert(block_wf(c0.pending_blocks[i].1[j]@));
                assert(orph[j]@.prev_block_hash == sid);
            }
            assert forall|j: int| 0 <= j < orph.len() implies resolved_orphan(
                self@.blocks,
                st,
                orph[j]@,
            ) || exists|w: int| 0 <= w < worklist@.len() && worklist@[w] == orph[j] by {
                let w = orph.len() - 1 - j;
                assert(worklist@[w] == orph[j]);
            }
        }
        while worklist.len() > 0
            invariant
                self.wf(),
                self@.pub_key == c0.pub_key,
                self@.nonce == c0.nonce,
                tip_len(c0) <= tip_len(self@),
                self@.last_block == c0.last_block || tip_len(self@) > tip_len(c0)
                    || c0.last_block is None,
                forall|k: Seq<u8>|
                    seq_has_key(c0.blocks, k) ==> seq_get(self@.blocks, k) == seq_get(c0.blocks, k),
                seq_get(self@.blocks, sid) == Some(st),
                tip_len(self@) >= st.chain_length,
                forall|w: int|
                    0 <= w < worklist@.len() ==> block_wf(#[trigger] worklist@[w]@)
                        && worklist@[w]@.chain_length > 0 && seq_has_key(
                        self@.blocks,
                        worklist@[w]@.prev_block_hash,
                    ),
                forall|j: int|
                    0 <= j < orph.len() ==> resolved_orphan(self@.blocks, st, orph[j]@) || exists|
                        w: int,
                    | 0 <= w < worklist@.len() && worklist@[w] == orph[j],
            decreases pending_count(self@.pending_blocks) + worklist@.len(),
    {
            let ghost pre_work = worklist@;
            let ghost pre_c = self@;
            match worklist.pop() {
                Some(b) => {
                    proof {
                        assert(b == pre_work.last());
                        assert(block_wf(b@));
                        assert(seq_has_key(pre_c.blocks, b@.prev_block_hash));
                    }
                    let rr = self.process_block(b, &mut worklist);
                    proof {
                        assert(rr != ReceiveOutcome::UnknownParent);
                        // the measure drops: a pop always pays for whatever
                        // acceptance moved from the orphan buffer
                        assert(pending_count(self@.pending_blocks) + worklist@.len() + 1
                            == pending_count(pre_c.pending_blocks) + pre_work.len()) by {
                            if rr != ReceiveOutcome::Accepted {
                                assert(worklist@ == pre_work.drop_last());
                            }
                        }
                        lemma_pending_nonneg(self@.pending_blocks);
                        // everything still queued is well-formed and waits on
                        // a stored parent
                        assert forall|w: int| 0 <= w < worklist@.len() implies block_wf(
                            #[trigger] worklist@[w]@,
                        ) && worklist@[w]@.chain_length > 0 && seq_has_key(
                            self@.blocks,
                            worklist@[w]@.prev_block_hash,
                        ) by {
                            if w < pre_work.len() - 1 {
                                assert(worklist@[w] == pre_work[w]);
                                assert(seq_has_key(pre_c.blocks, pre_work[w]@.prev_block_hash));
                            } else {
                                assert(rr == ReceiveOutcome::Accepted);
                                let st2 = stored_form(pre_c.blocks, b@)->Some_0;
                                let sid2 = block_id_of(st2);
                                let orph2 = orphans_of(pre_c.pending_blocks, sid2);
                                let j2 = (pre_work.len() - 1) + orph2.len() - 1 - w;
                                assert(worklist@[w] == orph2[j2]);
                                lemma_get_some_means_present(pre_c.pending_blocks, sid2);
                                let i = choose|i: int|
                                    0 <= i < pre_c.pending_blocks.len()
                                        && pre_c.pending_blocks[i].0 == sid2
                                        && pre_c.pending_blocks[i].1 == seq_get(
                                        pre_c.pending_blocks,
                                        sid2,
                                    )->Some_0;
                                assert(block_wf(pre_c.pending_blocks[i].1[j2]@));
                                assert(orph2[j2]@.prev_block_hash == sid2);
                                assert(seq_get(self@.blocks, sid2) == Some(st2));
                            }
                        }
                        // old keys keep their bindings across the call
                        assert forall|k: Seq<u8>| seq_has_key(c0.blocks, k) implies seq_get(
                            self@.blocks,
                            k,
                        ) == seq_get(c0.blocks, k) by {
                            assert(seq_get(pre_c.blocks, k) == seq_get(c0.blocks, k));
                            assert(seq_has_key(pre_c.blocks, k));
                        }
                        assert(seq_has_key(pre_c.blocks, sid));
                        assert(seq_get(self@.blocks, sid) == Some(st));
                        // every orphan is either already settled or still queued
                        assert forall|j: int| 0 <= j < orph.len() implies resolved_orphan(
                            self@.blocks,
                            st,
                            orph[j]@,
                        ) || exists|w: int| 0 <= w < worklist@.len() && worklist@[w] == orph[j] by {
                            if resolved_orphan(pre_c.blocks, st, orph[j]@) {
                                assert(resolved_orphan(self@.blocks, st, orph[j]@)) by {
                                    if seq_has_key(pre_c.blocks, block_id_of(orph[j]@)) {
                                        assert(seq_has_key(self@.blocks, block_id_of(orph[j]@)));
                                    }
                                    if orph[j]@.prev_block_hash == block_id_of(st) && pow_accepts(
                                        block_id_of(orph[j]@),
                                        orph[j]@.pow_target,
                                    ) && orph[j]@.chain_length == st.chain_length + 1
                                        && rerun_spec(orph[j]@, st) is Ok && seq_has_key(
                                        pre_c.blocks,
                                        block_id_of(rerun_spec(orph[j]@, st)->Ok_0),
                                    ) {
                                        assert(seq_has_key(
                                            self@.blocks,
                                            block_id_of(rerun_spec(orph[j]@, st)->Ok_0),
                                        ));
                                    }
                                }
                            } else {
                                let w = choose|w: int|
                                    0 <= w < pre_work.len() && pre_work[w] == orph[j];
                                if w < pre_work.len() - 1 {
                                    assert(worklist@[w] == pre_work[w]);
                                } else {
                                    // this orphan was just processed
                                    assert(b == orph[j]);
                                    if orph[j]@.prev_block_hash == block_id_of(st) && pow_accepts(
                                        block_id_of(orph[j]@),
                                        orph[j]@.pow_target,
                                    ) && orph[j]@.chain_length == st.chain_length + 1
                                        && rerun_spec(orph[j]@, st) is Ok {
                                        assert(seq_get(pre_c.blocks, b@.prev_block_hash) == Some(
                                            st,
                                        ));
                                        assert(stored_form(pre_c.blocks, b@) == Some(
                                            rerun_spec(b@, st)->Ok_0,
                                        ));
                                        assert(rr == ReceiveOutcome::Accepted || rr
                                            == ReceiveOutcome::DuplicateBlock);
                                        if rr == ReceiveOutcome::Accepted {
                                            assert(seq_has_key(
                                                self@.blocks,
                                                block_id_of(rerun_spec(b@, st)->Ok_0),
                                            ));
                                        } else {
                                            assert(seq_has_key(
                                                pre_c.blocks,
                                                block_id_of(b@),
                                            ) || seq_has_key(
                                                pre_c.blocks,
                                                block_id_of(rerun_spec(b@, st)->Ok_0),
                                            ));
                                        }
                                        assert(resolved_orphan(self@.blocks, st, orph[j]@));
                                    }
                                }
                            }
                        }
                    }
                },
                None => {
                    proof {
                        assert(false);
                    }
                },
            }
        }
        r
    }
}

} // verus!
