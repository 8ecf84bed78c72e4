//! The miner: pools unconfirmed transactions, builds a candidate block on the
//! current tip, searches for a proof, and feeds a found block back through
//! its own chain state — carrying unconfirmed work across a reorganization.
use crate::block::{
    block_id_of, block_wf, mature_balances, pow_accepts, proof_attempt_ok, tx_apply, Block, BlockV,
};
use crate::blockchain::Blockchain;
use crate::bytemap::{
    bytes_eq, clone_bytes, lemma_get_present, lemma_get_some_means_present, seq_get, seq_has_key,
    seq_insert, unique_keys, ByteMap,
};
use crate::client::{
    available_gold_of, chosen_fee, client_wf, stored_form, tip_len, Client, ClientV,
    ReceiveOutcome,
};
use crate::crypto::base64_of;
use crate::transaction::{total_output_of, tx_id_of, Transaction, TxView};
use crate::{Address, COINBASE_REWARD, DEFAULT_MINING_ROUNDS, POW_LEADING_ZEROS};
use vstd::prelude::*;

verus! {

/// Misuse of the miner: conditions its caller must rule out.
#[derive(Clone, Copy, Debug, PartialEq, Eq, Structural)]
pub enum MinerError {
    /// Mining cannot proceed on a chain state without a genesis block.
    NoGenesis,
    /// There is no candidate block to search on yet.
    NoCandidate,
    /// The tip's chain length has reached the largest representable value,
    /// so no child block can be built on it.
    ChainTooLong,
}

/// A miner around its own chain state.
pub struct Miner {
    pub client: Client,
    transactions: Vec<Transaction>,
    current_block: Option<Block>,
    mining_rounds: usize,
}

/// The mathematical value of a miner.
#[verifier::ext_equal]
pub struct MinerV {
    pub client: ClientV,
    pub pool: Seq<Transaction>,
    pub current_block: Option<Block>,
    pub mining_rounds: usize,
}

impl View for Miner {
    type V = MinerV;

    closed spec fn view(&self) -> MinerV {
        MinerV {
            client: self.client@,
            pool: self.transactions@,
            current_block: self.current_block,
            mining_rounds: self.mining_rounds,
        }
    }
}

/// The miner's invariant: a well-formed chain state, and a candidate (when
/// one exists) that is well-formed and built on a stored parent.
pub open spec fn miner_wf(m: MinerV) -> bool {
    &&& client_wf(m.client)
    &&& match m.current_block {
        Some(b) => block_wf(b@) && b@.chain_length > 0 && (seq_get(
            m.client.blocks,
            b@.prev_block_hash,
        ) matches Some(p) && p.chain_length + 1 == b@.chain_length),
        None => true,
    }
}

/// The candidate block a miner starts from: a fresh block on the tip,
/// rewarded to the miner's address.
pub open spec fn candidate_of(tipb: BlockV, reward: Seq<u8>) -> BlockV {
    BlockV {
        reward_addr: reward,
        prev_block_hash: block_id_of(tipb),
        pow_target: Seq::new(32, |i: int| crate::pow_target_byte(POW_LEADING_ZEROS as nat, i as nat)),
        proof: 0,
        coinbase_reward: COINBASE_REWARD,
        transactions: Seq::empty(),
        chain_length: (tipb.chain_length + 1) as u32,
        timestamp: 0,
        balances: mature_balances(tipb),
        next_nonce: tipb.next_nonce,
    }
}

/// Pool transactions applied one at a time in pool order; one that fails a
/// guard is dropped silently.
pub open spec fn fill_candidate(b: BlockV, ts: Seq<TxView>) -> BlockV
    decreases ts.len(),
{
    if ts.len() == 0 {
        b
    } else {
        let b2 = fill_candidate(b, ts.drop_last());
        match tx_apply(b2, ts.last()) {
            Ok(b3) => b3,
            Err(_) => b2,
        }
    }
}

/// Filling a candidate never changes its header fields.
proof fn lemma_fill_header(b: BlockV, ts: Seq<TxView>)
    ensures
        fill_candidate(b, ts) == (BlockV {
            transactions: fill_candidate(b, ts).transactions,
            balances: fill_candidate(b, ts).balances,
            next_nonce: fill_candidate(b, ts).next_nonce,
            ..b
        }),
    decreases ts.len(),
{
    if ts.len() > 0 {
        lemma_fill_header(b, ts.drop_last());
    }
}

/// Whether a transaction with this identity hash is included in the chain
/// from `b` back to the genesis block, following stored parent links.
pub open spec fn chain_has_tx(blocks: Seq<(Seq<u8>, BlockV)>, b: BlockV, id: Seq<u8>) -> bool
    decreases b.chain_length,
{
    seq_has_key(b.transactions, id) || (b.chain_length > 0 && match seq_get(
        blocks,
        b.prev_block_hash,
    ) {
        Some(p) => p.chain_length < b.chain_length && chain_has_tx(blocks, p, id),
        None => false,
    })
}

/// Whether some collected identity hash equals `id`.
pub open spec fn ids_contain(s: Seq<Vec<u8>>, id: Seq<u8>) -> bool {
    exists|i: int| 0 <= i < s.len() && s[i]@ == id
}

/// The reorganization carryover relation: `carry` holds exactly the
/// transactions of the stale chain that the adopted chain has not settled.
pub open spec fn carryover_ok(
    blocks: Seq<(Seq<u8>, BlockV)>,
    stale: BlockV,
    adopted: BlockV,
    carry: Seq<Transaction>,
) -> bool {
    &&& forall|i: int|
        0 <= i < carry.len() ==> chain_has_tx(blocks, stale, tx_id_of(#[trigger] carry[i]@))
            && !chain_has_tx(blocks, adopted, tx_id_of(carry[i]@))
    &&& forall|id: Seq<u8>|
        chain_has_tx(blocks, stale, id) && !chain_has_tx(blocks, adopted, id) ==> exists|i: int|
            0 <= i < carry.len() && tx_id_of(#[trigger] carry[i]@) == id
}

/// The linkage facts the chain walks need of a block store.
pub open spec fn store_linked(blocks: Seq<(Seq<u8>, BlockV)>) -> bool {
    &&& unique_keys(blocks)
    &&& forall|i: int| 0 <= i < blocks.len() ==> #[trigger] block_wf(blocks[i].1)
    &&& forall|i: int|
        0 <= i < blocks.len() && #[trigger] blocks[i].1.chain_length > 0 ==> seq_has_key(
            blocks,
            blocks[i].1.prev_block_hash,
        ) && seq_get(blocks, blocks[i].1.prev_block_hash)->Some_0.chain_length + 1
            == blocks[i].1.chain_length
}

/// Whether one of the first `i` entries holds this key.
pub open spec fn prefix_has(s: Seq<(Seq<u8>, TxView)>, i: int, id: Seq<u8>) -> bool {
    exists|j: int| 0 <= j < i && s[j].0 == id
}

proof fn lemma_prefix_all(s: Seq<(Seq<u8>, TxView)>, id: Seq<u8>)
    requires
        unique_keys(s),
    ensures
        prefix_has(s, s.len() as int, id) <==> seq_has_key(s, id),
{
    if prefix_has(s, s.len() as int, id) {
        let j = choose|j: int| 0 <= j < s.len() && s[j].0 == id;
        lemma_get_present(s, j);
    }
    if seq_has_key(s, id) {
        lemma_get_some_means_present(s, id);
        let j = choose|j: int|
            0 <= j < s.len() && s[j].0 == id && s[j].1 == seq_get(s, id)->Some_0;
        assert(prefix_has(s, s.len() as int, id));
    }
}

/// The keys of a transaction map, as a vector of identity hashes.
fn map_keys(m: &ByteMap<Transaction>) -> (r: Vec<Vec<u8>>)
    requires
        unique_keys(m@),
    ensures
        forall|id: Seq<u8>| ids_contain(r@, id) <==> seq_has_key(m@, id),
{
    let mut ids: Vec<Vec<u8>> = Vec::new();
    let n = m.len();
    let mut i: usize = 0;
    while i < n
        invariant
            i <= n,
            n == m@.len(),
            unique_keys(m@),
            forall|id: Seq<u8>| ids_contain(ids@, id) <==> prefix_has(m@, i as int, id),
        decreases n - i,
    {
        let ghost before = ids@;
        ids.push(clone_bytes(m.key_at(i)));
        proof {
            assert forall|id: Seq<u8>|
                ids_contain(ids@, id) <==> prefix_has(m@, i as int + 1, id) by {
                if ids_contain(ids@, id) {
                    let w = choose|w: int| 0 <= w < ids@.len() && ids@[w]@ == id;
                    if w < before.len() {
                        assert(before[w] == ids@[w]);
                        assert(ids_contain(before, id));
                        let j = choose|j: int| 0 <= j < i && m@[j].0 == id;
                        assert(prefix_has(m@, i as int + 1, id));
                    } else {
                        assert(ids@[w]@ == m@[i as int].0);
                        assert(prefix_has(m@, i as int + 1, id));
                    }
                }
                if prefix_has(m@, i as int + 1, id) {
                    let j = choose|j: int| 0 <= j < i as int + 1 && m@[j].0 == id;
                    if j < i as int {
                        assert(prefix_has(m@, i as int, id));
                        assert(ids_contain(before, id));
                        let w = choose|w: int| 0 <= w < before.len() && before[w]@ == id;
                        assert(ids@[w]@ == id);
                    } else {
                        assert(ids@[ids@.len() - 1]@ == id);
                    }
                }
            }
        }
        i = i + 1;
    }
    proof {
        assert forall|id: Seq<u8>| ids_contain(ids@, id) <==> seq_has_key(m@, id) by {
            lemma_prefix_all(m@, id);
            if ids_contain(ids@, id) {
                assert(prefix_has(m@, i as int, id));
            }
            if seq_has_key(m@, id) {
                assert(prefix_has(m@, m@.len() as int, id));
                assert(prefix_has(m@, i as int, id));
            }
        }
    }
    ids
}

/// Concatenates two collections of identity hashes.
fn concat_ids(a: &Vec<Vec<u8>>, b: &Vec<Vec<u8>>) -> (r: Vec<Vec<u8>>)
    ensures
        forall|id: Seq<u8>|
            ids_contain(r@, id) <==> (ids_contain(a@, id) || ids_contain(b@, id)),
{
    let mut r: Vec<Vec<u8>> = Vec::new();
    let mut i: usize = 0;
    while i < a.len()
        invariant
            i <= a@.len(),
            r@.len() == i,
            forall|w: int| 0 <= w < i ==> r@[w]@ == a@[w]@,
        decreases a@.len() - i,
    {
        r.push(clone_bytes(&a[i]));
        i = i + 1;
    }
    let mut j: usize = 0;
    while j < b.len()
        invariant
            j <= b@.len(),
            r@.len() == a@.len() + j,
            forall|w: int| 0 <= w < a@.len() ==> r@[w]@ == a@[w]@,
            forall|w: int| a@.len() <= w < r@.len() ==> r@[w]@ == b@[w - a@.len()]@,
        decreases b@.len() - j,
    {
        r.push(clone_bytes(&b[j]));
        j = j + 1;
    }
    proof {
        assert forall|id: Seq<u8>|
            ids_contain(r@, id) <==> (ids_contain(a@, id) || ids_contain(b@, id)) by {
            if ids_contain(r@, id) {
                let w = choose|w: int| 0 <= w < r@.len() && r@[w]@ == id;
                if w < a@.len() {
                    assert(a@[w]@ == id);
                } else {
                    assert(b@[w - a@.len()]@ == id);
                }
            }
            if ids_contain(a@, id) {
                let w = choose|w: int| 0 <= w < a@.len() && a@[w]@ == id;
                assert(r@[w]@ == id);
            }
            if ids_contain(b@, id) {
                let w = choose|w: int| 0 <= w < b@.len() && b@[w]@ == id;
                assert(r@[a@.len() + w]@ == id);
            }
        }
    }
    r
}

/// Collects the identity hash of every transaction included in the chain
/// from `start` back to the genesis block.
fn collect_chain_ids(blocks: &ByteMap<Block>, start: &Block) -> (r: Vec<Vec<u8>>)
    requires
        store_linked(blocks@),
        block_wf(start@),
        start@.chain_length > 0 ==> (seq_get(blocks@, start@.prev_block_hash) matches Some(p)
            && p.chain_length < start@.chain_length),
    ensures
        forall|id: Seq<u8>| ids_contain(r@, id) <==> chain_has_tx(blocks@, start@, id),
    decreases start@.chain_length,
{
    let mut ids = map_keys(&start.transactions);
    if start.chain_length > 0 {
        match blocks.get(&start.prev_block_hash.bytes) {
            Some(p) => {
                proof {
                    lemma_get_some_means_present(blocks@, start@.prev_block_hash);
                    let w = choose|w: int|
                        0 <= w < blocks@.len() && blocks@[w].0 == start@.prev_block_hash
                            && blocks@[w].1 == seq_get(blocks@, start@.prev_block_hash)->Some_0;
                    assert(block_wf(blocks@[w].1));
                    if blocks@[w].1.chain_length > 0 {
                        assert(seq_has_key(blocks@, blocks@[w].1.prev_block_hash));
                    }
                }
                let rest = collect_chain_ids(blocks, p);
                let ghost pv = seq_get(blocks@, start@.prev_block_hash)->Some_0;
                let own = ids;
                ids = concat_ids(&own, &rest);
                proof {
                    assert forall|id: Seq<u8>|
                        ids_contain(ids@, id) <==> chain_has_tx(blocks@, start@, id) by {
                        assert(ids_contain(ids@, id) <==> (ids_contain(own@, id) || ids_contain(
                            rest@,
                            id,
                        )));
                        assert(chain_has_tx(blocks@, start@, id) == (seq_has_key(
                            start@.transactions,
                            id,
                        ) || chain_has_tx(blocks@, pv, id)));
                    }
                }
            },
            None => {
                proof {
                    assert(false);
                }
            },
        }
    } else {
        proof {
            assert forall|id: Seq<u8>|
                ids_contain(ids@, id) <==> chain_has_tx(blocks@, start@, id) by {
                assert(chain_has_tx(blocks@, start@, id) == seq_has_key(start@.transactions, id));
            }
        }
    }
    ids
}

/// Looks an identity hash up among collected ones.
fn ids_lookup(ids: &Vec<Vec<u8>>, id: &Vec<u8>) -> (r: bool)
    ensures
        r == ids_contain(ids@, id@),
{
    let mut i: usize = 0;
    while i < ids.len()
        invariant
            i <= ids@.len(),
            forall|j: int| 0 <= j < i ==> ids@[j]@ != id@,
        decreases ids@.len() - i,
    {
        if bytes_eq(&ids[i], id) {
            return true;
        }
        i = i + 1;
    }
    proof {
        if ids_contain(ids@, id@) {
            let w = choose|w: int| 0 <= w < ids@.len() && ids@[w]@ == id@;
        }
    }
    false
}

/// Collects every transaction included in the chain from `start` back to the
/// genesis block.
fn collect_chain_txs(blocks: &ByteMap<Block>, start: &Block) -> (r: Vec<Transaction>)
    requires
        store_linked(blocks@),
        block_wf(start@),
        start@.chain_length > 0 ==> (seq_get(blocks@, start@.prev_block_hash) matches Some(p)
            && p.chain_length < start@.chain_length),
    ensures
        forall|i: int|
            0 <= i < r@.len() ==> chain_has_tx(blocks@, start@, tx_id_of(#[trigger] r@[i]@)),
        forall|id: Seq<u8>|
            chain_has_tx(blocks@, start@, id) ==> exists|i: int|
                0 <= i < r@.len() && tx_id_of(#[trigger] r@[i]@) == id,
    decreases start@.chain_length,
{
    let mut txs: Vec<Transaction> = Vec::new();
    let n = start.transactions.len();
    let mut i: usize = 0;
    while i < n
        invariant
            i <= n,
            n == start@.transactions.len(),
            block_wf(start@),
            store_linked(blocks@),
            txs@.len() == i,
            forall|w: int| 0 <= w < i ==> #[trigger] txs@[w]@ == start@.transactions[w].1,
        decreases n - i,
    {
        let t = start.transactions.val_at(i).duplicate();
        txs.push(t);
        i = i + 1;
    }
    proof {
        // the first segment carries this block's own transactions, each
        // stored under its identity hash
        assert forall|w: int|
            0 <= w < txs@.len() implies chain_has_tx(blocks@, start@, tx_id_of(
            #[trigger] txs@[w]@,
        )) by {
            assert(start@.transactions[w].0 == tx_id_of(txs@[w]@));
            lemma_get_present(start@.transactions, w);
        }
        assert forall|id: Seq<u8>|
            seq_has_key(start@.transactions, id) implies exists|w: int|
            0 <= w < txs@.len() && tx_id_of(#[trigger] txs@[w]@) == id by {
            lemma_get_some_means_present(start@.transactions, id);
            let j = choose|j: int|
                0 <= j < start@.transactions.len() && start@.transactions[j].0 == id
                    && start@.transactions[j].1 == seq_get(start@.transactions, id)->Some_0;
            assert(tx_id_of(txs@[j]@) == id);
        }
    }
    if start.chain_length > 0 {
        match blocks.get(&start.prev_block_hash.bytes) {
            Some(p) => {
                proof {
                    lemma_get_some_means_present(blocks@, start@.prev_block_hash);
                    let w = choose|w: int|
                        0 <= w < blocks@.len() && blocks@[w].0 == start@.prev_block_hash
                            && blocks@[w].1 == seq_get(blocks@, start@.prev_block_hash)->Some_0;
                    assert(block_wf(blocks@[w].1));
                    if blocks@[w].1.chain_length > 0 {
                        assert(seq_has_key(blocks@, blocks@[w].1.prev_block_hash));
                    }
                }
                let rest = collect_chain_txs(blocks, p);
                let ghost t0 = txs@;
                let ghost r0 = rest@;
                let ghost pv = seq_get(blocks@, start@.prev_block_hash)->Some_0;
                let mut j: usize = 0;
                while j < rest.len()
                    invariant
                        j <= rest@.len(),
                        rest@ == r0,
                        txs@.len() == t0.len() + j,
                        forall|w: int| 0 <= w < t0.len() ==> txs@[w] == t0[w],
                        forall|w: int|
                            t0.len() <= w < txs@.len() ==> #[trigger] txs@[w]@ == r0[w
                                - t0.len()]@,
                    decreases rest@.len() - j,
                {
                    txs.push(rest[j].duplicate());
                    proof {
                        assert(txs@[txs@.len() - 1]@ == r0[j as int]@);
                    }
                    j = j + 1;
                }
                proof {
                    // soundness: each collected transaction sits somewhere in
                    // the chain
                    assert forall|w: int|
                        0 <= w < txs@.len() implies chain_has_tx(blocks@, start@, tx_id_of(
                        #[trigger] txs@[w]@,
                    )) by {
                        if w < t0.len() {
                            assert(txs@[w] == t0[w]);
                            assert(chain_has_tx(blocks@, start@, tx_id_of(t0[w]@)));
                        } else {
                            assert(txs@[w]@ == r0[w - t0.len()]@);
                            assert(chain_has_tx(blocks@, pv, tx_id_of(r0[w - t0.len()]@)));
                        }
                    }
                    // completeness: nothing in the chain is missed
                    assert forall|id: Seq<u8>|
                        chain_has_tx(blocks@, start@, id) implies exists|w: int|
                        0 <= w < txs@.len() && tx_id_of(#[trigger] txs@[w]@) == id by {
                        if seq_has_key(start@.transactions, id) {
                            let v = choose|v: int|
                                0 <= v < t0.len() && tx_id_of(#[trigger] t0[v]@) == id;
                            assert(txs@[v] == t0[v]);
                            assert(tx_id_of(txs@[v]@) == id);
                        } else {
                            assert(chain_has_tx(blocks@, pv, id));
                            let v = choose|v: int|
                                0 <= v < r0.len() && tx_id_of(#[trigger] r0[v]@) == id;
                            assert(txs@[t0.len() + v]@ == r0[v]@);
                            assert(tx_id_of(txs@[t0.len() + v]@) == id);
                        }
                    }
                }
            },
            None => {
                proof {
                    assert(false);
                }
            },
        }
    }
    txs
}


impl Miner {
    /// The miner's invariant.
    pub open spec fn wf(&self) -> bool {
        miner_wf(self@)
    }

    /// A fresh miner around a key pair, optionally seeded with a genesis
    /// block.
    pub fn new(
        name: String,
        starting_block: Option<Block>,
        keypair: ring::signature::Ed25519KeyPair,
        mining_rounds: Option<usize>,
    ) -> (r: Miner)
        requires
            match starting_block {
                Some(b) => b.wf() && b@.chain_length == 0,
                None => true,
            },
        ensures
            r.wf(),
            r@.pool == Seq::<Transaction>::empty(),
            r@.current_block is None,
            r@.client.nonce == 0,
            r@.client.pending_outgoing == Seq::<(Seq<u8>, crate::transaction::TxView)>::empty(),
            match starting_block {
                Some(b) => r@.client.blocks == seq_insert(
                    Seq::<(Seq<u8>, BlockV)>::empty(),
                    block_id_of(b@),
                    b@,
                ) && r@.client.last_block == Some(block_id_of(b@)) && r@.client.last_confirmed
                    == Some(block_id_of(b@)),
                None => r@.client.blocks == Seq::<(Seq<u8>, BlockV)>::empty()
                    && r@.client.last_block is None,
            },
    {
        Miner {
            client: Client::new(name, starting_block, keypair),
            transactions: Vec::new(),
            current_block: None,
            mining_rounds: match mining_rounds {
                Some(n) => n,
                None => DEFAULT_MINING_ROUNDS,
            },
        }
    }

    /// The miner's own address.
    pub fn address(&self) -> (r: Address)
        ensures
            r@ == base64_of(self@.client.pub_key),
    {
        self.client.address()
    }

    /// Pools a transaction for inclusion in the next candidate block.
    pub fn add_transaction(&mut self, tx: Transaction)
        requires
            old(self).wf(),
        ensures
            final(self).wf(),
            final(self)@ == (MinerV { pool: old(self)@.pool.push(tx), ..old(self)@ }),
    {
        self.transactions.push(tx);
    }

    /// Creates, signs and pools a transaction through the owned client, and
    /// adds it to the mining pool when the client accepted it: the new pool
    /// entry carries the client's address and nonce, and the client's pending
    /// pool and nonce advance with it.
    pub fn post_transaction(&mut self, outputs: Vec<(Address, u128)>, custom_fee: Option<u32>)
        requires
            old(self).wf(),
        ensures
            final(self).wf(),
            final(self)@.current_block == old(self)@.current_block,
            final(self)@.pool.len() == old(self)@.pool.len() || final(self)@.pool.len() == old(
                self,
            )@.pool.len() + 1,
            final(self)@.pool.len() == old(self)@.pool.len() ==> final(self)@ == old(self)@,
            // the pool grows exactly when the owned client can afford the
            // transaction and its nonce has room
            final(self)@.pool.len() == old(self)@.pool.len() + 1 <==> (available_gold_of(
                old(self)@.client,
            ) > total_output_of(
                TxView {
                    from: base64_of(old(self)@.client.pub_key),
                    nonce: old(self)@.client.nonce,
                    pubkey: old(self)@.client.pub_key,
                    sig: None,
                    outputs: outputs@.map_values(|p: (Address, u128)| (p.0@, p.1)),
                    fee: chosen_fee(custom_fee),
                    data: Seq::<u8>::empty(),
                },
            ) && old(self)@.client.nonce < u128::MAX),
            final(self)@.pool.len() == old(self)@.pool.len() + 1 ==> ({
                let tx = final(self)@.pool.last();
                &&& final(self)@.pool.drop_last() == old(self)@.pool
                &&& tx@.from == base64_of(old(self)@.client.pub_key)
                &&& tx@.nonce == old(self)@.client.nonce
                &&& tx@.outputs == outputs@.map_values(|p: (Address, u128)| (p.0@, p.1))
                &&& tx@.fee == chosen_fee(custom_fee)
                &&& tx@.sig is Some
                &&& final(self)@.client == (ClientV {
                    nonce: (old(self)@.client.nonce + 1) as u128,
                    pending_outgoing: seq_insert(
                        old(self)@.client.pending_outgoing,
                        tx_id_of(tx@),
                        tx@,
                    ),
                    ..old(self)@.client
                })
            }),
    {
        let tx = self.client.post_transaction(outputs, custom_fee);
        match tx {
            Some(tx) => {
                self.transactions.push(tx);
                proof {
                    assert(self@.pool.drop_last() =~= old(self)@.pool);
                }
            },
            None => {
                proof {
                    assert(self@ =~= old(self)@);
                }
            },
        }
    }

    /// Builds a fresh candidate block on the current tip from any handed-in
    /// transactions plus the pool, emptying the pool; the proof search then
    /// starts from zero. Fails on a chain state without a tip.
    pub fn start_new_search(&mut self, tx_set: Option<Vec<Transaction>>) -> (r: Result<
        (),
        MinerError,
    >)
        requires
            old(self).wf(),
        ensures
            final(self).wf(),
            final(self)@.client == old(self)@.client,
            match r {
                Ok(()) => ({
                    let tipb = seq_get(
                        old(self)@.client.blocks,
                        old(self)@.client.last_block->Some_0,
                    )->Some_0;
                    let handed = match tx_set {
                        Some(v) => v@,
                        None => Seq::<Transaction>::empty(),
                    };
                    &&& old(self)@.client.last_block is Some
                    &&& final(self)@.pool == Seq::<Transaction>::empty()
                    &&& final(self)@.current_block matches Some(c) && c@ == fill_candidate(
                        candidate_of(tipb, base64_of(old(self)@.client.pub_key)),
                        (old(self)@.pool + handed).map_values(|t: Transaction| t@),
                    )
                }),
                Err(MinerError::NoGenesis) => old(self)@.client.last_block is None && final(self)@
                    == old(self)@,
                Err(MinerError::ChainTooLong) => tip_len(old(self)@.client) == u32::MAX as int
                    && final(self)@ == old(self)@,
                Err(MinerError::NoCandidate) => false,
            },
    {
        let ghost m0 = self@;
        let tip = match self.client.last_block() {
            Some(b) => b,
            None => {
                return Err(MinerError::NoGenesis);
            },
        };
        if tip.chain_length == u32::MAX {
            return Err(MinerError::ChainTooLong);
        }
        let mut candidate = Blockchain::make_block(self.client.address(), &tip);
        let ghost tipv = tip@;
        proof {
            assert(candidate@ =~= candidate_of(tipv, base64_of(m0.client.pub_key)));
        }
        match tx_set {
            Some(txs) => {
                let mut txs = txs;
                let ghost handed = txs@;
                proof {
                    assert(handed.subrange(0, handed.len() as int) =~= handed);
                    assert(m0.pool + handed.subrange(0, 0) =~= m0.pool);
                }
                while txs.len() > 0
                    invariant
                        txs@.len() <= handed.len(),
                        txs@ == handed.subrange(
                            handed.len() - txs@.len(),
                            handed.len() as int,
                        ),
                        self@ == (MinerV {
                            pool: m0.pool + handed.subrange(0, handed.len() - txs@.len()),
                            ..m0
                        }),
                    decreases txs@.len(),
                {
                    let ghost k = handed.len() - txs@.len();
                    let tx = txs.remove(0);
                    proof {
                        assert(tx == handed[k]);
                        assert(txs@ =~= handed.subrange(k + 1, handed.len() as int));
                    }
                    self.transactions.push(tx);
                    proof {
                        assert(self@.pool =~= m0.pool + handed.subrange(0, k + 1));
                        assert(self@ =~= (MinerV {
                            pool: m0.pool + handed.subrange(0, k + 1),
                            ..m0
                        }));
                    }
                }
                proof {
                    assert(handed.subrange(0, handed.len() as int) =~= handed);
                }
            },
            None => {
                proof {
                    assert(m0.pool + Seq::<Transaction>::empty() =~= m0.pool);
                }
            },
        }
        let ghost all = self@.pool;
        let ghost base = candidate_of(tipv, base64_of(m0.client.pub_key));
        let n = self.transactions.len();
        let mut i: usize = 0;
        while i < n
            invariant
                i <= n,
                n == self@.pool.len(),
                self@.pool == all,
                self@.client == m0.client,
                candidate.wf(),
                candidate@ == fill_candidate(
                    base,
                    all.map_values(|t: Transaction| t@).subrange(0, i as int),
                ),
            decreases n - i,
        {
            let ghost views = all.map_values(|t: Transaction| t@);
            let ghost pre = views.subrange(0, i as int);
            let ghost cur = views.subrange(0, i as int + 1);
            proof {
                assert(cur.drop_last() =~= pre);
                assert(cur.last() == views[i as int]);
            }
            let tx = self.transactions[i].duplicate();
            let _ = candidate.add_transaction(tx);
            i = i + 1;
        }
        proof {
            let views = all.map_values(|t: Transaction| t@);
            assert(views.subrange(0, views.len() as int) =~= views);
        }
        self.transactions = Vec::new();
        self.current_block = Some(candidate);
        proof {
            assert(self@.pool =~= Seq::<Transaction>::empty());
            // the candidate's parent is the tip block, stored under its own
            // identity hash
            let h = m0.client.last_block->Some_0;
            lemma_get_some_means_present(m0.client.blocks, h);
            let w = choose|w: int|
                0 <= w < m0.client.blocks.len() && m0.client.blocks[w].0 == h
                    && m0.client.blocks[w].1 == seq_get(m0.client.blocks, h)->Some_0;
            assert(m0.client.blocks[w].0 == block_id_of(m0.client.blocks[w].1));
            assert(h == block_id_of(tipv));
            lemma_fill_header(base, all.map_values(|t: Transaction| t@));
            assert(miner_wf(self@));
        }
        Ok(())
    }

    /// `start_new_search` with nothing handed in: the first search.
    pub fn initialize(&mut self) -> (r: Result<(), MinerError>)
        requires
            old(self).wf(),
        ensures
            final(self).wf(),
            final(self)@.client == old(self)@.client,
            r is Ok ==> ({
                let tipb = seq_get(
                    old(self)@.client.blocks,
                    old(self)@.client.last_block->Some_0,
                )->Some_0;
                &&& final(self)@.pool == Seq::<Transaction>::empty()
                &&& final(self)@.current_block matches Some(c) && c@ == fill_candidate(
                    candidate_of(tipb, base64_of(old(self)@.client.pub_key)),
                    old(self)@.pool.map_values(|t: Transaction| t@),
                )
            }),
            r == Err::<(), MinerError>(MinerError::NoGenesis) ==> old(self)@.client.last_block
                is None && final(self)@ == old(self)@,
            r == Err::<(), MinerError>(MinerError::ChainTooLong) ==> tip_len(old(self)@.client)
                == u32::MAX as int && final(self)@ == old(self)@,
            r != Err::<(), MinerError>(MinerError::NoCandidate),
    {
        let r = self.start_new_search(None);
        proof {
            if r is Ok {
                assert(old(self)@.pool + Seq::<Transaction>::empty() =~= old(self)@.pool);
            }
        }
        r
    }
}


impl Miner {
    /// The block the owned chain state's tip points at.
    pub fn last_block(&self) -> (r: Option<Block>)
        requires
            self.wf(),
        ensures
            match r {
                Some(b) => self@.client.last_block matches Some(h) && seq_get(
                    self@.client.blocks,
                    h,
                ) == Some(b@) && b.wf(),
                None => self@.client.last_block is None,
            },
    {
        self.client.last_block()
    }

    /// The block the owned chain state's confirmed tip points at.
    pub fn last_confirmed_block(&self) -> (r: Option<Block>)
        requires
            self.wf(),
        ensures
            match r {
                Some(b) => self@.client.last_confirmed matches Some(h) && seq_get(
                    self@.client.blocks,
                    h,
                ) == Some(b@) && b.wf(),
                None => self@.client.last_confirmed is None,
            },
    {
        self.client.last_confirmed_block()
    }

    /// The reorganization carryover: every transaction in the stale
    /// candidate's chain whose identity hash the newly adopted chain does not
    /// include anywhere in its own history — work that would otherwise be
    /// lost, minus anything already settled.
    pub fn sync_transactions(&self, stale: &Block, new_block: &Block) -> (r: Vec<Transaction>)
        requires
            client_wf(self@.client),
            stale.wf(),
            stale@.chain_length > 0 ==> (seq_get(self@.client.blocks, stale@.prev_block_hash)
                matches Some(p) && p.chain_length < stale@.chain_length),
            new_block.wf(),
            new_block@.chain_length > 0 ==> (seq_get(
                self@.client.blocks,
                new_block@.prev_block_hash,
            ) matches Some(p) && p.chain_length < new_block@.chain_length),
        ensures
            forall|i: int|
                0 <= i < r@.len() ==> chain_has_tx(self@.client.blocks, stale@, tx_id_of(
                    #[trigger] r@[i]@,
                )) && !chain_has_tx(self@.client.blocks, new_block@, tx_id_of(r@[i]@)),
            forall|id: Seq<u8>|
                chain_has_tx(self@.client.blocks, stale@, id) && !chain_has_tx(
                    self@.client.blocks,
                    new_block@,
                    id,
                ) ==> exists|i: int| 0 <= i < r@.len() && tx_id_of(#[trigger] r@[i]@) == id,
    {
        proof {
            assert(store_linked(self@.client.blocks));
        }
        let new_ids = collect_chain_ids(self.client.blocks_ref(), new_block);
        let stale_txs = collect_chain_txs(self.client.blocks_ref(), stale);
        let mut out: Vec<Transaction> = Vec::new();
        let mut i: usize = 0;
        while i < stale_txs.len()
            invariant
                i <= stale_txs@.len(),
                forall|id: Seq<u8>|
                    ids_contain(new_ids@, id) <==> chain_has_tx(
                        self@.client.blocks,
                        new_block@,
                        id,
                    ),
                forall|w: int|
                    0 <= w < stale_txs@.len() ==> chain_has_tx(self@.client.blocks, stale@, tx_id_of(
                        #[trigger] stale_txs@[w]@,
                    )),
                forall|w: int|
                    0 <= w < out@.len() ==> chain_has_tx(self@.client.blocks, stale@, tx_id_of(
                        #[trigger] out@[w]@,
                    )) && !chain_has_tx(self@.client.blocks, new_block@, tx_id_of(out@[w]@)),
                forall|v: int|
                    0 <= v < i && !chain_has_tx(self@.client.blocks, new_block@, tx_id_of(
                        #[trigger] stale_txs@[v]@,
                    )) ==> exists|w: int|
                        0 <= w < out@.len() && tx_id_of(#[trigger] out@[w]@) == tx_id_of(
                            stale_txs@[v]@,
                        ),
            decreases stale_txs@.len() - i,
        {
            let ghost o0 = out@;
            let id = stale_txs[i].id();
            if !ids_lookup(&new_ids, &id.bytes) {
                out.push(stale_txs[i].duplicate());
            }
            proof {
                assert forall|v: int|
                    0 <= v < i + 1 && !chain_has_tx(self@.client.blocks, new_block@, tx_id_of(
                        #[trigger] stale_txs@[v]@,
                    )) implies exists|w: int|
                        0 <= w < out@.len() && tx_id_of(#[trigger] out@[w]@) == tx_id_of(
                            stale_txs@[v]@,
                        ) by {
                    if v < i as int {
                        let w = choose|w: int|
                            0 <= w < o0.len() && tx_id_of(#[trigger] o0[w]@) == tx_id_of(
                                stale_txs@[v]@,
                            );
                        assert(out@[w] == o0[w]);
                        assert(tx_id_of(out@[w]@) == tx_id_of(stale_txs@[v]@));
                    } else {
                        assert(out@[out@.len() - 1]@ == stale_txs@[i as int]@);
                        assert(tx_id_of(out@[out@.len() - 1]@) == tx_id_of(stale_txs@[v]@));
                    }
                }
            }
            i = i + 1;
        }
        proof {
            // completeness: an unsettled chain transaction reaches the result
            assert forall|id: Seq<u8>|
                chain_has_tx(self@.client.blocks, stale@, id) && !chain_has_tx(
                    self@.client.blocks,
                    new_block@,
                    id,
                ) implies exists|w: int|
                    0 <= w < out@.len() && tx_id_of(#[trigger] out@[w]@) == id by {
                let v = choose|v: int|
                    0 <= v < stale_txs@.len() && tx_id_of(#[trigger] stale_txs@[v]@) == id;
                let w = choose|w: int|
                    0 <= w < out@.len() && tx_id_of(#[trigger] out@[w]@) == tx_id_of(
                        stale_txs@[v]@,
                    );
                assert(tx_id_of(out@[w]@) == id);
            }
        }
        out
    }

    /// Runs the proof search to completion and, when a proof turns up,
    /// submits the mined block to the owned chain state. If the chain then
    /// reaches at least the candidate's length, the miner cuts over: it
    /// starts a new search carrying forward every candidate-chain transaction
    /// the new chain has not settled. `Ok(None)` means the proof space was
    /// exhausted without a hit.
    pub fn find_proof(&mut self) -> (r: Result<Option<ReceiveOutcome>, MinerError>)
        requires
            old(self).wf(),
        ensures
            final(self).wf(),
            tip_len(old(self)@.client) <= tip_len(final(self)@.client),
            match r {
                Err(MinerError::NoCandidate) => old(self)@.current_block is None && final(self)@
                    == old(self)@,
                Err(MinerError::ChainTooLong) => old(self)@.current_block is Some && tip_len(
                    final(self)@.client,
                ) == u32::MAX as int,
                Err(MinerError::NoGenesis) => false,
                Ok(found) => old(self)@.current_block is Some && ({
                    let cand0 = old(self)@.current_block->Some_0@;
                    match found {
                        // the search exhausted the whole proof space: no
                        // proof at or above the starting one satisfies
                        None => final(self)@.client == old(self)@.client && final(self)@.pool
                            == old(self)@.pool && (final(self)@.current_block matches Some(c) && c@
                            == (BlockV { proof: u128::MAX, ..cand0 })) && (forall|p: u128|
                            cand0.proof <= p ==> !#[trigger] proof_attempt_ok(cand0, p)),
                        // a proof was found: the least satisfying one, and the
                        // mined block went through the owned chain state
                        Some(outcome) => outcome != ReceiveOutcome::InvalidProof && outcome
                            != ReceiveOutcome::UnknownParent && exists|p: u128|
                            #![trigger proof_attempt_ok(old(self)@.current_block->Some_0@, p)]
                            proof_attempt_ok(cand0, p) && cand0.proof <= p && ({
                                let mined = (BlockV { proof: p, ..cand0 });
                                &&& (forall|q: u128|
                                    cand0.proof <= q < p ==> !#[trigger] proof_attempt_ok(
                                        cand0,
                                        q,
                                    ))
                                &&& (outcome == ReceiveOutcome::Accepted ==> (stored_form(
                                    old(self)@.client.blocks,
                                    mined,
                                ) matches Some(st) && seq_get(
                                    final(self)@.client.blocks,
                                    block_id_of(st),
                                ) == Some(st) && tip_len(final(self)@.client) >= st.chain_length))
                                // the chain reached the candidate's length:
                                // cut over to a fresh candidate carrying every
                                // unsettled transaction forward
                                &&& (tip_len(final(self)@.client) >= cand0.chain_length ==> (
                                final(self)@.pool == Seq::<Transaction>::empty()
                                    && (final(self)@.current_block matches Some(c2) && exists|
                                    carry: Seq<Transaction>,
                                |
                                    #![trigger old(self)@.pool + carry]
                                    ({
                                        let tipb = seq_get(
                                            final(self)@.client.blocks,
                                            final(self)@.client.last_block->Some_0,
                                        )->Some_0;
                                        &&& carryover_ok(
                                            final(self)@.client.blocks,
                                            mined,
                                            tipb,
                                            carry,
                                        )
                                        &&& c2@ == fill_candidate(
                                            candidate_of(
                                                tipb,
                                                base64_of(old(self)@.client.pub_key),
                                            ),
                                            (old(self)@.pool + carry).map_values(
                                                |t: Transaction| t@,
                                            ),
                                        )
                                    }))))
                                // the submission was rejected and the chain
                                // did not reach the candidate: the mined block
                                // stays the current candidate
                                &&& (tip_len(final(self)@.client) < cand0.chain_length ==> (
                                final(self)@.pool == old(self)@.pool
                                    && (final(self)@.current_block matches Some(c2) && c2@
                                    == mined)))
                            }),
                    }
                }),
            },
    {
        let ghost m0 = self@;
        let mut cand = match self.current_block.take() {
            Some(b) => b,
            None => {
                return Err(MinerError::NoCandidate);
            },
        };
        let ghost cand0 = cand@;
        let found = cand.mine();
        if !found {
            proof {
                assert(cand@ == (BlockV { proof: u128::MAX, ..cand0 }));
            }
            self.current_block = Some(cand);
            proof {
                assert(miner_wf(self@));
            }
            return Ok(None);
        }
        // a proof was found: submit a copy, keep the candidate for carryover
        let ghost c_pre = self@.client;
        let ghost minedv = cand@;
        let ghost p_found = cand@.proof;
        proof {
            assert(minedv == (BlockV { proof: p_found, ..cand0 }));
            assert(proof_attempt_ok(cand0, p_found));
        }
        let outcome = self.client.receive_block(cand.duplicate());
        proof {
            // the mined block carries a valid proof and a stored parent, so
            // neither of those rejections can happen
            if outcome == ReceiveOutcome::InvalidProof {
                assert(pow_accepts(block_id_of(minedv), minedv.pow_target));
                assert(false);
            }
            if outcome == ReceiveOutcome::UnknownParent {
                assert(seq_get(c_pre.blocks, minedv.prev_block_hash) is Some);
                assert(false);
            }
            if outcome == ReceiveOutcome::Accepted {
                let st = stored_form(c_pre.blocks, minedv)->Some_0;
                let pv = seq_get(c_pre.blocks, minedv.prev_block_hash)->Some_0;
                if minedv.chain_length > 0 {
                    crate::block::lemma_apply_txs_header(
                        crate::block::reset_against(minedv, pv),
                        crate::block::sort_by_nonce(
                            crate::block::values_of(minedv.transactions),
                        ),
                    );
                }
                assert(st.chain_length == minedv.chain_length);
            }
        }
        // cut over when the chain reached at least the candidate's length
        let tip_now = self.client.tip_length();
        if tip_now >= cand.chain_length {
            proof {
                assert(tip_len(self@.client) >= 1);
                assert(self@.client.last_block is Some);
            }
            match self.client.last_block() {
                Some(tip_block) => {
                    proof {
                        // the tip block is stored, so its parent link is known
                        let h = self@.client.last_block->Some_0;
                        lemma_get_some_means_present(self@.client.blocks, h);
                        let w = choose|w: int|
                            0 <= w < self@.client.blocks.len() && self@.client.blocks[w].0 == h
                                && self@.client.blocks[w].1 == seq_get(self@.client.blocks, h)->Some_0;
                        assert(block_wf(self@.client.blocks[w].1));
                        if self@.client.blocks[w].1.chain_length > 0 {
                            assert(seq_has_key(
                                self@.client.blocks,
                                self@.client.blocks[w].1.prev_block_hash,
                            ));
                        }
                        // the stale candidate's parent is still stored
                        assert(seq_get(self@.client.blocks, cand@.prev_block_hash) == seq_get(
                            c_pre.blocks,
                            cand@.prev_block_hash,
                        ));
                    }
                    let ghost tipbv = tip_block@;
                    let carryover = self.sync_transactions(&cand, &tip_block);
                    let ghost carryv = carryover@;
                    proof {
                        assert(carryover_ok(self@.client.blocks, minedv, tipbv, carryv));
                    }
                    match self.start_new_search(Some(carryover)) {
                        Ok(()) => {},
                        Err(e) => {
                            proof {
                                assert(e != MinerError::NoGenesis);
                                assert(e != MinerError::NoCandidate);
                            }
                            return Err(e);
                        },
                    }
                    proof {
                        // the found proof witnesses the search's success, the
                        // collected carryover witnesses the cutover
                        assert(seq_get(
                            self@.client.blocks,
                            self@.client.last_block->Some_0,
                        )->Some_0 == tipbv);
                        assert(carryover_ok(self@.client.blocks, minedv, tipbv, carryv));
                        assert(self@.current_block matches Some(c2) && c2@ == fill_candidate(
                            candidate_of(tipbv, base64_of(m0.client.pub_key)),
                            (m0.pool + carryv).map_values(|t: Transaction| t@),
                        ));
                    }
                },
                None => {
                    proof {
                        assert(false);
                    }
                },
            }
        } else {
            self.current_block = Some(cand);
            proof {
                assert(seq_get(self@.client.blocks, cand0.prev_block_hash) == seq_get(
                    c_pre.blocks,
                    cand0.prev_block_hash,
                ));
                assert(miner_wf(self@));
            }
        }
        Ok(Some(outcome))
    }
}

} // verus!
