//! Blocks: immutable-once-mined containers holding a proof-of-work puzzle, a
//! map of included transactions, and a full ledger snapshot (balances and
//! next-expected nonces) as of the block. This module also carries the state
//! transition: per-transaction application and the from-scratch `rerun`.
use crate::bytemap::{
    bytes_eq, clone_bytes, get_or0, lemma_get_absent, lemma_insert_props, lemma_sum_insert,
    seq_has_key, seq_insert, sum_vals, unique_keys, ByteMap,
};
use crate::crypto::{base64_of, calc_address, hash, sha256_of};
use crate::transaction::{
    sig_valid_of, total_output_of, tx_enc, tx_id_of, Transaction, TxView,
};
use crate::{
    bytes_enc, calc_pow_target, push_bytes, push_u128, push_u16, push_u32, push_u64, u128_le,
    u16_le, u32_le, u64_le, Address,
};
use vstd::prelude::*;

verus! {

/// Why a transaction was not applied to a block. Each guard is checked in
/// order and any failure leaves the ledger state untouched.
#[derive(Clone, Copy, Debug, PartialEq, Eq, Structural)]
pub enum TxError {
    /// A transaction with the same identity hash is already included.
    DuplicateTransaction,
    /// The transaction carries no signature, one that does not validate, or
    /// a sender address that is not the one its public key derives to.
    MissingOrInvalidSignature,
    /// The sender's balance in this block is less than the total output.
    InsufficientFunds,
    /// The nonce is below the sender's next expected nonce.
    ReplayedNonce,
    /// The nonce is above the sender's next expected nonce.
    OutOfOrderNonce,
    /// Applying the transaction would push a balance or a nonce past the
    /// largest representable value. This guard sits outside the ledger's
    /// usual taxonomy: it exists only because balances and nonces are 128-bit
    /// machine words, and it is recoverable like the others.
    Overflow,
}

/// A block of the ledger. `balances` and `next_nonce` are full snapshots as
/// of this block, not deltas.
pub struct Block {
    pub reward_addr: Address,
    pub prev_block_hash: crate::Hash,
    pub pow_target: crate::Hash,
    pub proof: u128,
    pub coinbase_reward: u16,
    pub transactions: ByteMap<Transaction>,
    pub chain_length: u32,
    pub timestamp: u128,
    pub balances: ByteMap<u128>,
    pub next_nonce: ByteMap<u128>,
}

/// The mathematical value of a block.
#[verifier::ext_equal]
pub struct BlockV {
    pub reward_addr: Seq<u8>,
    pub prev_block_hash: Seq<u8>,
    pub pow_target: Seq<u8>,
    pub proof: u128,
    pub coinbase_reward: u16,
    pub transactions: Seq<(Seq<u8>, TxView)>,
    pub chain_length: u32,
    pub timestamp: u128,
    pub balances: Seq<(Seq<u8>, u128)>,
    pub next_nonce: Seq<(Seq<u8>, u128)>,
}

impl View for Block {
    type V = BlockV;

    open spec fn view(&self) -> BlockV {
        BlockV {
            reward_addr: self.reward_addr@,
            prev_block_hash: self.prev_block_hash@,
            pow_target: self.pow_target@,
            proof: self.proof,
            coinbase_reward: self.coinbase_reward,
            transactions: self.transactions@,
            chain_length: self.chain_length,
            timestamp: self.timestamp,
            balances: self.balances@,
            next_nonce: self.next_nonce@,
        }
    }
}

/// The maps of a block hold pairwise distinct keys, and every transaction is
/// stored under its own identity hash.
pub open spec fn block_wf(b: BlockV) -> bool {
    &&& unique_keys(b.transactions)
    &&& unique_keys(b.balances)
    &&& unique_keys(b.next_nonce)
    &&& forall|i: int|
        0 <= i < b.transactions.len() ==> #[trigger] b.transactions[i].0 == tx_id_of(
            b.transactions[i].1,
        )
}

/// The canonical encoding of a transaction including its signature, as it
/// enters a block's identity.
pub open spec fn tx_full_enc(t: TxView) -> Seq<u8> {
    tx_enc(t) + match t.sig {
        Some(s) => seq![1u8] + bytes_enc(s),
        None => seq![0u8],
    }
}

/// Strict lexicographic order on byte strings: a proper prefix comes first,
/// otherwise the first differing byte decides.
pub open spec fn lex_lt(a: Seq<u8>, b: Seq<u8>) -> bool
    decreases a.len(),
{
    if b.len() == 0 {
        false
    } else if a.len() == 0 {
        true
    } else if a[0] < b[0] {
        true
    } else if a[0] > b[0] {
        false
    } else {
        lex_lt(a.skip(1), b.skip(1))
    }
}

/// Inserts an entry after every entry whose key does not come later: the
/// insertion step of a stable sort by key.
pub open spec fn insert_by_key<W>(s: Seq<(Seq<u8>, W)>, e: (Seq<u8>, W)) -> Seq<(Seq<u8>, W)>
    decreases s.len(),
{
    if s.len() == 0 {
        seq![e]
    } else if lex_lt(e.0, s.last().0) {
        insert_by_key(s.drop_last(), e).push(s.last())
    } else {
        s.push(e)
    }
}

/// A stable sort of map entries by key: with unique keys, the result depends
/// only on which bindings the map holds, not on the order they were made in.
pub open spec fn sort_by_key<W>(s: Seq<(Seq<u8>, W)>) -> Seq<(Seq<u8>, W)>
    decreases s.len(),
{
    if s.len() == 0 {
        s
    } else {
        insert_by_key(sort_by_key(s.drop_last()), s.last())
    }
}

/// The canonical encoding of a block's transaction map.
pub open spec fn txmap_enc(s: Seq<(Seq<u8>, TxView)>) -> Seq<u8>
    decreases s.len(),
{
    if s.len() == 0 {
        Seq::empty()
    } else {
        txmap_enc(s.drop_last()) + bytes_enc(s.last().0) + tx_full_enc(s.last().1)
    }
}

/// The canonical encoding of a balance or nonce snapshot.
pub open spec fn snapshot_enc(s: Seq<(Seq<u8>, u128)>) -> Seq<u8>
    decreases s.len(),
{
    if s.len() == 0 {
        Seq::empty()
    } else {
        snapshot_enc(s.drop_last()) + bytes_enc(s.last().0) + u128_le(s.last().1)
    }
}

/// The canonical encoding of a block: every field in order, the proof
/// included, so that the identity changes as mining proceeds. The three maps
/// are encoded in lexicographic key order, so the encoding does not depend on
/// the order their bindings were made in.
#[verifier::opaque]
pub open spec fn block_enc(b: BlockV) -> Seq<u8> {
    bytes_enc(b.reward_addr) + bytes_enc(b.prev_block_hash) + bytes_enc(b.pow_target) + u128_le(
        b.proof,
    ) + u16_le(b.coinbase_reward) + u64_le(b.transactions.len() as u64) + txmap_enc(
        sort_by_key(b.transactions),
    ) + u32_le(b.chain_length) + u128_le(b.timestamp) + u64_le(b.balances.len() as u64)
        + snapshot_enc(sort_by_key(b.balances)) + u64_le(b.next_nonce.len() as u64) + snapshot_enc(
        sort_by_key(b.next_nonce),
    )
}

/// A block's identity: the digest of its canonical encoding, a pure function
/// of its fields.
pub open spec fn block_id_of(b: BlockV) -> Seq<u8> {
    sha256_of(block_enc(b))
}

/// The byte-by-byte proof-of-work scan from position `i`: a target byte above
/// `0x0f` accepts immediately, a hash byte above its target byte rejects,
/// otherwise the scan moves on; a hash scanned to its end is accepted.
pub open spec fn pow_scan(h: Seq<u8>, t: Seq<u8>, i: int) -> bool
    decreases h.len() - i,
{
    if i >= h.len() {
        true
    } else if i >= t.len() {
        false
    } else if t[i] > 0x0f {
        true
    } else if h[i] > t[i] {
        false
    } else {
        pow_scan(h, t, i + 1)
    }
}

/// Whether a hash satisfies a proof-of-work target.
pub open spec fn pow_accepts(h: Seq<u8>, t: Seq<u8>) -> bool {
    pow_scan(h, t, 0)
}

/// Whether setting the block's proof to `p` makes its identity hash satisfy
/// its own target: one attempt of the mining search.
pub open spec fn proof_attempt_ok(b: BlockV, p: u128) -> bool {
    pow_accepts(block_id_of(BlockV { proof: p, ..b }), b.pow_target)
}

/// The parent's snapshot with its own coinbase reward matured: the reward is
/// credited to the parent's reward address, saturating at the largest
/// representable balance.
pub open spec fn mature_balances(p: BlockV) -> Seq<(Seq<u8>, u128)> {
    let cur = get_or0(p.balances, p.reward_addr);
    let grown = if cur + p.coinbase_reward > u128::MAX {
        u128::MAX
    } else {
        (cur + p.coinbase_reward) as u128
    };
    seq_insert(p.balances, p.reward_addr, grown)
}

/// Credits each output in order, or `None` as soon as a credit would not fit.
pub open spec fn credit_outputs(
    bal: Seq<(Seq<u8>, u128)>,
    outs: Seq<(Seq<u8>, u128)>,
) -> Option<Seq<(Seq<u8>, u128)>>
    decreases outs.len(),
{
    if outs.len() == 0 {
        Some(bal)
    } else {
        match credit_outputs(bal, outs.drop_last()) {
            None => None,
            Some(b2) => {
                let cur = get_or0(b2, outs.last().0);
                if cur + outs.last().1 > u128::MAX {
                    None
                } else {
                    Some(seq_insert(b2, outs.last().0, (cur + outs.last().1) as u128))
                }
            },
        }
    }
}

/// The state transition of one transaction against a block: either the block
/// with the transaction applied, or the first guard it fails. A failing
/// transaction changes nothing. A usable transaction validates its signature
/// and names as sender exactly the address its public key derives to.
pub open spec fn tx_apply(b: BlockV, t: TxView) -> Result<BlockV, TxError> {
    let id = tx_id_of(t);
    let cur_nonce = get_or0(b.next_nonce, t.from);
    let cur_bal = get_or0(b.balances, t.from);
    if seq_has_key(b.transactions, id) {
        Err(TxError::DuplicateTransaction)
    } else if !sig_valid_of(t) || t.from != base64_of(t.pubkey) {
        Err(TxError::MissingOrInvalidSignature)
    } else if total_output_of(t) > cur_bal {
        Err(TxError::InsufficientFunds)
    } else if t.nonce < cur_nonce {
        Err(TxError::ReplayedNonce)
    } else if t.nonce > cur_nonce {
        Err(TxError::OutOfOrderNonce)
    } else if t.nonce == u128::MAX {
        Err(TxError::Overflow)
    } else {
        let debited = seq_insert(b.balances, t.from, (cur_bal - total_output_of(t)) as u128);
        match credit_outputs(debited, t.outputs) {
            None => Err(TxError::Overflow),
            Some(bal) => Ok(
                BlockV {
                    transactions: seq_insert(b.transactions, id, t),
                    balances: bal,
                    next_nonce: seq_insert(b.next_nonce, t.from, (t.nonce + 1) as u128),
                    ..b
                },
            ),
        }
    }
}

/// Crediting outputs preserves key uniqueness and, when it fits, grows the
/// balance sum by exactly the sum of the amounts.
pub proof fn lemma_credit_outputs_props(bal: Seq<(Seq<u8>, u128)>, outs: Seq<(Seq<u8>, u128)>)
    requires
        unique_keys(bal),
    ensures
        match credit_outputs(bal, outs) {
            Some(b2) => unique_keys(b2) && sum_vals(b2) == sum_vals(bal) + sum_vals(outs),
            None => true,
        },
    decreases outs.len(),
{
    if outs.len() > 0 {
        lemma_credit_outputs_props(bal, outs.drop_last());
        match credit_outputs(bal, outs.drop_last()) {
            None => {},
            Some(b2) => {
                let cur = get_or0(b2, outs.last().0);
                if cur + outs.last().1 <= u128::MAX {
                    lemma_insert_props(b2, outs.last().0, (cur + outs.last().1) as u128);
                    lemma_sum_insert(b2, outs.last().0, (cur + outs.last().1) as u128);
                }
            },
        }
    }
}

/// A successfully applied transaction preserves the maps' well-formedness and
/// shrinks the balance sum by exactly its fee: value is conserved, the fee is
/// debited but not re-credited.
pub proof fn lemma_tx_apply_conserves(b: BlockV, t: TxView)
    requires
        block_wf(b),
        tx_apply(b, t) is Ok,
    ensures
        block_wf(tx_apply(b, t)->Ok_0),
        sum_vals(tx_apply(b, t)->Ok_0.balances) == sum_vals(b.balances) - t.fee,
        tx_apply(b, t)->Ok_0.transactions.len() == b.transactions.len() + 1,
{
    let cur_bal = get_or0(b.balances, t.from);
    let cur_nonce = get_or0(b.next_nonce, t.from);
    assert(total_output_of(t) <= cur_bal) by {
        if seq_has_key(b.transactions, tx_id_of(t)) {
        } else if !sig_valid_of(t) || t.from != base64_of(t.pubkey) {
        } else if total_output_of(t) > cur_bal {
            assert(tx_apply(b, t) is Err);
        }
    }
    crate::transaction::lemma_sum_prefix(t.outputs, 0);
    assert(sum_vals(t.outputs) >= 0);
    let left = (cur_bal - total_output_of(t)) as u128;
    let debited = seq_insert(b.balances, t.from, left);
    lemma_insert_props(b.balances, t.from, left);
    lemma_sum_insert(b.balances, t.from, left);
    assert(sum_vals(debited) == sum_vals(b.balances) - total_output_of(t));
    lemma_credit_outputs_props(debited, t.outputs);
    match credit_outputs(debited, t.outputs) {
        Some(bal) => {
            assert(sum_vals(bal) == sum_vals(debited) + sum_vals(t.outputs));
            assert(total_output_of(t) == sum_vals(t.outputs) + t.fee);
            assert(sum_vals(bal) == sum_vals(b.balances) - t.fee);
        },
        None => {
            assert(false);
        },
    }
    lemma_insert_props(b.transactions, tx_id_of(t), t);
    lemma_insert_props(b.next_nonce, t.from, (t.nonce + 1) as u128);
    assert(!seq_has_key(b.transactions, tx_id_of(t)));
    let nt = seq_insert(b.transactions, tx_id_of(t), t);
    assert forall|i: int| 0 <= i < nt.len() implies #[trigger] nt[i].0 == tx_id_of(nt[i].1) by {
        if i < b.transactions.len() {
            assert(nt[i] == b.transactions[i]);
        } else {
            assert(nt[i] == (tx_id_of(t), t));
        }
    }
}

/// Copies a balance or nonce snapshot entry by entry.
pub(crate) fn dup_u128_map(m: &ByteMap<u128>) -> (r: ByteMap<u128>)
    requires
        m.wf(),
    ensures
        r@ == m@,
        r.wf(),
{
    let mut r: ByteMap<u128> = ByteMap::new();
    let n = m.len();
    let mut i: usize = 0;
    while i < n
        invariant
            i <= n,
            n == m@.len(),
            m.wf(),
            r.wf(),
            r@ =~= m@.subrange(0, i as int),
        decreases n - i,
    {
        let k = clone_bytes(m.key_at(i));
        let v = *m.val_at(i);
        proof {
            assert forall|j: int| 0 <= j < r@.len() implies r@[j].0 != k@ by {
                assert(r@[j] == m@[j]);
            }
            lemma_get_absent(r@, k@);
            lemma_insert_props(r@, k@, v);
        }
        r.insert(k, v);
        proof {
            assert(r@ =~= m@.subrange(0, i as int + 1));
        }
        i = i + 1;
    }
    proof {
        assert(m@.subrange(0, m@.len() as int) =~= m@);
    }
    r
}

/// The parent's balances with the parent's own coinbase reward matured.
pub(crate) fn reward_coinbase(prev_block: &Block) -> (r: ByteMap<u128>)
    requires
        prev_block.wf(),
    ensures
        r@ == mature_balances(prev_block@),
        r.wf(),
{
    let winner_balance = prev_block.balance_of(&prev_block.reward_addr);
    let mut balances = dup_u128_map(&prev_block.balances);
    let new_winner_balance = match winner_balance.checked_add(prev_block.coinbase_reward as u128) {
        Some(bal) => bal,
        None => u128::MAX,
    };
    proof {
        lemma_insert_props(balances@, prev_block@.reward_addr, new_winner_balance);
    }
    balances.insert(clone_bytes(&prev_block.reward_addr), new_winner_balance);
    balances
}

/// Compares two byte vectors in lexicographic order.
fn bytes_lt(a: &Vec<u8>, b: &Vec<u8>) -> (r: bool)
    ensures
        r == lex_lt(a@, b@),
{
    let mut i: usize = 0;
    proof {
        assert(a@.skip(0) =~= a@);
        assert(b@.skip(0) =~= b@);
    }
    while i < a.len() && i < b.len()
        invariant
            i <= a@.len(),
            i <= b@.len(),
            lex_lt(a@, b@) == lex_lt(a@.skip(i as int), b@.skip(i as int)),
        decreases a@.len() - i,
    {
        proof {
            assert(a@.skip(i as int)[0] == a@[i as int]);
            assert(b@.skip(i as int)[0] == b@[i as int]);
            assert(a@.skip(i as int).skip(1) =~= a@.skip(i as int + 1));
            assert(b@.skip(i as int).skip(1) =~= b@.skip(i as int + 1));
        }
        if a[i] < b[i] {
            return true;
        }
        if a[i] > b[i] {
            return false;
        }
        i = i + 1;
    }
    proof {
        assert(lex_lt(a@.skip(i as int), b@.skip(i as int)) == (a@.len() < b@.len()));
    }
    a.len() < b.len()
}

proof fn lemma_insert_by_key_at<W>(s: Seq<(Seq<u8>, W)>, e: (Seq<u8>, W), j: int)
    requires
        0 <= j <= s.len(),
        forall|k: int| j <= k < s.len() ==> lex_lt(e.0, s[k].0),
        j > 0 ==> !lex_lt(e.0, s[j - 1].0),
    ensures
        insert_by_key(s, e) == s.subrange(0, j).push(e) + s.subrange(j, s.len() as int),
    decreases s.len(),
{
    if j == s.len() {
        if s.len() == 0 {
            assert(insert_by_key(s, e) =~= s.subrange(0, j).push(e) + s.subrange(
                j,
                s.len() as int,
            ));
        } else {
            assert(!lex_lt(e.0, s.last().0));
            assert(insert_by_key(s, e) =~= s.subrange(0, j).push(e) + s.subrange(
                j,
                s.len() as int,
            ));
        }
    } else {
        assert(lex_lt(e.0, s[s.len() - 1].0));
        assert forall|k: int| j <= k < s.drop_last().len() implies lex_lt(
            e.0,
            s.drop_last()[k].0,
        ) by {
            assert(s.drop_last()[k] == s[k]);
        }
        if j > 0 {
            assert(s.drop_last()[j - 1] == s[j - 1]);
        }
        lemma_insert_by_key_at(s.drop_last(), e, j);
        assert(s.drop_last().subrange(0, j) =~= s.subrange(0, j));
        assert(insert_by_key(s, e) =~= s.subrange(0, j).push(e) + s.subrange(j, s.len() as int));
    }
}

/// Inserts a snapshot entry into a vector kept in key order.
fn insert_snapshot_entry(v: &mut Vec<(Vec<u8>, u128)>, k: Vec<u8>, val: u128)
    ensures
        final(v)@.map_values(|p: (Vec<u8>, u128)| (p.0@, p.1)) == insert_by_key(
            old(v)@.map_values(|p: (Vec<u8>, u128)| (p.0@, p.1)),
            (k@, val),
        ),
{
    let ghost s0 = v@.map_values(|p: (Vec<u8>, u128)| (p.0@, p.1));
    let mut j: usize = v.len();
    while j > 0 && bytes_lt(&k, &v[j - 1].0)
        invariant
            j <= v@.len(),
            v@.len() == s0.len(),
            v@.map_values(|p: (Vec<u8>, u128)| (p.0@, p.1)) == s0,
            forall|w: int| j <= w < s0.len() ==> lex_lt(k@, s0[w].0),
        decreases j,
    {
        j = j - 1;
    }
    v.insert(j, (k, val));
    proof {
        lemma_insert_by_key_at(s0, (k@, val), j as int);
        assert(v@.map_values(|p: (Vec<u8>, u128)| (p.0@, p.1)) =~= s0.subrange(0, j as int).push(
            (k@, val),
        ) + s0.subrange(j as int, s0.len() as int));
    }
}

/// Inserts a transaction entry into a vector kept in key order.
fn insert_tx_entry(v: &mut Vec<(Vec<u8>, Transaction)>, k: Vec<u8>, val: Transaction)
    ensures
        final(v)@.map_values(|p: (Vec<u8>, Transaction)| (p.0@, p.1@)) == insert_by_key(
            old(v)@.map_values(|p: (Vec<u8>, Transaction)| (p.0@, p.1@)),
            (k@, val@),
        ),
{
    let ghost s0 = v@.map_values(|p: (Vec<u8>, Transaction)| (p.0@, p.1@));
    let mut j: usize = v.len();
    while j > 0 && bytes_lt(&k, &v[j - 1].0)
        invariant
            j <= v@.len(),
            v@.len() == s0.len(),
            v@.map_values(|p: (Vec<u8>, Transaction)| (p.0@, p.1@)) == s0,
            forall|w: int| j <= w < s0.len() ==> lex_lt(k@, s0[w].0),
        decreases j,
    {
        j = j - 1;
    }
    v.insert(j, (k, val));
    proof {
        lemma_insert_by_key_at(s0, (k@, val@), j as int);
        assert(v@.map_values(|p: (Vec<u8>, Transaction)| (p.0@, p.1@)) =~= s0.subrange(
            0,
            j as int,
        ).push((k@, val@)) + s0.subrange(j as int, s0.len() as int));
    }
}

/// A snapshot's entries in lexicographic key order.
fn sorted_snapshot_entries(m: &ByteMap<u128>) -> (r: Vec<(Vec<u8>, u128)>)
    ensures
        r@.map_values(|p: (Vec<u8>, u128)| (p.0@, p.1)) == sort_by_key(m@),
{
    let mut r: Vec<(Vec<u8>, u128)> = Vec::new();
    let n = m.len();
    let mut i: usize = 0;
    while i < n
        invariant
            i <= n,
            n == m@.len(),
            r@.map_values(|p: (Vec<u8>, u128)| (p.0@, p.1)) == sort_by_key(
                m@.subrange(0, i as int),
            ),
        decreases n - i,
    {
        let ghost pre = m@.subrange(0, i as int);
        let ghost cur = m@.subrange(0, i as int + 1);
        proof {
            assert(cur.drop_last() =~= pre);
            assert(cur.last() == m@[i as int]);
        }
        insert_snapshot_entry(&mut r, clone_bytes(m.key_at(i)), *m.val_at(i));
        proof {
            assert((m@[i as int].0, m@[i as int].1) == m@[i as int]);
        }
        i = i + 1;
    }
    proof {
        assert(m@.subrange(0, n as int) =~= m@);
    }
    r
}

/// A transaction map's entries in lexicographic key order.
fn sorted_tx_entries(m: &ByteMap<Transaction>) -> (r: Vec<(Vec<u8>, Transaction)>)
    ensures
        r@.map_values(|p: (Vec<u8>, Transaction)| (p.0@, p.1@)) == sort_by_key(m@),
{
    let mut r: Vec<(Vec<u8>, Transaction)> = Vec::new();
    let n = m.len();
    let mut i: usize = 0;
    while i < n
        invariant
            i <= n,
            n == m@.len(),
            r@.map_values(|p: (Vec<u8>, Transaction)| (p.0@, p.1@)) == sort_by_key(
                m@.subrange(0, i as int),
            ),
        decreases n - i,
    {
        let ghost pre = m@.subrange(0, i as int);
        let ghost cur = m@.subrange(0, i as int + 1);
        proof {
            assert(cur.drop_last() =~= pre);
            assert(cur.last() == m@[i as int]);
        }
        insert_tx_entry(&mut r, clone_bytes(m.key_at(i)), m.val_at(i).duplicate());
        proof {
            assert((m@[i as int].0, m@[i as int].1) == m@[i as int]);
        }
        i = i + 1;
    }
    proof {
        assert(m@.subrange(0, n as int) =~= m@);
    }
    r
}

/// Appends one transaction's full encoding, signature included.
fn push_tx_full(out: &mut Vec<u8>, tx: &Transaction)
    ensures
        final(out)@ == old(out)@ + tx_full_enc(tx@),
{
    let enc = tx.serialize();
    let ghost mid = out@;
    let mut j: usize = 0;
    while j < enc.len()
        invariant
            j <= enc.len(),
            out@ =~= mid + enc@.subrange(0, j as int),
        decreases enc.len() - j,
    {
        out.push(enc[j]);
        j = j + 1;
    }
    proof {
        assert(out@ =~= mid + enc@);
    }
    match &tx.sig {
        Some(s) => {
            out.push(1u8);
            push_bytes(out, s);
        },
        None => {
            out.push(0u8);
        },
    }
    proof {
        assert(out@ =~= old(out)@ + tx_full_enc(tx@));
    }
}

/// Appends a transaction map's encoding: the entry count, then each key and
/// transaction in lexicographic key order.
fn push_txmap(out: &mut Vec<u8>, m: &ByteMap<Transaction>)
    ensures
        final(out)@ == old(out)@ + u64_le(m@.len() as u64) + txmap_enc(sort_by_key(m@)),
{
    push_u64(out, m.len() as u64);
    let entries = sorted_tx_entries(m);
    let ghost sv = sort_by_key(m@);
    let ghost head = out@;
    let n = entries.len();
    let mut i: usize = 0;
    while i < n
        invariant
            i <= n,
            n == entries@.len(),
            entries@.map_values(|p: (Vec<u8>, Transaction)| (p.0@, p.1@)) == sv,
            out@ =~= head + txmap_enc(sv.subrange(0, i as int)),
        decreases n - i,
    {
        let ghost pre = sv.subrange(0, i as int);
        let ghost cur = sv.subrange(0, i as int + 1);
        push_bytes(out, &entries[i].0);
        push_tx_full(out, &entries[i].1);
        proof {
            assert(cur.drop_last() =~= pre);
            assert(cur.last() == sv[i as int]);
            assert(sv[i as int] == (entries@[i as int].0@, entries@[i as int].1@));
            assert(out@ =~= head + txmap_enc(cur));
        }
        i = i + 1;
    }
    proof {
        assert(sv.subrange(0, sv.len() as int) =~= sv);
    }
}

/// Appends a balance or nonce snapshot's encoding: the entry count, then each
/// key and value in lexicographic key order.
fn push_snapshot(out: &mut Vec<u8>, m: &ByteMap<u128>)
    ensures
        final(out)@ == old(out)@ + u64_le(m@.len() as u64) + snapshot_enc(sort_by_key(m@)),
{
    push_u64(out, m.len() as u64);
    let entries = sorted_snapshot_entries(m);
    let ghost sv = sort_by_key(m@);
    let ghost head = out@;
    let n = entries.len();
    let mut i: usize = 0;
    while i < n
        invariant
            i <= n,
            n == entries@.len(),
            entries@.map_values(|p: (Vec<u8>, u128)| (p.0@, p.1)) == sv,
            out@ =~= head + snapshot_enc(sv.subrange(0, i as int)),
        decreases n - i,
    {
        let ghost pre = sv.subrange(0, i as int);
        let ghost cur = sv.subrange(0, i as int + 1);
        push_bytes(out, &entries[i].0);
        push_u128(out, entries[i].1);
        proof {
            assert(cur.drop_last() =~= pre);
            assert(cur.last() == sv[i as int]);
            assert(sv[i as int] == (entries@[i as int].0@, entries@[i as int].1));
            assert(out@ =~= head + snapshot_enc(cur));
        }
        i = i + 1;
    }
    proof {
        assert(sv.subrange(0, sv.len() as int) =~= sv);
    }
}

impl Block {
    /// The maps of the block hold pairwise distinct keys.
    pub open spec fn wf(&self) -> bool {
        block_wf(self@)
    }

    /// The recorded balance of an address in this block, zero for an address
    /// never seen.
    pub fn balance_of(&self, address: &Address) -> (r: u128)
        requires
            self.wf(),
        ensures
            r == get_or0(self@.balances, address@),
    {
        match self.balances.get(address) {
            Some(bal) => *bal,
            None => 0,
        }
    }

    /// The next nonce expected of an address in this block, zero for an
    /// address never seen.
    pub fn next_nonce_of(&self, address: &Address) -> (r: u128)
        requires
            self.wf(),
        ensures
            r == get_or0(self@.next_nonce, address@),
    {
        match self.next_nonce.get(address) {
            Some(n) => *n,
            None => 0,
        }
    }

    /// Whether this block includes the given transaction, by identity hash.
    pub fn contains(&self, tx: &Transaction) -> (r: bool)
        requires
            self.wf(),
        ensures
            r == seq_has_key(self@.transactions, tx_id_of(tx@)),
    {
        let id = tx.id();
        self.transactions.contains_key(&id.bytes)
    }

    /// The genesis block is the one of chain length zero.
    pub fn is_genesis(&self) -> (r: bool)
        ensures
            r == (self@.chain_length == 0),
    {
        self.chain_length == 0
    }

    /// The sum of the fees of all included transactions.
    pub fn total_rewards(&self) -> (r: u128)
        ensures
            r == sum_fees(self@.transactions),
    {
        let n = self.transactions.len();
        let mut total: u128 = 0;
        let mut i: usize = 0;
        while i < n
            invariant
                i <= n,
                n == self@.transactions.len(),
                total == sum_fees(self@.transactions.subrange(0, i as int)),
                total <= i * 0xffff_ffff,
            decreases n - i,
        {
            let ghost pre = self@.transactions.subrange(0, i as int);
            let ghost cur = self@.transactions.subrange(0, i as int + 1);
            proof {
                assert(cur.drop_last() =~= pre);
                assert(cur.last() == self@.transactions[i as int]);
                assert((i + 1) * 0xffff_ffff == i * 0xffff_ffff + 0xffff_ffff) by (nonlinear_arith);
                assert(i * 0xffff_ffff <= 0xffff_ffff_ffff_ffff * 0xffff_ffff) by (nonlinear_arith)
                    requires i <= 0xffff_ffff_ffff_ffff;
            }
            total = total + (self.transactions.val_at(i).fee as u128);
            i = i + 1;
        }
        proof {
            assert(self@.transactions.subrange(0, self@.transactions.len() as int)
                =~= self@.transactions);
        }
        total
    }

    /// The canonical encoding that the block's identity hash covers.
    pub fn serialize(&self) -> (r: Vec<u8>)
        ensures
            r@ == block_enc(self@),
    {
        let mut out: Vec<u8> = Vec::new();
        push_bytes(&mut out, &self.reward_addr);
        push_bytes(&mut out, &self.prev_block_hash.bytes);
        push_bytes(&mut out, &self.pow_target.bytes);
        push_u128(&mut out, self.proof);
        push_u16(&mut out, self.coinbase_reward);
        push_txmap(&mut out, &self.transactions);
        push_u32(&mut out, self.chain_length);
        push_u128(&mut out, self.timestamp);
        push_snapshot(&mut out, &self.balances);
        push_snapshot(&mut out, &self.next_nonce);
        proof {
            reveal(block_enc);
            assert(out@ =~= block_enc(self@));
        }
        out
    }

    /// The block's identity hash, a pure function of its fields.
    pub fn hash_val(&self) -> (r: crate::Hash)
        ensures
            r@ == block_id_of(self@),
            r@.len() == 32,
    {
        let enc = self.serialize();
        crate::Hash { bytes: hash(enc.as_slice()) }
    }

    /// Whether the block's identity hash satisfies its proof-of-work target.
    /// The genesis block is exempt from this check at reception.
    pub fn has_valid_proof(&self) -> (r: bool)
        ensures
            r == pow_accepts(block_id_of(self@), self@.pow_target),
    {
        let h = self.hash_val();
        let n = h.bytes.len();
        let mut i: usize = 0;
        while i < n
            invariant
                i <= n,
                n == h@.len(),
                h@ == block_id_of(self@),
                pow_scan(h@, self@.pow_target, 0) == pow_scan(h@, self@.pow_target, i as int),
            decreases n - i,
        {
            if i >= self.pow_target.bytes.len() {
                return false;
            }
            if self.pow_target.bytes[i] > 0x0f {
                return true;
            }
            if h.bytes[i] > self.pow_target.bytes[i] {
                return false;
            }
            i = i + 1;
        }
        true
    }

    /// Searches for a proof by counting `proof` upward until the identity
    /// hash satisfies the target; every other field stays as it was. `false`
    /// means the whole proof space was exhausted.
    pub fn mine(&mut self) -> (r: bool)
        ensures
            final(self)@ == (BlockV { proof: final(self)@.proof, ..old(self)@ }),
            old(self)@.proof <= final(self)@.proof,
            r == exists|p: u128| old(self)@.proof <= p && #[trigger] proof_attempt_ok(
                old(self)@,
                p,
            ),
            r ==> pow_accepts(block_id_of(final(self)@), final(self)@.pow_target),
            // the found proof is the least satisfying value at or above the
            // starting one
            forall|q: u128|
                old(self)@.proof <= q < final(self)@.proof ==> !#[trigger] proof_attempt_ok(
                    old(self)@,
                    q,
                ),
            // a failed search exhausted the whole proof space
            !r ==> final(self)@.proof == u128::MAX && !pow_accepts(
                block_id_of(final(self)@),
                final(self)@.pow_target,
            ),
    {
        loop
            invariant
                self@ == (BlockV { proof: self@.proof, ..old(self)@ }),
                old(self)@.proof <= self@.proof,
                forall|q: u128|
                    old(self)@.proof <= q < self@.proof ==> !#[trigger] proof_attempt_ok(
                        old(self)@,
                        q,
                    ),
            decreases u128::MAX - self.proof,
        {
            let ghost cur = self@.proof;
            if self.has_valid_proof() {
                proof {
                    assert(self@ == (BlockV { proof: cur, ..old(self)@ }));
                    assert(proof_attempt_ok(old(self)@, cur));
                }
                return true;
            }
            proof {
                assert((BlockV { proof: cur, ..old(self)@ }) == self@);
                assert(!proof_attempt_ok(old(self)@, cur));
            }
            if self.proof == u128::MAX {
                proof {
                    assert forall|p: u128| old(self)@.proof <= p implies !proof_attempt_ok(
                        old(self)@,
                        p,
                    ) by {
                        if p == u128::MAX {
                            assert((BlockV { proof: p, ..old(self)@ }) == self@);
                        }
                    }
                }
                return false;
            }
            self.proof = self.proof + 1;
        }
    }
}

/// The sum of the fees of a transaction map's entries.
pub open spec fn sum_fees(s: Seq<(Seq<u8>, TxView)>) -> int
    decreases s.len(),
{
    if s.len() == 0 {
        0
    } else {
        sum_fees(s.drop_last()) + s.last().1.fee
    }
}

/// The views of a sequence of transactions.
pub open spec fn txs_views(s: Seq<Transaction>) -> Seq<TxView> {
    s.map_values(|t: Transaction| t@)
}

/// The transactions a map holds, in stored order.
pub open spec fn values_of(s: Seq<(Seq<u8>, TxView)>) -> Seq<TxView> {
    s.map_values(|p: (Seq<u8>, TxView)| p.1)
}

/// Inserts a transaction after every element whose nonce does not exceed its
/// own: the insertion step of a stable sort by nonce.
pub open spec fn insert_by_nonce(s: Seq<TxView>, t: TxView) -> Seq<TxView>
    decreases s.len(),
{
    if s.len() == 0 {
        seq![t]
    } else if t.nonce < s.last().nonce {
        insert_by_nonce(s.drop_last(), t).push(s.last())
    } else {
        s.push(t)
    }
}

/// A stable sort by nonce: ties keep their stored order, so the result is a
/// function of the input sequence alone.
pub open spec fn sort_by_nonce(s: Seq<TxView>) -> Seq<TxView>
    decreases s.len(),
{
    if s.len() == 0 {
        s
    } else {
        insert_by_nonce(sort_by_nonce(s.drop_last()), s.last())
    }
}

/// Applies transactions left to right, stopping at the first failure.
pub open spec fn apply_txs(b: BlockV, ts: Seq<TxView>) -> Result<BlockV, TxError>
    decreases ts.len(),
{
    if ts.len() == 0 {
        Ok(b)
    } else {
        match apply_txs(b, ts.drop_last()) {
            Err(e) => Err(e),
            Ok(b2) => tx_apply(b2, ts.last()),
        }
    }
}

/// A block reset against a parent: transactions cleared, balances matured
/// from the parent, nonces the parent's.
pub open spec fn reset_against(b: BlockV, p: BlockV) -> BlockV {
    BlockV { transactions: Seq::empty(), balances: mature_balances(p), next_nonce: p.next_nonce, ..b }
}

/// The from-scratch state of a block against a parent: its previously held
/// transactions, sorted by nonce, re-applied to the parent's matured
/// snapshot; or the first failure.
pub open spec fn rerun_spec(b: BlockV, p: BlockV) -> Result<BlockV, TxError> {
    apply_txs(reset_against(b, p), sort_by_nonce(values_of(b.transactions)))
}

/// Applying transactions never changes a block's header fields: only the
/// transaction map and the two snapshots move.
pub proof fn lemma_apply_txs_header(b: BlockV, ts: Seq<TxView>)
    requires
        apply_txs(b, ts) is Ok,
    ensures
        apply_txs(b, ts)->Ok_0 == (BlockV {
            transactions: apply_txs(b, ts)->Ok_0.transactions,
            balances: apply_txs(b, ts)->Ok_0.balances,
            next_nonce: apply_txs(b, ts)->Ok_0.next_nonce,
            ..b
        }),
    decreases ts.len(),
{
    if ts.len() > 0 {
        lemma_apply_txs_header(b, ts.drop_last());
    }
}

/// Applying a well-formed block's transactions keeps its maps well-formed.
pub proof fn lemma_apply_txs_wf(b: BlockV, ts: Seq<TxView>)
    requires
        block_wf(b),
        apply_txs(b, ts) is Ok,
    ensures
        block_wf(apply_txs(b, ts)->Ok_0),
    decreases ts.len(),
{
    if ts.len() > 0 {
        lemma_apply_txs_wf(b, ts.drop_last());
        lemma_tx_apply_conserves(apply_txs(b, ts.drop_last())->Ok_0, ts.last());
    }
}

/// Once a prefix of the transaction sequence fails, every longer prefix fails
/// the same way.
pub proof fn lemma_apply_txs_err_persists(b: BlockV, ts: Seq<TxView>, j: int, j2: int)
    requires
        0 <= j <= j2 <= ts.len(),
        apply_txs(b, ts.subrange(0, j)) is Err,
    ensures
        apply_txs(b, ts.subrange(0, j2)) == apply_txs(b, ts.subrange(0, j)),
    decreases j2 - j,
{
    if j2 > j {
        lemma_apply_txs_err_persists(b, ts, j, j2 - 1);
        assert(ts.subrange(0, j2).drop_last() =~= ts.subrange(0, j2 - 1));
    }
}

/// The value a snapshot holds under a key, or zero.
pub(crate) fn snapshot_get_or0(m: &ByteMap<u128>, k: &Vec<u8>) -> (r: u128)
    requires
        m.wf(),
    ensures
        r == get_or0(m@, k@),
{
    match m.get(k) {
        Some(v) => *v,
        None => 0,
    }
}

/// Inserts a transaction into a nonce-sorted vector, after every element
/// whose nonce does not exceed its own.
fn insert_sorted(v: &mut Vec<Transaction>, t: Transaction)
    ensures
        txs_views(final(v)@) == insert_by_nonce(txs_views(old(v)@), t@),
{
    let ghost s0 = txs_views(v@);
    let mut j: usize = v.len();
    while j > 0 && t.nonce < v[j - 1].nonce
        invariant
            j <= v@.len(),
            forall|k: int| j <= k < v@.len() ==> t@.nonce < s0[k].nonce,
            v@.len() == s0.len(),
            txs_views(v@) == s0,
        decreases j,
    {
        j = j - 1;
    }
    v.insert(j, t);
    proof {
        lemma_insert_by_nonce_at(s0, t@, j as int);
        assert(txs_views(v@) =~= s0.subrange(0, j as int).push(t@) + s0.subrange(
            j as int,
            s0.len() as int,
        ));
    }
}

proof fn lemma_insert_by_nonce_at(s: Seq<TxView>, t: TxView, j: int)
    requires
        0 <= j <= s.len(),
        forall|k: int| j <= k < s.len() ==> t.nonce < s[k].nonce,
        j > 0 ==> !(t.nonce < s[j - 1].nonce),
    ensures
        insert_by_nonce(s, t) == s.subrange(0, j).push(t) + s.subrange(j, s.len() as int),
    decreases s.len(),
{
    if j == s.len() {
        if s.len() == 0 {
            assert(insert_by_nonce(s, t) =~= s.subrange(0, j).push(t) + s.subrange(
                j,
                s.len() as int,
            ));
        } else {
            assert(!(t.nonce < s.last().nonce));
            assert(insert_by_nonce(s, t) =~= s.subrange(0, j).push(t) + s.subrange(
                j,
                s.len() as int,
            ));
        }
    } else {
        assert(t.nonce < s[s.len() - 1].nonce);
        assert forall|k: int| j <= k < s.drop_last().len() implies t.nonce
            < s.drop_last()[k].nonce by {
            assert(s.drop_last()[k] == s[k]);
        }
        if j > 0 {
            assert(s.drop_last()[j - 1] == s[j - 1]);
        }
        lemma_insert_by_nonce_at(s.drop_last(), t, j);
        assert(s.drop_last().subrange(0, j) =~= s.subrange(0, j));
        assert(insert_by_nonce(s, t) =~= s.subrange(0, j).push(t) + s.subrange(j, s.len() as int));
    }
}

impl Block {
    /// Builds a block on a parent: the parent's matured snapshot, an empty
    /// transaction map, and a chain one longer.
    pub fn new(reward_addr: Address, coinbase_reward: u16, prev_block: &Block) -> (r: Block)
        requires
            prev_block.wf(),
            prev_block@.chain_length < u32::MAX,
        ensures
            r.wf(),
            r@.reward_addr == reward_addr@,
            r@.prev_block_hash == block_id_of(prev_block@),
            r@.pow_target.len() == 32,
            forall|i: int|
                0 <= i < 32 ==> r@.pow_target[i] == crate::pow_target_byte(
                    crate::POW_LEADING_ZEROS as nat,
                    i as nat,
                ),
            r@.proof == 0,
            r@.coinbase_reward == coinbase_reward,
            r@.transactions == Seq::<(Seq<u8>, TxView)>::empty(),
            r@.chain_length == prev_block@.chain_length + 1,
            r@.timestamp == 0,
            r@.balances == mature_balances(prev_block@),
            r@.next_nonce == prev_block@.next_nonce,
    {
        Block {
            reward_addr,
            prev_block_hash: prev_block.hash_val(),
            pow_target: calc_pow_target(),
            proof: 0,
            coinbase_reward,
            transactions: ByteMap::new(),
            chain_length: prev_block.chain_length + 1,
            timestamp: 0,
            balances: reward_coinbase(prev_block),
            next_nonce: dup_u128_map(&prev_block.next_nonce),
        }
    }

    /// Applies one transaction to this block's ledger state: exactly the
    /// transition `tx_apply` describes. A rejected transaction leaves the
    /// block untouched and the error says which guard it failed.
    pub fn add_transaction(&mut self, tx: Transaction) -> (r: Result<(), TxError>)
        requires
            old(self).wf(),
        ensures
            final(self).wf(),
            match r {
                Ok(()) => tx_apply(old(self)@, tx@) == Ok::<BlockV, TxError>(final(self)@),
                Err(e) => final(self)@ == old(self)@ && tx_apply(old(self)@, tx@) == Err::<
                    BlockV,
                    TxError,
                >(e),
            },
    {
        let ghost b0 = self@;
        let ghost txv = tx@;
        let id = tx.id();
        if self.transactions.contains_key(&id.bytes) {
            return Err(TxError::DuplicateTransaction);
        }
        if !tx.valid_signature() {
            return Err(TxError::MissingOrInvalidSignature);
        }
        // the sender must be the address its own public key derives to
        let derived = calc_address(tx.pubkey_bytes.as_slice());
        if !bytes_eq(&tx.from, &derived) {
            return Err(TxError::MissingOrInvalidSignature);
        }
        let bal_from = self.balance_of(&tx.from);
        let total = match tx.total_output_checked() {
            Some(t) => t,
            None => {
                return Err(TxError::InsufficientFunds);
            },
        };
        if total > bal_from {
            return Err(TxError::InsufficientFunds);
        }
        let cur_nonce = self.next_nonce_of(&tx.from);
        if tx.nonce < cur_nonce {
            return Err(TxError::ReplayedNonce);
        }
        if tx.nonce > cur_nonce {
            return Err(TxError::OutOfOrderNonce);
        }
        if tx.nonce == u128::MAX {
            return Err(TxError::Overflow);
        }
        let mut bal = dup_u128_map(&self.balances);
        proof {
            lemma_insert_props(bal@, txv.from, (bal_from - total) as u128);
        }
        bal.insert(clone_bytes(&tx.from), bal_from - total);
        let ghost debited = seq_insert(b0.balances, txv.from, (bal_from - total) as u128);
        let n = tx.outputs.len();
        let mut i: usize = 0;
        while i < n
            invariant
                i <= n,
                n == txv.outputs.len(),
                bal.wf(),
                credit_outputs(debited, txv.outputs.subrange(0, i as int)) == Some(bal@),
            decreases n - i,
        {
            let ghost pre = txv.outputs.subrange(0, i as int);
            let ghost cur = txv.outputs.subrange(0, i as int + 1);
            proof {
                assert(cur.drop_last() =~= pre);
                assert(cur.last() == txv.outputs[i as int]);
            }
            let cur_amt = snapshot_get_or0(&bal, &tx.outputs[i].0);
            match cur_amt.checked_add(tx.outputs[i].1) {
                None => {
                    proof {
                        assert(credit_outputs(debited, cur) is None);
                        lemma_credit_none_persists(debited, txv.outputs, i as int + 1);
                    }
                    return Err(TxError::Overflow);
                },
                Some(nb) => {
                    proof {
                        lemma_insert_props(bal@, txv.outputs[i as int].0, nb);
                    }
                    bal.insert(clone_bytes(&tx.outputs[i].0), nb);
                },
            }
            i = i + 1;
        }
        proof {
            assert(txv.outputs.subrange(0, txv.outputs.len() as int) =~= txv.outputs);
        }
        self.balances = bal;
        let nn = clone_bytes(&tx.from);
        self.next_nonce.insert(nn, tx.nonce + 1);
        self.transactions.insert(id.bytes, tx);
        proof {
            lemma_tx_apply_conserves(b0, txv);
            assert(self@ =~= tx_apply(b0, txv)->Ok_0);
        }
        Ok(())
    }

    /// Recomputes this block's ledger state from scratch against a parent:
    /// snapshots reset to the parent's matured state, the held transactions
    /// sorted by nonce and re-applied one at a time. A failure means the
    /// block cannot be reconciled against that parent and must not be
    /// adopted.
    pub fn rerun(&mut self, prev_block: &Block) -> (r: Result<(), TxError>)
        requires
            old(self).wf(),
            prev_block.wf(),
        ensures
            final(self).wf(),
            match r {
                Ok(()) => rerun_spec(old(self)@, prev_block@) == Ok::<BlockV, TxError>(
                    final(self)@,
                ),
                Err(e) => rerun_spec(old(self)@, prev_block@) == Err::<BlockV, TxError>(e),
            },
    {
        let ghost b0 = self@;
        // collect the held transactions in stored order
        let mut txs: Vec<Transaction> = Vec::new();
        let ntx = self.transactions.len();
        let mut i: usize = 0;
        while i < ntx
            invariant
                i <= ntx,
                ntx == b0.transactions.len(),
                self@ == b0,
                txs_views(txs@) =~= values_of(b0.transactions.subrange(0, i as int)),
            decreases ntx - i,
        {
            let ghost t0 = txs@;
            txs.push(self.transactions.val_at(i).duplicate());
            proof {
                let new = txs_views(txs@);
                let tgt = values_of(b0.transactions.subrange(0, i as int + 1));
                assert forall|j: int| 0 <= j < new.len() implies new[j] == tgt[j] by {
                    if j < i as int {
                        assert(txs@[j] == t0[j]);
                        assert(txs_views(t0)[j] == values_of(
                            b0.transactions.subrange(0, i as int),
                        )[j]);
                    } else {
                        assert(txs@[j]@ == b0.transactions[j].1);
                    }
                }
                assert(new =~= tgt);
            }
            i = i + 1;
        }
        proof {
            assert(b0.transactions.subrange(0, ntx as int) =~= b0.transactions);
        }
        // sort them by nonce, stably
        let mut sorted: Vec<Transaction> = Vec::new();
        let mut i2: usize = 0;
        while i2 < txs.len()
            invariant
                i2 <= txs@.len(),
                self@ == b0,
                txs_views(txs@) == values_of(b0.transactions),
                txs_views(sorted@) == sort_by_nonce(txs_views(txs@).subrange(0, i2 as int)),
            decreases txs@.len() - i2,
        {
            let ghost pre = txs_views(txs@).subrange(0, i2 as int);
            let ghost cur = txs_views(txs@).subrange(0, i2 as int + 1);
            proof {
                assert(cur.drop_last() =~= pre);
                assert(cur.last() == txs_views(txs@)[i2 as int]);
            }
            insert_sorted(&mut sorted, txs[i2].duplicate());
            i2 = i2 + 1;
        }
        proof {
            assert(txs_views(txs@).subrange(0, txs@.len() as int) =~= txs_views(txs@));
        }
        // reset to the parent's matured snapshot
        self.balances = reward_coinbase(prev_block);
        self.next_nonce = dup_u128_map(&prev_block.next_nonce);
        self.transactions = ByteMap::new();
        proof {
            assert(self@ =~= reset_against(b0, prev_block@));
        }
        let ghost base = reset_against(b0, prev_block@);
        let ghost order = sort_by_nonce(values_of(b0.transactions));
        // re-apply in nonce order
        let mut i3: usize = 0;
        while i3 < sorted.len()
            invariant
                i3 <= sorted@.len(),
                self.wf(),
                txs_views(sorted@) == order,
                apply_txs(base, order.subrange(0, i3 as int)) == Ok::<BlockV, TxError>(self@),
            decreases sorted@.len() - i3,
        {
            let ghost pre = order.subrange(0, i3 as int);
            let ghost cur = order.subrange(0, i3 as int + 1);
            proof {
                assert(cur.drop_last() =~= pre);
                assert(cur.last() == order[i3 as int]);
            }
            match self.add_transaction(sorted[i3].duplicate()) {
                Ok(()) => {},
                Err(e) => {
                    proof {
                        assert(apply_txs(base, cur) == Err::<BlockV, TxError>(e));
                        lemma_apply_txs_err_persists(base, order, i3 as int + 1, order.len() as int);
                        assert(order.subrange(0, order.len() as int) =~= order);
                    }
                    return Err(e);
                },
            }
            i3 = i3 + 1;
        }
        proof {
            assert(order.subrange(0, order.len() as int) =~= order);
        }
        Ok(())
    }

    /// A deep copy with the same mathematical value.
    pub fn duplicate(&self) -> (r: Block)
        requires
            self.wf(),
        ensures
            r@ == self@,
            r.wf(),
    {
        let r = Block {
            reward_addr: clone_bytes(&self.reward_addr),
            prev_block_hash: crate::Hash { bytes: clone_bytes(&self.prev_block_hash.bytes) },
            pow_target: crate::Hash { bytes: clone_bytes(&self.pow_target.bytes) },
            proof: self.proof,
            coinbase_reward: self.coinbase_reward,
            transactions: dup_tx_map(&self.transactions),
            chain_length: self.chain_length,
            timestamp: self.timestamp,
            balances: dup_u128_map(&self.balances),
            next_nonce: dup_u128_map(&self.next_nonce),
        };
        proof {
            assert(r@ =~= self@);
        }
        r
    }
}

/// Once a credit fails to fit, every longer output prefix fails too.
proof fn lemma_credit_none_persists(bal: Seq<(Seq<u8>, u128)>, outs: Seq<(Seq<u8>, u128)>, j: int)
    requires
        0 <= j <= outs.len(),
        credit_outputs(bal, outs.subrange(0, j)) is None,
    ensures
        credit_outputs(bal, outs) is None,
    decreases outs.len() - j,
{
    if j < outs.len() {
        assert(outs.subrange(0, j + 1).drop_last() =~= outs.subrange(0, j));
        lemma_credit_none_persists(bal, outs, j + 1);
    } else {
        assert(outs.subrange(0, j) =~= outs);
    }
}

/// Copies a transaction map entry by entry.
pub(crate) fn dup_tx_map(m: &ByteMap<Transaction>) -> (r: ByteMap<Transaction>)
    requires
        m.wf(),
    ensures
        r@ == m@,
        r.wf(),
{
    let mut r: ByteMap<Transaction> = ByteMap::new();
    let n = m.len();
    let mut i: usize = 0;
    while i < n
        invariant
            i <= n,
            n == m@.len(),
            m.wf(),
            r.wf(),
            r@ =~= m@.subrange(0, i as int),
        decreases n - i,
    {
        let k = clone_bytes(m.key_at(i));
        let v = m.val_at(i).duplicate();
        proof {
            assert forall|j: int| 0 <= j < r@.len() implies r@[j].0 != k@ by {
                assert(r@[j] == m@[j]);
            }
            lemma_get_absent(r@, k@);
            lemma_insert_props(r@, k@, v@);
        }
        r.insert(k, v);
        proof {
            assert(r@ =~= m@.subrange(0, i as int + 1));
        }
        i = i + 1;
    }
    proof {
        assert(m@.subrange(0, m@.len() as int) =~= m@);
    }
    r
}

} // verus!
