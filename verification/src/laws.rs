//! The ledger's global laws, each proved once and for all over the state
//! transition: value conservation, the identity hash's coverage of the
//! proof, idempotence of the from-scratch rerun, and per-sender nonce
//! monotonicity.
use crate::block::{
    apply_txs, block_enc, block_wf, insert_by_key, insert_by_nonce, lemma_apply_txs_err_persists,
    lemma_apply_txs_header, lemma_apply_txs_wf, lemma_tx_apply_conserves, lex_lt, mature_balances,
    pow_accepts, pow_scan, reset_against, rerun_spec, sort_by_key, sort_by_nonce, tx_apply,
    values_of, BlockV,
};
use crate::bytemap::{
    get_or0, lemma_get_absent, lemma_get_some_means_present, lemma_insert_props, lemma_sum_insert,
    seq_get, seq_has_key, sum_vals, unique_keys,
};
use crate::transaction::{tx_id_of, TxView};
use crate::{bytes_enc, pow_target_byte, u128_le};
use vstd::prelude::*;

verus! {

/// The sum of the fees a transaction sequence carries.
pub open spec fn fees_of(ts: Seq<TxView>) -> int
    decreases ts.len(),
{
    if ts.len() == 0 {
        0
    } else {
        fees_of(ts.drop_last()) + ts.last().fee
    }
}

/// Value conservation: applying any sequence of valid transactions to a
/// block shrinks the sum of all balances by exactly the fees collected —
/// fees are debited from senders and re-credited to nobody, and everything
/// else moves between accounts.
pub proof fn theorem_value_conservation(b: BlockV, ts: Seq<TxView>)
    requires
        block_wf(b),
        apply_txs(b, ts) is Ok,
    ensures
        block_wf(apply_txs(b, ts)->Ok_0),
        sum_vals(apply_txs(b, ts)->Ok_0.balances) == sum_vals(b.balances) - fees_of(ts),
    decreases ts.len(),
{
    if ts.len() > 0 {
        theorem_value_conservation(b, ts.drop_last());
        lemma_tx_apply_conserves(apply_txs(b, ts.drop_last())->Ok_0, ts.last());
    }
}

/// Maturing a coinbase reward is the only growth of total ledger value: the
/// sum of all balances rises by exactly the parent's reward, clipped where
/// the winner's balance would no longer fit.
pub proof fn theorem_coinbase_maturation(p: BlockV)
    requires
        block_wf(p),
    ensures
        sum_vals(mature_balances(p)) == sum_vals(p.balances) + (if get_or0(
            p.balances,
            p.reward_addr,
        ) + p.coinbase_reward > u128::MAX {
            u128::MAX - get_or0(p.balances, p.reward_addr)
        } else {
            p.coinbase_reward as int
        }),
{
    let cur = get_or0(p.balances, p.reward_addr);
    let grown = if cur + p.coinbase_reward > u128::MAX {
        u128::MAX
    } else {
        (cur + p.coinbase_reward) as u128
    };
    lemma_sum_insert(p.balances, p.reward_addr, grown);
}

/// The identity hash covers the proof: two blocks that agree on every field
/// but the proof have different canonical encodings, so the digest is taken
/// over different bytes.
pub proof fn theorem_identity_covers_proof(a: BlockV, b: BlockV)
    requires
        b == (BlockV { proof: b.proof, ..a }),
        a.proof != b.proof,
    ensures
        block_enc(a) != block_enc(b),
{
    reveal(block_enc);
    let x = a.proof;
    let y = b.proof;
    let head = bytes_enc(a.reward_addr) + bytes_enc(a.prev_block_hash) + bytes_enc(a.pow_target);
    if block_enc(a) == block_enc(b) {
        assert forall|d: int| 0 <= d < 16 implies u128_le(x)[d] == u128_le(y)[d] by {
            let pos = head.len() + d;
            assert(block_enc(a)[pos] == u128_le(x)[d]);
            assert(block_enc(b)[pos] == u128_le(y)[d]);
        }
        assert(u128_le(x)[0] == x as u8 && u128_le(y)[0] == y as u8);
        assert(u128_le(x)[1] == (x >> 8) as u8 && u128_le(y)[1] == (y >> 8) as u8);
        assert(u128_le(x)[2] == (x >> 16) as u8 && u128_le(y)[2] == (y >> 16) as u8);
        assert(u128_le(x)[3] == (x >> 24) as u8 && u128_le(y)[3] == (y >> 24) as u8);
        assert(u128_le(x)[4] == (x >> 32) as u8 && u128_le(y)[4] == (y >> 32) as u8);
        assert(u128_le(x)[5] == (x >> 40) as u8 && u128_le(y)[5] == (y >> 40) as u8);
        assert(u128_le(x)[6] == (x >> 48) as u8 && u128_le(y)[6] == (y >> 48) as u8);
        assert(u128_le(x)[7] == (x >> 56) as u8 && u128_le(y)[7] == (y >> 56) as u8);
        assert(u128_le(x)[8] == (x >> 64) as u8 && u128_le(y)[8] == (y >> 64) as u8);
        assert(u128_le(x)[9] == (x >> 72) as u8 && u128_le(y)[9] == (y >> 72) as u8);
        assert(u128_le(x)[10] == (x >> 80) as u8 && u128_le(y)[10] == (y >> 80) as u8);
        assert(u128_le(x)[11] == (x >> 88) as u8 && u128_le(y)[11] == (y >> 88) as u8);
        assert(u128_le(x)[12] == (x >> 96) as u8 && u128_le(y)[12] == (y >> 96) as u8);
        assert(u128_le(x)[13] == (x >> 104) as u8 && u128_le(y)[13] == (y >> 104) as u8);
        assert(u128_le(x)[14] == (x >> 112) as u8 && u128_le(y)[14] == (y >> 112) as u8);
        assert(u128_le(x)[15] == (x >> 120) as u8 && u128_le(y)[15] == (y >> 120) as u8);
        assert(x == y) by (bit_vector)
            requires
                x as u8 == y as u8,
                (x >> 8) as u8 == (y >> 8) as u8,
                (x >> 16) as u8 == (y >> 16) as u8,
                (x >> 24) as u8 == (y >> 24) as u8,
                (x >> 32) as u8 == (y >> 32) as u8,
                (x >> 40) as u8 == (y >> 40) as u8,
                (x >> 48) as u8 == (y >> 48) as u8,
                (x >> 56) as u8 == (y >> 56) as u8,
                (x >> 64) as u8 == (y >> 64) as u8,
                (x >> 72) as u8 == (y >> 72) as u8,
                (x >> 80) as u8 == (y >> 80) as u8,
                (x >> 88) as u8 == (y >> 88) as u8,
                (x >> 96) as u8 == (y >> 96) as u8,
                (x >> 104) as u8 == (y >> 104) as u8,
                (x >> 112) as u8 == (y >> 112) as u8,
                (x >> 120) as u8 == (y >> 120) as u8,
        ;
        assert(false);
    }
}

proof fn lemma_pow_scan_nibbles(h: Seq<u8>, t: Seq<u8>, n: nat, k: int)
    requires
        h.len() == 32,
        t.len() == 32,
        n < 64,
        forall|i: int| 0 <= i < 32 ==> t[i] == pow_target_byte(n, i as nat),
        0 <= k <= n / 2,
    ensures
        pow_scan(h, t, k) <==> ((forall|i: int| k <= i < n / 2 ==> h[i] == 0) && (n % 2 == 1
            ==> h[n as int / 2] <= 0x0f)),
    decreases n / 2 - k,
{
    if k == n as int / 2 {
        if n % 2 == 1 {
            assert(t[k] == 0x0f);
            if h[k] <= 0x0f {
                if k + 1 < 32 {
                    assert(t[k + 1] == 0xff);
                }
                assert(pow_scan(h, t, k + 1));
            }
        } else {
            assert(t[k] == 0xff);
        }
    } else {
        assert(t[k] == 0x00);
        lemma_pow_scan_nibbles(h, t, n, k + 1);
    }
}

/// The byte-by-byte scan accepts exactly the hashes whose first `n` nibbles
/// are zero: every byte among the first `n / 2` is zero and, for odd `n`,
/// the following byte's high nibble is zero too.
pub proof fn theorem_pow_leading_nibbles(h: Seq<u8>, t: Seq<u8>, n: nat)
    requires
        h.len() == 32,
        t.len() == 32,
        n < 64,
        forall|i: int| 0 <= i < 32 ==> t[i] == pow_target_byte(n, i as nat),
    ensures
        pow_accepts(h, t) <==> ((forall|i: int| 0 <= i < n / 2 ==> h[i] == 0) && (n % 2 == 1
            ==> h[n as int / 2] <= 0x0f)),
{
    lemma_pow_scan_nibbles(h, t, n, 0);
}


/// Lexicographic order never holds both ways.
proof fn lemma_lex_asym(a: Seq<u8>, b: Seq<u8>)
    requires
        lex_lt(a, b),
    ensures
        !lex_lt(b, a),
    decreases a.len(),
{
    if b.len() == 0 {
    } else if a.len() == 0 {
    } else if a[0] < b[0] {
    } else if a[0] > b[0] {
    } else {
        lemma_lex_asym(a.skip(1), b.skip(1));
    }
}

/// Any two byte strings are ordered one way or the other, or equal.
proof fn lemma_lex_connex(a: Seq<u8>, b: Seq<u8>)
    ensures
        lex_lt(a, b) || lex_lt(b, a) || a == b,
    decreases a.len(),
{
    if b.len() == 0 {
        if a.len() == 0 {
            assert(a =~= b);
        }
    } else if a.len() == 0 {
    } else if a[0] < b[0] {
    } else if a[0] > b[0] {
    } else {
        lemma_lex_connex(a.skip(1), b.skip(1));
        if a.skip(1) == b.skip(1) {
            assert(a =~= b) by {
                assert(a.skip(1).len() == a.len() - 1);
                assert(b.skip(1).len() == b.len() - 1);
                assert(a.len() == b.len());
                assert forall|i: int| 0 <= i < a.len() implies a[i] == b[i] by {
                    if i > 0 {
                        assert(a.skip(1)[i - 1] == a[i]);
                        assert(b.skip(1)[i - 1] == b[i]);
                    }
                }
            }
        }
    }
}

/// Lexicographic order chains.
proof fn lemma_lex_trans(a: Seq<u8>, b: Seq<u8>, c: Seq<u8>)
    requires
        lex_lt(a, b),
        lex_lt(b, c),
    ensures
        lex_lt(a, c),
    decreases a.len(),
{
    if c.len() == 0 {
    } else if b.len() == 0 {
    } else if a.len() == 0 {
    } else {
        if a[0] == b[0] && b[0] == c[0] {
            lemma_lex_trans(a.skip(1), b.skip(1), c.skip(1));
        }
    }
}

/// Entry sequences in strictly increasing key order.
pub open spec fn strictly_sorted<W>(s: Seq<(Seq<u8>, W)>) -> bool {
    forall|i: int, j: int| 0 <= i < j < s.len() ==> lex_lt(s[i].0, s[j].0)
}

/// Which entries the sorted insert produces.
proof fn lemma_insert_by_key_members<W>(s: Seq<(Seq<u8>, W)>, e: (Seq<u8>, W))
    ensures
        forall|i: int|
            0 <= i < insert_by_key(s, e).len() ==> #[trigger] insert_by_key(s, e)[i] == e
                || exists|w: int| 0 <= w < s.len() && s[w] == insert_by_key(s, e)[i],
    decreases s.len(),
{
    if s.len() == 0 {
    } else if lex_lt(e.0, s.last().0) {
        lemma_insert_by_key_members(s.drop_last(), e);
        let u = insert_by_key(s.drop_last(), e);
        let r = u.push(s.last());
        assert forall|i: int| 0 <= i < r.len() implies #[trigger] r[i] == e || exists|w: int|
            0 <= w < s.len() && s[w] == r[i] by {
            if i < r.len() - 1 {
                assert(r[i] == u[i]);
                if u[i] != e {
                    let w = choose|w: int|
                        0 <= w < s.drop_last().len() && s.drop_last()[w] == u[i];
                    assert(s[w] == r[i]);
                }
            } else {
                assert(s[s.len() - 1] == r[i]);
            }
        }
    } else {
        let r = s.push(e);
        assert forall|i: int| 0 <= i < r.len() implies #[trigger] r[i] == e || exists|w: int|
            0 <= w < s.len() && s[w] == r[i] by {
            if i < r.len() - 1 {
                assert(s[i] == r[i]);
            }
        }
    }
}

/// Inserting a fresh key into a strictly sorted entry sequence keeps it
/// strictly sorted and binds exactly that one key more.
proof fn lemma_insert_by_key_props<W>(s: Seq<(Seq<u8>, W)>, e: (Seq<u8>, W))
    requires
        strictly_sorted(s),
        seq_get(s, e.0) is None,
    ensures
        strictly_sorted(insert_by_key(s, e)),
        insert_by_key(s, e).len() == s.len() + 1,
        seq_get(insert_by_key(s, e), e.0) == Some(e.1),
        forall|k: Seq<u8>| k != e.0 ==> seq_get(insert_by_key(s, e), k) == seq_get(s, k),
    decreases s.len(),
{
    if s.len() == 0 {
        let r = seq![e];
        assert(insert_by_key(s, e) == r);
        assert(r.drop_last() =~= s);
        assert forall|k: Seq<u8>| k != e.0 implies seq_get(r, k) == seq_get(s, k) by {
            assert(seq_get(r, k) == seq_get(r.drop_last(), k));
        }
    } else if lex_lt(e.0, s.last().0) {
        assert(seq_get(s, e.0) == seq_get(s.drop_last(), e.0)) by {
            if s.last().0 == e.0 {
                lemma_lex_asym(e.0, s.last().0);
            }
        }
        assert(strictly_sorted(s.drop_last())) by {
            assert(forall|i: int| 0 <= i < s.drop_last().len() ==> s.drop_last()[i] == s[i]);
        }
        lemma_insert_by_key_props(s.drop_last(), e);
        lemma_insert_by_key_members(s.drop_last(), e);
        let u = insert_by_key(s.drop_last(), e);
        let r = u.push(s.last());
        assert(insert_by_key(s, e) == r);
        assert(r.drop_last() =~= u);
        // every entry before the pushed last has a key below the last's
        assert forall|i: int, j: int| 0 <= i < j < r.len() implies lex_lt(r[i].0, r[j].0) by {
            if j < r.len() - 1 {
                assert(r[i] == u[i] && r[j] == u[j]);
            } else {
                assert(r[i] == u[i]);
                if u[i] == e {
                } else {
                    let w = choose|w: int|
                        0 <= w < s.drop_last().len() && s.drop_last()[w] == u[i];
                    assert(lex_lt(s[w].0, s[s.len() - 1].0));
                }
            }
        }
        assert(seq_get(r, e.0) == Some(e.1)) by {
            if s.last().0 == e.0 {
                lemma_lex_asym(e.0, s.last().0);
            }
            assert(s.last().0 != e.0);
        }
        assert forall|k: Seq<u8>| k != e.0 implies seq_get(r, k) == seq_get(s, k) by {
            if s.last().0 == k {
            } else {
                assert(seq_get(r, k) == seq_get(u, k));
                assert(seq_get(s, k) == seq_get(s.drop_last(), k));
            }
        }
    } else {
        let r = s.push(e);
        assert(insert_by_key(s, e) == r);
        assert(r.drop_last() =~= s);
        // the new key comes after every present key
        assert(s.last().0 != e.0) by {
            lemma_key_bound(s, s.len() - 1);
        }
        lemma_lex_connex(e.0, s.last().0);
        assert(lex_lt(s.last().0, e.0));
        assert forall|i: int, j: int| 0 <= i < j < r.len() implies lex_lt(r[i].0, r[j].0) by {
            if j < r.len() - 1 {
                assert(r[i] == s[i] && r[j] == s[j]);
            } else {
                assert(r[i] == s[i]);
                if i < s.len() - 1 {
                    assert(lex_lt(s[i].0, s[s.len() - 1].0));
                    lemma_lex_trans(s[i].0, s[s.len() - 1].0, e.0);
                }
            }
        }
        assert forall|k: Seq<u8>| k != e.0 implies seq_get(r, k) == seq_get(s, k) by {
            assert(seq_get(r, k) == seq_get(r.drop_last(), k));
        }
    }
}

/// A key that occurs in an entry sequence is bound in it.
proof fn lemma_key_bound<W>(s: Seq<(Seq<u8>, W)>, j: int)
    requires
        0 <= j < s.len(),
    ensures
        seq_get(s, s[j].0) is Some,
    decreases s.len(),
{
    if j < s.len() - 1 {
        assert(s.drop_last()[j] == s[j]);
        if s.last().0 != s[j].0 {
            lemma_key_bound(s.drop_last(), j);
        }
    }
}

/// Sorting a unique-keyed entry sequence by key yields a strictly sorted
/// sequence with exactly the same bindings.
proof fn lemma_sort_by_key_props<W>(s: Seq<(Seq<u8>, W)>)
    requires
        unique_keys(s),
    ensures
        strictly_sorted(sort_by_key(s)),
        sort_by_key(s).len() == s.len(),
        forall|k: Seq<u8>| #[trigger] seq_get(sort_by_key(s), k) == seq_get(s, k),
    decreases s.len(),
{
    if s.len() > 0 {
        assert(unique_keys(s.drop_last())) by {
            assert(forall|i: int| 0 <= i < s.drop_last().len() ==> s.drop_last()[i] == s[i]);
        }
        lemma_sort_by_key_props(s.drop_last());
        let e = s.last();
        // the last entry's key is fresh among the earlier ones
        assert(seq_get(s.drop_last(), e.0) is None) by {
            assert forall|i: int| 0 <= i < s.drop_last().len() implies s.drop_last()[i].0
                != e.0 by {
                assert(s.drop_last()[i] == s[i]);
            }
            lemma_get_absent(s.drop_last(), e.0);
        }
        lemma_insert_by_key_props(sort_by_key(s.drop_last()), e);
        assert forall|k: Seq<u8>| #[trigger] seq_get(sort_by_key(s), k) == seq_get(s, k) by {
            if k == e.0 {
            } else {
                assert(seq_get(sort_by_key(s), k) == seq_get(sort_by_key(s.drop_last()), k));
                assert(seq_get(s, k) == seq_get(s.drop_last(), k));
            }
        }
    }
}

/// Strictly sorted entry sequences with the same bindings are the same
/// sequence.
proof fn lemma_sorted_bindings_eq<W>(s1: Seq<(Seq<u8>, W)>, s2: Seq<(Seq<u8>, W)>)
    requires
        strictly_sorted(s1),
        strictly_sorted(s2),
        s1.len() == s2.len(),
        forall|k: Seq<u8>| #[trigger] seq_get(s1, k) == seq_get(s2, k),
    ensures
        s1 == s2,
    decreases s1.len(),
{
    if s1.len() == 0 {
        assert(s1 =~= s2);
    } else {
        let e1 = s1.last();
        let e2 = s2.last();
        // each last key is bound on the other side, where every earlier key
        // is strictly smaller than its own last — so the last keys agree
        assert(seq_get(s2, e1.0) is Some);
        lemma_get_some_means_present(s2, e1.0);
        let i2 = choose|i: int|
            0 <= i < s2.len() && s2[i].0 == e1.0 && s2[i].1 == seq_get(s2, e1.0)->Some_0;
        assert(seq_get(s1, e2.0) is Some);
        lemma_get_some_means_present(s1, e2.0);
        let i1 = choose|i: int|
            0 <= i < s1.len() && s1[i].0 == e2.0 && s1[i].1 == seq_get(s1, e2.0)->Some_0;
        assert(e1.0 == e2.0) by {
            if i2 < s2.len() - 1 {
                assert(lex_lt(e1.0, e2.0));
                if i1 < s1.len() - 1 {
                    assert(lex_lt(e2.0, e1.0));
                    lemma_lex_asym(e1.0, e2.0);
                }
            }
        }
        assert(e1.1 == e2.1) by {
            assert(seq_get(s1, e1.0) == Some(e1.1));
            assert(seq_get(s2, e2.0) == Some(e2.1));
        }
        // the prefixes carry the same bindings: the shared last key is absent
        // from both, every other key is untouched
        assert(strictly_sorted(s1.drop_last())) by {
            assert(forall|i: int| 0 <= i < s1.drop_last().len() ==> s1.drop_last()[i] == s1[i]);
        }
        assert(strictly_sorted(s2.drop_last())) by {
            assert(forall|i: int| 0 <= i < s2.drop_last().len() ==> s2.drop_last()[i] == s2[i]);
        }
        assert forall|k: Seq<u8>| #[trigger] seq_get(s1.drop_last(), k) == seq_get(
            s2.drop_last(),
            k,
        ) by {
            if k == e1.0 {
                assert forall|i: int| 0 <= i < s1.drop_last().len() implies s1.drop_last()[i].0
                    != k by {
                    assert(s1.drop_last()[i] == s1[i]);
                    assert(lex_lt(s1[i].0, e1.0));
                    if s1[i].0 == e1.0 {
                        lemma_lex_asym(s1[i].0, e1.0);
                    }
                }
                lemma_get_absent(s1.drop_last(), k);
                assert forall|i: int| 0 <= i < s2.drop_last().len() implies s2.drop_last()[i].0
                    != k by {
                    assert(s2.drop_last()[i] == s2[i]);
                    assert(lex_lt(s2[i].0, e2.0));
                    if s2[i].0 == e2.0 {
                        lemma_lex_asym(s2[i].0, e2.0);
                    }
                }
                lemma_get_absent(s2.drop_last(), k);
            } else {
                assert(seq_get(s1, k) == seq_get(s1.drop_last(), k));
                assert(seq_get(s2, k) == seq_get(s2.drop_last(), k));
            }
        }
        lemma_sorted_bindings_eq(s1.drop_last(), s2.drop_last());
        assert(e1 == e2);
        assert forall|i: int| 0 <= i < s1.len() implies s1[i] == s2[i] by {
            if i < s1.len() - 1 {
                assert(s1.drop_last()[i] == s1[i]);
                assert(s2.drop_last()[i] == s2[i]);
            }
        }
        assert(s1 =~= s2);
    }
}

/// The canonical encoding is a function of the maps' bindings alone: two
/// blocks that agree on every plain field and bind the same keys to the same
/// values — in whatever order the bindings were made — encode identically,
/// so the same logical block always hashes identically.
pub proof fn theorem_identity_ignores_binding_order(a: BlockV, b: BlockV)
    requires
        block_wf(a),
        block_wf(b),
        b == (BlockV {
            transactions: b.transactions,
            balances: b.balances,
            next_nonce: b.next_nonce,
            ..a
        }),
        a.transactions.len() == b.transactions.len(),
        forall|k: Seq<u8>| #[trigger] seq_get(a.transactions, k) == seq_get(b.transactions, k),
        a.balances.len() == b.balances.len(),
        forall|k: Seq<u8>| #[trigger] seq_get(a.balances, k) == seq_get(b.balances, k),
        a.next_nonce.len() == b.next_nonce.len(),
        forall|k: Seq<u8>| #[trigger] seq_get(a.next_nonce, k) == seq_get(b.next_nonce, k),
    ensures
        block_enc(a) == block_enc(b),
{
    lemma_sort_by_key_props(a.transactions);
    lemma_sort_by_key_props(b.transactions);
    lemma_sorted_bindings_eq(sort_by_key(a.transactions), sort_by_key(b.transactions));
    lemma_sort_by_key_props(a.balances);
    lemma_sort_by_key_props(b.balances);
    lemma_sorted_bindings_eq(sort_by_key(a.balances), sort_by_key(b.balances));
    lemma_sort_by_key_props(a.next_nonce);
    lemma_sort_by_key_props(b.next_nonce);
    lemma_sorted_bindings_eq(sort_by_key(a.next_nonce), sort_by_key(b.next_nonce));
    reveal(block_enc);
}

/// A transaction sequence is nondecreasing by nonce.
pub open spec fn nondecreasing_by_nonce(s: Seq<TxView>) -> bool {
    forall|i: int, j: int| 0 <= i <= j < s.len() ==> s[i].nonce <= s[j].nonce
}

proof fn lemma_insert_by_nonce_sorted(s: Seq<TxView>, t: TxView)
    requires
        nondecreasing_by_nonce(s),
    ensures
        nondecreasing_by_nonce(insert_by_nonce(s, t)),
        insert_by_nonce(s, t).len() == s.len() + 1,
    decreases s.len(),
{
    if s.len() == 0 {
    } else if t.nonce < s.last().nonce {
        assert(nondecreasing_by_nonce(s.drop_last())) by {
            assert(forall|i: int| 0 <= i < s.drop_last().len() ==> s.drop_last()[i] == s[i]);
        }
        lemma_insert_by_nonce_sorted(s.drop_last(), t);
        let u = insert_by_nonce(s.drop_last(), t);
        let r = u.push(s.last());
        assert(insert_by_nonce(s, t) == r);
        // every element of u is either from the prefix or is t, so none
        // exceeds the pushed last element
        lemma_insert_by_nonce_members(s.drop_last(), t);
        assert forall|i: int, j: int| 0 <= i <= j < r.len() implies r[i].nonce <= r[j].nonce by {
            if j < r.len() - 1 {
                assert(r[i] == u[i] && r[j] == u[j]);
            } else if i < r.len() - 1 {
                assert(r[i] == u[i]);
                assert(u[i] == t || exists|w: int|
                    0 <= w < s.drop_last().len() && s.drop_last()[w] == u[i]);
                if u[i] != t {
                    let w = choose|w: int|
                        0 <= w < s.drop_last().len() && s.drop_last()[w] == u[i];
                    assert(s[w].nonce <= s[s.len() - 1].nonce);
                }
            }
        }
    } else {
        let r = s.push(t);
        assert(insert_by_nonce(s, t) == r);
        assert forall|i: int, j: int| 0 <= i <= j < r.len() implies r[i].nonce <= r[j].nonce by {
            if j < r.len() - 1 {
                assert(r[i] == s[i] && r[j] == s[j]);
            } else if i < r.len() - 1 {
                assert(r[i] == s[i]);
                assert(s[i].nonce <= s[s.len() - 1].nonce);
            }
        }
    }
}

proof fn lemma_insert_by_nonce_members(s: Seq<TxView>, t: TxView)
    ensures
        forall|i: int|
            0 <= i < insert_by_nonce(s, t).len() ==> #[trigger] insert_by_nonce(s, t)[i] == t
                || exists|w: int| 0 <= w < s.len() && s[w] == insert_by_nonce(s, t)[i],
    decreases s.len(),
{
    if s.len() == 0 {
    } else if t.nonce < s.last().nonce {
        lemma_insert_by_nonce_members(s.drop_last(), t);
        let u = insert_by_nonce(s.drop_last(), t);
        let r = u.push(s.last());
        assert forall|i: int| 0 <= i < r.len() implies #[trigger] r[i] == t || exists|w: int|
            0 <= w < s.len() && s[w] == r[i] by {
            if i < r.len() - 1 {
                assert(r[i] == u[i]);
                if u[i] != t {
                    let w = choose|w: int|
                        0 <= w < s.drop_last().len() && s.drop_last()[w] == u[i];
                    assert(s[w] == r[i]);
                }
            } else {
                assert(s[s.len() - 1] == r[i]);
            }
        }
    } else {
        let r = s.push(t);
        assert forall|i: int| 0 <= i < r.len() implies #[trigger] r[i] == t || exists|w: int|
            0 <= w < s.len() && s[w] == r[i] by {
            if i < r.len() - 1 {
                assert(s[i] == r[i]);
            }
        }
    }
}

/// The nonce sort really sorts.
pub proof fn lemma_sort_by_nonce_sorted(s: Seq<TxView>)
    ensures
        nondecreasing_by_nonce(sort_by_nonce(s)),
    decreases s.len(),
{
    if s.len() > 0 {
        lemma_sort_by_nonce_sorted(s.drop_last());
        lemma_insert_by_nonce_sorted(sort_by_nonce(s.drop_last()), s.last());
    }
}

/// Sorting a sequence that is already nondecreasing by nonce changes
/// nothing: the sort is stable and deterministic.
pub proof fn lemma_sort_fixpoint(s: Seq<TxView>)
    requires
        nondecreasing_by_nonce(s),
    ensures
        sort_by_nonce(s) == s,
    decreases s.len(),
{
    if s.len() > 0 {
        assert(nondecreasing_by_nonce(s.drop_last())) by {
            assert(forall|i: int| 0 <= i < s.drop_last().len() ==> s.drop_last()[i] == s[i]);
        }
        lemma_sort_fixpoint(s.drop_last());
        if s.len() == 1 {
            assert(insert_by_nonce(s.drop_last(), s.last()) =~= s);
        } else {
            assert(s[s.len() - 2].nonce <= s[s.len() - 1].nonce);
            assert(!(s.last().nonce < s.drop_last().last().nonce));
            assert(insert_by_nonce(s.drop_last(), s.last()) =~= s);
        }
    }
}

/// Applying transactions appends exactly those transactions, in order, to
/// the block's transaction map.
pub proof fn lemma_apply_txs_values(b: BlockV, ts: Seq<TxView>)
    requires
        block_wf(b),
        apply_txs(b, ts) is Ok,
    ensures
        values_of(apply_txs(b, ts)->Ok_0.transactions) == values_of(b.transactions) + ts,
    decreases ts.len(),
{
    if ts.len() == 0 {
        assert(values_of(b.transactions) + ts =~= values_of(b.transactions));
    } else {
        lemma_apply_txs_values(b, ts.drop_last());
        lemma_apply_txs_wf(b, ts.drop_last());
        let mid = apply_txs(b, ts.drop_last())->Ok_0;
        let t = ts.last();
        // the applied transaction's identity is fresh, so the insert appends
        assert(!seq_has_key(mid.transactions, tx_id_of(t)));
        lemma_insert_props(mid.transactions, tx_id_of(t), t);
        assert(apply_txs(b, ts)->Ok_0.transactions == mid.transactions.push((tx_id_of(t), t)));
        assert(values_of(mid.transactions.push((tx_id_of(t), t))) =~= values_of(mid.transactions)
            + seq![t]);
        assert(values_of(b.transactions) + ts =~= (values_of(b.transactions) + ts.drop_last())
            + seq![t]);
    }
}

/// Rerunning a block against a parent is idempotent: a second rerun with the
/// same parent and the now-held transactions reproduces the same block,
/// balances and nonces included.
pub proof fn theorem_rerun_idempotent(b: BlockV, p: BlockV)
    requires
        block_wf(b),
        block_wf(p),
        rerun_spec(b, p) is Ok,
    ensures
        rerun_spec(rerun_spec(b, p)->Ok_0, p) == rerun_spec(b, p),
{
    let base = reset_against(b, p);
    let sorted = sort_by_nonce(values_of(b.transactions));
    let r = rerun_spec(b, p)->Ok_0;
    assert(block_wf(base)) by {
        lemma_insert_props(p.balances, p.reward_addr, ({
            let cur = get_or0(p.balances, p.reward_addr);
            if cur + p.coinbase_reward > u128::MAX {
                u128::MAX
            } else {
                (cur + p.coinbase_reward) as u128
            }
        }));
        assert(base.transactions =~= Seq::<(Seq<u8>, TxView)>::empty());
    }
    lemma_apply_txs_values(base, sorted);
    assert(values_of(base.transactions) =~= Seq::<TxView>::empty());
    assert(values_of(r.transactions) =~= sorted);
    lemma_sort_by_nonce_sorted(values_of(b.transactions));
    lemma_sort_fixpoint(sorted);
    assert(sort_by_nonce(values_of(r.transactions)) == sorted);
    lemma_apply_txs_header(base, sorted);
    assert(reset_against(r, p) =~= base);
}

/// A prefix of a successfully applied sequence also applies.
pub proof fn lemma_apply_prefix_ok(b: BlockV, ts: Seq<TxView>, k: int)
    requires
        apply_txs(b, ts) is Ok,
        0 <= k <= ts.len(),
    ensures
        apply_txs(b, ts.subrange(0, k)) is Ok,
{
    if apply_txs(b, ts.subrange(0, k)) is Err {
        lemma_apply_txs_err_persists(b, ts, k, ts.len() as int);
        assert(ts.subrange(0, ts.len() as int) =~= ts);
    }
}

/// Between consecutive states, a sender's recorded next nonce never moves
/// down.
proof fn lemma_next_nonce_monotone(b: BlockV, ts: Seq<TxView>, k1: int, k2: int, addr: Seq<u8>)
    requires
        block_wf(b),
        apply_txs(b, ts) is Ok,
        0 <= k1 <= k2 <= ts.len(),
    ensures
        get_or0(apply_txs(b, ts.subrange(0, k1))->Ok_0.next_nonce, addr) <= get_or0(
            apply_txs(b, ts.subrange(0, k2))->Ok_0.next_nonce,
            addr,
        ),
    decreases k2 - k1,
{
    if k2 > k1 {
        lemma_next_nonce_monotone(b, ts, k1, k2 - 1, addr);
        lemma_apply_prefix_ok(b, ts, k2 - 1);
        lemma_apply_prefix_ok(b, ts, k2);
        lemma_apply_txs_wf(b, ts.subrange(0, k2 - 1));
        let pre = apply_txs(b, ts.subrange(0, k2 - 1))->Ok_0;
        let t = ts[k2 - 1];
        assert(ts.subrange(0, k2).drop_last() =~= ts.subrange(0, k2 - 1));
        assert(ts.subrange(0, k2).last() == t);
        assert(apply_txs(b, ts.subrange(0, k2)) == tx_apply(pre, t));
        lemma_insert_props(pre.next_nonce, t.from, (t.nonce + 1) as u128);
        if t.from == addr {
            assert(t.nonce == get_or0(pre.next_nonce, addr));
        }
    }
}

/// Nonce monotonicity: within any successfully applied sequence, two
/// transactions of the same sender apply in strictly increasing nonce order.
pub proof fn theorem_nonce_monotonic(b: BlockV, ts: Seq<TxView>, i: int, j: int)
    requires
        block_wf(b),
        apply_txs(b, ts) is Ok,
        0 <= i < j < ts.len(),
        ts[i].from == ts[j].from,
    ensures
        ts[i].nonce < ts[j].nonce,
{
    let from = ts[i].from;
    lemma_apply_prefix_ok(b, ts, i);
    lemma_apply_prefix_ok(b, ts, i + 1);
    lemma_apply_prefix_ok(b, ts, j);
    lemma_apply_prefix_ok(b, ts, j + 1);
    lemma_apply_txs_wf(b, ts.subrange(0, i));
    lemma_apply_txs_wf(b, ts.subrange(0, j));
    let st_i = apply_txs(b, ts.subrange(0, i))->Ok_0;
    let st_j = apply_txs(b, ts.subrange(0, j))->Ok_0;
    assert(ts.subrange(0, i + 1).drop_last() =~= ts.subrange(0, i));
    assert(ts.subrange(0, i + 1).last() == ts[i]);
    assert(apply_txs(b, ts.subrange(0, i + 1)) == tx_apply(st_i, ts[i]));
    assert(ts.subrange(0, j + 1).drop_last() =~= ts.subrange(0, j));
    assert(ts.subrange(0, j + 1).last() == ts[j]);
    assert(apply_txs(b, ts.subrange(0, j + 1)) == tx_apply(st_j, ts[j]));
    // the transaction at i pushes the sender's next nonce past its own
    assert(ts[i].nonce == get_or0(st_i.next_nonce, from));
    lemma_insert_props(st_i.next_nonce, from, (ts[i].nonce + 1) as u128);
    assert(get_or0(apply_txs(b, ts.subrange(0, i + 1))->Ok_0.next_nonce, from) == ts[i].nonce
        + 1);
    lemma_next_nonce_monotone(b, ts, i + 1, j, from);
    // the transaction at j applies exactly at the sender's then-current nonce
    assert(ts[j].nonce == get_or0(st_j.next_nonce, from));
}

} // verus!
