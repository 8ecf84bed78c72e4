//! A small verified map keyed by byte vectors, backed by a vector of
//! key/value pairs with unique keys. Blocks use it for their transaction and
//! ledger snapshots, and the chain state for its block storage.
use vstd::prelude::*;

verus! {

/// Looks a key up in an entry sequence, scanning from the back.
pub open spec fn seq_get<W>(s: Seq<(Seq<u8>, W)>, k: Seq<u8>) -> Option<W>
    decreases s.len(),
{
    if s.len() == 0 {
        None
    } else if s.last().0 == k {
        Some(s.last().1)
    } else {
        seq_get(s.drop_last(), k)
    }
}

/// Whether an entry sequence holds a key.
pub open spec fn seq_has_key<W>(s: Seq<(Seq<u8>, W)>, k: Seq<u8>) -> bool {
    seq_get(s, k) is Some
}

/// The value stored under a key, or zero for an absent key. Ledger snapshots
/// treat unknown accounts as holding zero.
pub open spec fn get_or0(s: Seq<(Seq<u8>, u128)>, k: Seq<u8>) -> u128 {
    match seq_get(s, k) {
        Some(v) => v,
        None => 0,
    }
}

/// The entry sequence after binding `k` to `v`: the unique entry holding `k`
/// is replaced in place, or a new entry is appended.
pub open spec fn seq_insert<W>(s: Seq<(Seq<u8>, W)>, k: Seq<u8>, v: W) -> Seq<(Seq<u8>, W)>
    decreases s.len(),
{
    if !seq_has_key(s, k) {
        s.push((k, v))
    } else if s.last().0 == k {
        s.drop_last().push((k, v))
    } else {
        seq_insert(s.drop_last(), k, v).push(s.last())
    }
}

/// The entry sequence after removing the entry holding `k`, if any.
pub open spec fn seq_remove<W>(s: Seq<(Seq<u8>, W)>, k: Seq<u8>) -> Seq<(Seq<u8>, W)>
    decreases s.len(),
{
    if s.len() == 0 {
        s
    } else if s.last().0 == k {
        s.drop_last()
    } else {
        seq_remove(s.drop_last(), k).push(s.last())
    }
}

/// Entry sequences with pairwise distinct keys.
pub open spec fn unique_keys<W>(s: Seq<(Seq<u8>, W)>) -> bool {
    forall|i: int, j: int| 0 <= i < j < s.len() ==> s[i].0 != s[j].0
}

/// The sum of all values of an entry sequence, as an unbounded integer.
pub open spec fn sum_vals(s: Seq<(Seq<u8>, u128)>) -> int
    decreases s.len(),
{
    if s.len() == 0 {
        0
    } else {
        sum_vals(s.drop_last()) + s.last().1
    }
}

/// A map from byte-vector keys to values, stored as entries with unique keys
/// in insertion order.
pub struct ByteMap<V> {
    entries: Vec<(Vec<u8>, V)>,
}

impl<V: View> View for ByteMap<V> {
    type V = Seq<(Seq<u8>, V::V)>;

    closed spec fn view(&self) -> Seq<(Seq<u8>, V::V)> {
        self.entries@.map_values(|p: (Vec<u8>, V)| (p.0@, p.1@))
    }
}

pub proof fn lemma_get_present<W>(s: Seq<(Seq<u8>, W)>, j: int)
    requires
        unique_keys(s),
        0 <= j < s.len(),
    ensures
        seq_get(s, s[j].0) == Some(s[j].1),
    decreases s.len(),
{
    if s.len() > 0 {
        if j == s.len() - 1 {
        } else {
            assert(s.drop_last()[j] == s[j]);
            lemma_get_present(s.drop_last(), j);
        }
    }
}

pub proof fn lemma_get_absent<W>(s: Seq<(Seq<u8>, W)>, k: Seq<u8>)
    requires
        forall|i: int| 0 <= i < s.len() ==> s[i].0 != k,
    ensures
        seq_get(s, k) is None,
    decreases s.len(),
{
    if s.len() > 0 {
        lemma_get_absent(s.drop_last(), k);
    }
}

/// A bound key occurs at some position.
pub proof fn lemma_get_some_means_present<W>(s: Seq<(Seq<u8>, W)>, k: Seq<u8>)
    requires
        seq_get(s, k) is Some,
    ensures
        exists|i: int| 0 <= i < s.len() && s[i].0 == k && s[i].1 == seq_get(s, k)->Some_0,
    decreases s.len(),
{
    if s.len() > 0 {
        if s.last().0 == k {
            assert(s[s.len() - 1].0 == k);
        } else {
            lemma_get_some_means_present(s.drop_last(), k);
            let i = choose|i: int|
                0 <= i < s.drop_last().len() && s.drop_last()[i].0 == k && s.drop_last()[i].1
                    == seq_get(s.drop_last(), k)->Some_0;
            assert(s[i].0 == k && s[i].1 == seq_get(s, k)->Some_0);
        }
    }
}

proof fn lemma_insert_at<W>(s: Seq<(Seq<u8>, W)>, j: int, k: Seq<u8>, v: W)
    requires
        unique_keys(s),
        0 <= j < s.len(),
        s[j].0 == k,
    ensures
        seq_insert(s, k, v) == s.update(j, (k, v)),
    decreases s.len(),
{
    lemma_get_present(s, j);
    if j == s.len() - 1 {
        assert(seq_insert(s, k, v) =~= s.update(j, (k, v)));
    } else {
        assert(s.drop_last()[j] == s[j]);
        lemma_insert_at(s.drop_last(), j, k, v);
        assert(s.update(j, (k, v)).drop_last() =~= s.drop_last().update(j, (k, v)));
        assert(seq_insert(s, k, v) =~= s.update(j, (k, v)));
    }
}

proof fn lemma_insert_fresh<W>(s: Seq<(Seq<u8>, W)>, k: Seq<u8>, v: W)
    requires
        forall|i: int| 0 <= i < s.len() ==> s[i].0 != k,
    ensures
        seq_insert(s, k, v) == s.push((k, v)),
{
    lemma_get_absent(s, k);
}

proof fn lemma_remove_at<W>(s: Seq<(Seq<u8>, W)>, j: int, k: Seq<u8>)
    requires
        unique_keys(s),
        0 <= j < s.len(),
        s[j].0 == k,
    ensures
        seq_remove(s, k) == s.remove(j),
    decreases s.len(),
{
    if j == s.len() - 1 {
        assert(seq_remove(s, k) =~= s.remove(j));
    } else {
        assert(s.drop_last()[j] == s[j]);
        lemma_remove_at(s.drop_last(), j, k);
        assert(s.remove(j).drop_last() =~= s.drop_last().remove(j));
        assert(seq_remove(s, k) =~= s.remove(j));
    }
}

proof fn lemma_remove_absent<W>(s: Seq<(Seq<u8>, W)>, k: Seq<u8>)
    requires
        forall|i: int| 0 <= i < s.len() ==> s[i].0 != k,
    ensures
        seq_remove(s, k) == s,
    decreases s.len(),
{
    if s.len() > 0 {
        lemma_remove_absent(s.drop_last(), k);
        assert(seq_remove(s, k) =~= s);
    }
}

/// Inserting preserves key uniqueness, binds `k` to `v`, and leaves every
/// other key's binding as it was.
pub proof fn lemma_insert_props<W>(s: Seq<(Seq<u8>, W)>, k: Seq<u8>, v: W)
    requires
        unique_keys(s),
    ensures
        unique_keys(seq_insert(s, k, v)),
        seq_get(seq_insert(s, k, v), k) == Some(v),
        forall|k2: Seq<u8>| k2 != k ==> seq_get(seq_insert(s, k, v), k2) == seq_get(s, k2),
        seq_has_key(s, k) ==> seq_insert(s, k, v).len() == s.len(),
        !seq_has_key(s, k) ==> seq_insert(s, k, v) == s.push((k, v)),
        forall|i: int|
            0 <= i < seq_insert(s, k, v).len() ==> #[trigger] seq_insert(s, k, v)[i] == (k, v)
                || exists|j: int| 0 <= j < s.len() && s[j] == seq_insert(s, k, v)[i],
    decreases s.len(),
{
    if !seq_has_key(s, k) {
        let t = s.push((k, v));
        assert(seq_insert(s, k, v) == t);
        assert(t.drop_last() =~= s);
        assert forall|i: int| 0 <= i < s.len() implies s[i].0 != k by {
            if s[i].0 == k {
                lemma_get_present(s, i);
            }
        }
        assert(unique_keys(t)) by {
            assert forall|i: int, j: int| 0 <= i < j < t.len() implies t[i].0 != t[j].0 by {
                if j < t.len() - 1 {
                    assert(t[i] == s[i] && t[j] == s[j]);
                } else {
                    assert(t[i] == s[i]);
                }
            }
        }
        assert(seq_get(t, k) == Some(v));
        assert forall|k2: Seq<u8>| k2 != k implies seq_get(t, k2) == seq_get(s, k2) by {
            assert(seq_get(t, k2) == seq_get(t.drop_last(), k2));
        }
    } else if s.last().0 == k {
        let t = s.drop_last().push((k, v));
        assert(seq_insert(s, k, v) == t);
        assert(forall|i: int| 0 <= i < s.drop_last().len() ==> s.drop_last()[i] == s[i]);
        assert(unique_keys(t)) by {
            assert forall|i: int, j: int| 0 <= i < j < t.len() implies t[i].0 != t[j].0 by {
                if j < t.len() - 1 {
                    assert(t[i] == s[i] && t[j] == s[j]);
                } else {
                    assert(t[i] == s[i] && s[j].0 == k);
                }
            }
        }
        assert(t.drop_last() =~= s.drop_last());
        assert forall|k2: Seq<u8>| k2 != k implies seq_get(t, k2) == seq_get(s, k2) by {
            assert(seq_get(t, k2) == seq_get(s.drop_last(), k2));
            assert(seq_get(s, k2) == seq_get(s.drop_last(), k2));
        }
    } else {
        // the key is bound somewhere before the last entry
        assert(seq_get(s, k) == seq_get(s.drop_last(), k));
        lemma_insert_props(s.drop_last(), k, v);
        let u = seq_insert(s.drop_last(), k, v);
        let t = u.push(s.last());
        assert(seq_insert(s, k, v) == t);
        assert(t.drop_last() =~= u);
        assert(t.last() == s.last());
        // the last entry's key is absent from the prefix, hence from u
        assert forall|i: int| 0 <= i < s.drop_last().len() implies s.drop_last()[i].0
            != s.last().0 by {
            assert(s.drop_last()[i] == s[i]);
        }
        lemma_get_absent(s.drop_last(), s.last().0);
        assert(seq_get(u, s.last().0) is None);
        assert forall|i: int, j: int| 0 <= i < j < t.len() implies t[i].0 != t[j].0 by {
            if j == t.len() - 1 {
                assert(t[i] == u[i]);
                if t[i].0 == s.last().0 {
                    lemma_get_present(u, i);
                }
            } else {
                assert(t[i] == u[i] && t[j] == u[j]);
            }
        }
        assert(seq_get(t, k) == Some(v)) by {
            assert(s.last().0 != k);
        }
        assert forall|k2: Seq<u8>| k2 != k implies seq_get(t, k2) == seq_get(s, k2) by {
            if s.last().0 == k2 {
            } else {
                assert(seq_get(t, k2) == seq_get(u, k2));
                assert(seq_get(s, k2) == seq_get(s.drop_last(), k2));
            }
        }
    }
}

/// Removing a key unbinds it, leaves every other binding as it was, and keeps
/// only entries that were already present.
#[verifier::rlimit(100)]
#[verifier::spinoff_prover]
pub proof fn lemma_remove_props<W>(s: Seq<(Seq<u8>, W)>, k: Seq<u8>)
    requires
        unique_keys(s),
    ensures
        unique_keys(seq_remove(s, k)),
        seq_get(seq_remove(s, k), k) is None,
        forall|k2: Seq<u8>| k2 != k ==> seq_get(seq_remove(s, k), k2) == seq_get(s, k2),
        forall|i: int|
            0 <= i < seq_remove(s, k).len() ==> exists|j: int|
                0 <= j < s.len() && s[j] == #[trigger] seq_remove(s, k)[i],
        seq_has_key(s, k) ==> seq_remove(s, k).len() == s.len() - 1,
        !seq_has_key(s, k) ==> seq_remove(s, k) == s,
    decreases s.len(),
{
    if s.len() == 0 {
    } else if s.last().0 == k {
        let t = s.drop_last();
        assert(seq_remove(s, k) == t);
        assert(forall|i: int| 0 <= i < t.len() ==> t[i] == s[i]);
        assert forall|i: int| 0 <= i < t.len() implies t[i].0 != k by {
            assert(t[i] == s[i] && s[s.len() - 1].0 == k);
        }
        lemma_get_absent(t, k);
        assert forall|k2: Seq<u8>| k2 != k implies seq_get(t, k2) == seq_get(s, k2) by {
            assert(seq_get(s, k2) == seq_get(s.drop_last(), k2));
        }
        lemma_get_present(s, s.len() - 1);
    } else {
        assert(unique_keys(s.drop_last())) by {
            assert(forall|i: int| 0 <= i < s.drop_last().len() ==> s.drop_last()[i] == s[i]);
        }
        lemma_remove_props(s.drop_last(), k);
        let u = seq_remove(s.drop_last(), k);
        let t = u.push(s.last());
        assert(seq_remove(s, k) == t);
        assert(t.drop_last() =~= u);
        assert(t.last() == s.last());
        assert forall|i: int| 0 <= i < s.drop_last().len() implies s.drop_last()[i].0
            != s.last().0 by {
            assert(s.drop_last()[i] == s[i]);
        }
        assert forall|i: int, j: int| 0 <= i < j < t.len() implies t[i].0 != t[j].0 by {
            if j == t.len() - 1 {
                assert(t[i] == u[i]);
                let w = choose|w: int|
                    0 <= w < s.drop_last().len() && s.drop_last()[w] == u[i];
                assert(s.drop_last()[w].0 != s.last().0);
            } else {
                assert(t[i] == u[i] && t[j] == u[j]);
            }
        }
        assert(seq_get(t, k) is None) by {
            assert(s.last().0 != k);
            assert(seq_get(t, k) == seq_get(u, k));
        }
        assert forall|k2: Seq<u8>| k2 != k implies seq_get(t, k2) == seq_get(s, k2) by {
            if s.last().0 == k2 {
            } else {
                assert(seq_get(t, k2) == seq_get(u, k2));
                assert(seq_get(s, k2) == seq_get(s.drop_last(), k2));
            }
        }
        assert forall|i: int| 0 <= i < t.len() implies exists|j: int|
            0 <= j < s.len() && s[j] == #[trigger] t[i] by {
            if i == t.len() - 1 {
                assert(s[s.len() - 1] == t[i]);
            } else {
                assert(t[i] == u[i]);
                let w = choose|w: int|
                    0 <= w < s.drop_last().len() && s.drop_last()[w] == u[i];
                assert(s[w] == t[i]);
            }
        }
        assert(seq_get(s, k) == seq_get(s.drop_last(), k));
        if !seq_has_key(s, k) {
            assert(seq_remove(s, k) =~= s);
        }
    }
}

/// Inserting changes the value sum by the difference between the new value
/// and the key's previous (or zero) binding.
pub proof fn lemma_sum_insert(s: Seq<(Seq<u8>, u128)>, k: Seq<u8>, v: u128)
    requires
        unique_keys(s),
    ensures
        sum_vals(seq_insert(s, k, v)) == sum_vals(s) - get_or0(s, k) + v,
    decreases s.len(),
{
    if !seq_has_key(s, k) {
        let t = s.push((k, v));
        assert(t.drop_last() =~= s);
    } else if s.last().0 == k {
        let t = s.drop_last().push((k, v));
        assert(seq_insert(s, k, v) == t);
        assert(t.drop_last() =~= s.drop_last());
    } else {
        assert(seq_get(s, k) == seq_get(s.drop_last(), k));
        assert(unique_keys(s.drop_last())) by {
            assert(forall|i: int| 0 <= i < s.drop_last().len() ==> s.drop_last()[i] == s[i]);
        }
        lemma_sum_insert(s.drop_last(), k, v);
        let t = seq_insert(s.drop_last(), k, v).push(s.last());
        assert(seq_insert(s, k, v) == t);
        assert(t.drop_last() =~= seq_insert(s.drop_last(), k, v));
    }
}

/// Copies a byte vector element by element.
pub fn clone_bytes(v: &Vec<u8>) -> (r: Vec<u8>)
    ensures
        r@ == v@,
{
    let mut r: Vec<u8> = Vec::new();
    let mut i: usize = 0;
    while i < v.len()
        invariant
            i <= v.len(),
            r@ =~= v@.subrange(0, i as int),
        decreases v.len() - i,
    {
        r.push(v[i]);
        i = i + 1;
    }
    proof {
        assert(r@ =~= v@);
    }
    r
}

impl<V: View> ByteMap<V> {
    /// All keys are pairwise distinct.
    pub open spec fn wf(&self) -> bool {
        unique_keys(self@)
    }

    pub fn new() -> (r: Self)
        ensures
            r@ == Seq::<(Seq<u8>, V::V)>::empty(),
            r.wf(),
    {
        let r = ByteMap { entries: Vec::new() };
        proof {
            assert(r@ =~= Seq::<(Seq<u8>, V::V)>::empty());
        }
        r
    }

    pub fn len(&self) -> (r: usize)
        ensures
            r == self@.len(),
    {
        self.entries.len()
    }

    /// The index of the entry holding `k`, if any.
    fn find(&self, k: &Vec<u8>) -> (r: Option<usize>)
        ensures
            match r {
                Some(i) => i < self@.len() && self@[i as int].0 == k@,
                None => forall|i: int| 0 <= i < self@.len() ==> self@[i].0 != k@,
            },
    {
        let mut i: usize = 0;
        while i < self.entries.len()
            invariant
                i <= self@.len(),
                self@.len() == self.entries@.len(),
                forall|j: int| 0 <= j < i ==> self@[j].0 != k@,
            decreases self@.len() - i,
        {
            assert(self@[i as int].0 == self.entries@[i as int].0@);
            if bytes_eq(&self.entries[i].0, k) {
                return Some(i);
            }
            i = i + 1;
        }
        None
    }

    pub fn contains_key(&self, k: &Vec<u8>) -> (r: bool)
        requires
            self.wf(),
        ensures
            r == seq_has_key(self@, k@),
    {
        let f = self.find(k);
        proof {
            match f {
                Some(i) => lemma_get_present(self@, i as int),
                None => lemma_get_absent(self@, k@),
            }
        }
        f.is_some()
    }

    pub fn get(&self, k: &Vec<u8>) -> (r: Option<&V>)
        requires
            self.wf(),
        ensures
            match r {
                Some(v) => seq_get(self@, k@) == Some(v@),
                None => seq_get(self@, k@) is None,
            },
    {
        match self.find(k) {
            Some(i) => {
                proof {
                    lemma_get_present(self@, i as int);
                }
                Some(&self.entries[i].1)
            },
            None => {
                proof {
                    lemma_get_absent(self@, k@);
                }
                None
            },
        }
    }

    /// Binds `k` to `v`, replacing any previous binding.
    pub fn insert(&mut self, k: Vec<u8>, v: V)
        requires
            old(self).wf(),
        ensures
            final(self).wf(),
            final(self)@ == seq_insert(old(self)@, k@, v@),
    {
        let ghost s0 = self@;
        let ghost kv = k@;
        let ghost vv = v@;
        match self.find(&k) {
            Some(i) => {
                proof {
                    lemma_insert_at(s0, i as int, kv, vv);
                    lemma_insert_props(s0, kv, vv);
                }
                self.entries.set(i, (k, v));
                proof {
                    assert(self@ =~= s0.update(i as int, (kv, vv)));
                }
            },
            None => {
                proof {
                    lemma_insert_fresh(s0, kv, vv);
                    lemma_insert_props(s0, kv, vv);
                }
                self.entries.push((k, v));
                proof {
                    assert(self@ =~= s0.push((kv, vv)));
                }
            },
        }
    }

    /// Removes the binding of `k`, returning its value if it was bound.
    pub fn remove(&mut self, k: &Vec<u8>) -> (r: Option<V>)
        requires
            old(self).wf(),
        ensures
            final(self).wf(),
            final(self)@ == seq_remove(old(self)@, k@),
            match r {
                Some(v) => seq_get(old(self)@, k@) == Some(v@),
                None => seq_get(old(self)@, k@) is None,
            },
    {
        let ghost s0 = self@;
        match self.find(k) {
            Some(i) => {
                proof {
                    lemma_get_present(s0, i as int);
                    lemma_remove_at(s0, i as int, k@);
                }
                let r = self.entries.remove(i);
                proof {
                    assert(self@ =~= s0.remove(i as int));
                    assert(unique_keys(self@)) by {
                        assert forall|a: int, b: int|
                            0 <= a < b < self@.len() implies self@[a].0 != self@[b].0 by {
                            let a0 = if a < i as int {
                                a
                            } else {
                                a + 1
                            };
                            let b0 = if b < i as int {
                                b
                            } else {
                                b + 1
                            };
                            assert(self@[a] == s0[a0] && self@[b] == s0[b0]);
                        }
                    }
                }
                Some(r.1)
            },
            None => {
                proof {
                    lemma_get_absent(s0, k@);
                    lemma_remove_absent(s0, k@);
                }
                None
            },
        }
    }

    /// The key of the entry at position `i`.
    pub fn key_at(&self, i: usize) -> (r: &Vec<u8>)
        requires
            i < self@.len(),
        ensures
            r@ == self@[i as int].0,
    {
        &self.entries[i].0
    }

    /// The value of the entry at position `i`.
    pub fn val_at(&self, i: usize) -> (r: &V)
        requires
            i < self@.len(),
        ensures
            r@ == self@[i as int].1,
    {
        &self.entries[i].1
    }
}

/// Compares two byte vectors element by element.
pub fn bytes_eq(a: &Vec<u8>, b: &Vec<u8>) -> (r: bool)
    ensures
        r == (a@ == b@),
{
    if a.len() != b.len() {
        return false;
    }
    let mut i: usize = 0;
    while i < a.len()
        invariant
            i <= a.len(),
            a@.len() == b@.len(),
            forall|j: int| 0 <= j < i ==> a@[j] == b@[j],
        decreases a.len() - i,
    {
        if a[i] != b[i] {
            return false;
        }
        i = i + 1;
    }
    proof {
        assert(a@ =~= b@);
    }
    true
}

} // verus!
