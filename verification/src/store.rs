//! Ordered leaf storage: the entries of a single unsplit segment.
//!
//! Entries are held in a vector sorted strictly ascending by key, so the key
//! at any rank is directly available to the split policy.  The mathematical
//! model of a store is the map from key views to value views.

use vstd::prelude::*;

use crate::order::StorageKey;
use crate::order::StorageValue;

verus! {

/// The view of an optional stored value.
pub open spec fn opt_view<V: StorageValue>(o: Option<V>) -> Option<V::V> {
    match o {
        Some(v) => Some(v@),
        None => None,
    }
}

/// The mapping denoted by a sequence of entries; a later pair wins.
pub open spec fn map_of<K: StorageKey, V: StorageValue>(s: Seq<(K, V)>) -> Map<K::V, V::V>
    decreases s.len(),
{
    if s.len() == 0 {
        Map::empty()
    } else {
        map_of(s.drop_last()).insert(s.last().0@, s.last().1@)
    }
}

/// The keys of the entries are strictly ascending in the order of `K`.
pub open spec fn strictly_ascending<K: StorageKey, V: StorageValue>(s: Seq<(K, V)>) -> bool {
    forall|i: int, j: int|
        #![trigger s[i], s[j]]
        0 <= i < j < s.len() ==> K::le_spec(s[i].0@, s[j].0@) && s[i].0@ != s[j].0@
}

/// A key view occurs in the mapping exactly when some entry carries it.
pub proof fn lemma_map_of_contains<K: StorageKey, V: StorageValue>(s: Seq<(K, V)>, x: K::V)
    ensures
        map_of(s).dom().contains(x) <==> exists|i: int|
            0 <= i < s.len() && (#[trigger] s[i]).0@ == x,
    decreases s.len(),
{
    if s.len() > 0 {
        lemma_map_of_contains(s.drop_last(), x);
        if s.last().0@ == x {
            assert(s[s.len() - 1].0@ == x);
        } else if map_of(s).dom().contains(x) {
            let i = choose|i: int| 0 <= i < s.drop_last().len() && (#[trigger] s.drop_last()[i]).0@ == x;
            assert(s[i].0@ == x);
        } else if exists|i: int| 0 <= i < s.len() && (#[trigger] s[i]).0@ == x {
            let i = choose|i: int| 0 <= i < s.len() && (#[trigger] s[i]).0@ == x;
            assert(s.drop_last()[i].0@ == x);
        }
    }
}

/// The mapping of a finite entry sequence has a finite domain.
pub proof fn lemma_map_of_finite<K: StorageKey, V: StorageValue>(s: Seq<(K, V)>)
    ensures
        map_of(s).dom().finite(),
    decreases s.len(),
{
    if s.len() > 0 {
        lemma_map_of_finite(s.drop_last());
    }
}

/// With pairwise distinct keys, the domain is as large as the sequence.
pub proof fn lemma_map_of_len<K: StorageKey, V: StorageValue>(s: Seq<(K, V)>)
    requires
        forall|i: int, j: int|
            #![trigger s[i], s[j]]
            0 <= i < j < s.len() ==> s[i].0@ != s[j].0@,
    ensures
        map_of(s).dom().finite(),
        map_of(s).dom().len() == s.len(),
    decreases s.len(),
{
    if s.len() > 0 {
        lemma_map_of_len(s.drop_last());
        lemma_map_of_contains(s.drop_last(), s.last().0@);
        assert(forall|i: int| 0 <= i < s.drop_last().len() ==> (#[trigger] s.drop_last()[i]).0@
            != s.last().0@) by {
            assert(forall|i: int| 0 <= i < s.len() - 1 ==> (#[trigger] s[i]).0@ != s[s.len()
                - 1].0@);
        }
        assert(!map_of(s.drop_last()).dom().contains(s.last().0@));
    }
}

/// The entry at index `i` is present in the mapping when keys are distinct.
pub proof fn lemma_map_of_at<K: StorageKey, V: StorageValue>(s: Seq<(K, V)>, i: int)
    requires
        forall|i: int, j: int|
            #![trigger s[i], s[j]]
            0 <= i < j < s.len() ==> s[i].0@ != s[j].0@,
        0 <= i < s.len(),
    ensures
        map_of(s).dom().contains(s[i].0@),
        map_of(s)[s[i].0@] == s[i].1@,
    decreases s.len(),
{
    if i == s.len() - 1 {
    } else {
        assert(s.drop_last()[i] == s[i]);
        lemma_map_of_at(s.drop_last(), i);
        assert(s[i].0@ != s[s.len() - 1].0@);
    }
}

/// Two inserts under distinct keys may be reordered.
pub proof fn lemma_map_insert_commute<A, B>(m: Map<A, B>, k1: A, v1: B, k2: A, v2: B)
    requires
        k1 != k2,
    ensures
        m.insert(k1, v1).insert(k2, v2) == m.insert(k2, v2).insert(k1, v1),
{
    assert(m.insert(k1, v1).insert(k2, v2) =~= m.insert(k2, v2).insert(k1, v1));
}

/// Overwriting an entry at an index whose key is unchanged updates the mapping
/// at that key alone.
pub proof fn lemma_map_of_update<K: StorageKey, V: StorageValue>(s: Seq<(K, V)>, i: int, p: (K, V))
    requires
        forall|i: int, j: int|
            #![trigger s[i], s[j]]
            0 <= i < j < s.len() ==> s[i].0@ != s[j].0@,
        0 <= i < s.len(),
        p.0@ == s[i].0@,
    ensures
        map_of(s.update(i, p)) == map_of(s).insert(p.0@, p.1@),
    decreases s.len(),
{
    let t = s.update(i, p);
    if i == s.len() - 1 {
        assert(t.drop_last() =~= s.drop_last());
        assert(map_of(t) == map_of(s.drop_last()).insert(p.0@, p.1@));
        assert(map_of(s.drop_last()).insert(s.last().0@, s.last().1@).insert(p.0@, p.1@)
            =~= map_of(s.drop_last()).insert(p.0@, p.1@));
    } else {
        assert(t.drop_last() =~= s.drop_last().update(i, p));
        assert(s.drop_last()[i] == s[i]);
        lemma_map_of_update(s.drop_last(), i, p);
        assert(t.last() == s.last());
        assert(s[i].0@ != s[s.len() - 1].0@);
        lemma_map_insert_commute(
            map_of(s.drop_last()),
            p.0@,
            p.1@,
            s.last().0@,
            s.last().1@,
        );
    }
}

/// Inserting an entry under a key that occurs nowhere in the sequence adds
/// exactly that key to the mapping.
pub proof fn lemma_map_of_insert_fresh<K: StorageKey, V: StorageValue>(
    s: Seq<(K, V)>,
    i: int,
    p: (K, V),
)
    requires
        0 <= i <= s.len(),
        forall|j: int| 0 <= j < s.len() ==> (#[trigger] s[j]).0@ != p.0@,
    ensures
        map_of(s.insert(i, p)) == map_of(s).insert(p.0@, p.1@),
    decreases s.len(),
{
    let t = s.insert(i, p);
    if i == s.len() {
        assert(t.drop_last() =~= s);
        assert(t.last() == p);
    } else {
        assert(t.drop_last() =~= s.drop_last().insert(i, p));
        assert(t.last() == s.last());
        assert(forall|j: int| 0 <= j < s.len() - 1 ==> (#[trigger] s.drop_last()[j]).0@ != p.0@);
        lemma_map_of_insert_fresh(s.drop_last(), i, p);
        assert(s[s.len() - 1].0@ != p.0@);
        lemma_map_insert_commute(
            map_of(s.drop_last()),
            p.0@,
            p.1@,
            s.last().0@,
            s.last().1@,
        );
    }
}

/// Taking one more entry extends the mapping of the prefix by that entry.
pub proof fn lemma_map_of_take_step<K: StorageKey, V: StorageValue>(s: Seq<(K, V)>, i: int)
    requires
        0 <= i < s.len(),
    ensures
        map_of(s.take(i + 1)) == map_of(s.take(i)).insert(s[i].0@, s[i].1@),
{
    assert(s.take(i + 1).drop_last() =~= s.take(i));
    assert(s.take(i + 1).last() == s[i]);
}

/// Ordered storage for a single unsplit segment, with an opaque identifier
/// used only for diagnostic correlation.
pub struct LocalStorage<K, V> {
    kv: Vec<(K, V)>,
    storage_id: uuid::Uuid,
}

impl<K: StorageKey, V: StorageValue> LocalStorage<K, V> {
    /// The mapping this store denotes, over key and value views.
    pub closed spec fn entries(self) -> Map<K::V, V::V> {
        map_of(self.kv@)
    }

    /// The number of entries held.
    pub closed spec fn len_spec(self) -> nat {
        self.kv@.len()
    }

    /// The view of the key stored at rank `i`.
    pub closed spec fn key_at_spec(self, i: int) -> K::V {
        self.kv@[i].0@
    }

    /// The view of the value stored at rank `i`.
    pub closed spec fn val_at_spec(self, i: int) -> V::V {
        self.kv@[i].1@
    }

    /// Entries are sorted strictly ascending by key.
    pub closed spec fn wf(self) -> bool {
        strictly_ascending(self.kv@)
    }

    /// The mapping denoted by the first `i` entries.
    pub closed spec fn prefix_entries(self, i: int) -> Map<K::V, V::V>
        recommends
            0 <= i <= self.len_spec(),
    {
        map_of(self.kv@.take(i))
    }

    /// The empty prefix denotes the empty mapping.
    pub proof fn lemma_prefix_empty(self)
        ensures
            self.prefix_entries(0) == Map::<K::V, V::V>::empty(),
    {
        assert(self.kv@.take(0) =~= Seq::<(K, V)>::empty());
    }

    /// The full prefix denotes the whole mapping.
    pub proof fn lemma_prefix_full(self)
        ensures
            self.prefix_entries(self.len_spec() as int) == self.entries(),
    {
        assert(self.kv@.take(self.len_spec() as int) =~= self.kv@);
    }

    /// Taking one more entry extends the prefix mapping by that entry.
    pub proof fn lemma_prefix_step(self, i: int)
        requires
            0 <= i < self.len_spec(),
        ensures
            self.prefix_entries(i + 1) == self.prefix_entries(i).insert(
                self.key_at_spec(i),
                self.val_at_spec(i),
            ),
    {
        lemma_map_of_take_step(self.kv@, i);
    }

    /// A key is in a prefix mapping exactly when some entry of the prefix
    /// carries it.
    pub proof fn lemma_prefix_contains(self, i: int, x: K::V)
        requires
            0 <= i <= self.len_spec(),
        ensures
            self.prefix_entries(i).dom().contains(x) <==> exists|j: int|
                0 <= j < i && self.key_at_spec(j) == x,
    {
        lemma_map_of_contains(self.kv@.take(i), x);
        if self.prefix_entries(i).dom().contains(x) {
            let j = choose|j: int|
                0 <= j < self.kv@.take(i).len() && (#[trigger] self.kv@.take(i)[j]).0@ == x;
            assert(0 <= j < i && self.key_at_spec(j) == x);
        }
        if exists|j: int| 0 <= j < i && self.key_at_spec(j) == x {
            let j = choose|j: int| 0 <= j < i && self.key_at_spec(j) == x;
            assert((self.kv@.take(i)[j]).0@ == x);
        }
    }

    /// Keys at distinct ranks are distinct, and ranks are ordered.
    pub proof fn lemma_ranked_keys(self, i: int, j: int)
        requires
            self.wf(),
            0 <= i < j < self.len_spec(),
        ensures
            K::le_spec(self.key_at_spec(i), self.key_at_spec(j)),
            self.key_at_spec(i) != self.key_at_spec(j),
    {
    }

    /// Every ranked key is in the domain of the mapping, with its value.
    pub proof fn lemma_rank_in_entries(self, i: int)
        requires
            self.wf(),
            0 <= i < self.len_spec(),
        ensures
            self.entries().dom().contains(self.key_at_spec(i)),
            self.entries()[self.key_at_spec(i)] == self.val_at_spec(i),
    {
        lemma_map_of_at(self.kv@, i);
    }

    /// A sorted store holds as many entries as its mapping has keys.
    pub proof fn lemma_len_is_dom_len(self)
        requires
            self.wf(),
        ensures
            self.entries().dom().finite(),
            self.entries().dom().len() == self.len_spec(),
    {
        lemma_map_of_len(self.kv@);
    }

    /// Every key of the mapping is a ranked key.
    pub proof fn lemma_dom_is_ranked(self, x: K::V)
        ensures
            self.entries().dom().contains(x) <==> exists|i: int|
                0 <= i < self.len_spec() && self.key_at_spec(i) == x,
    {
        lemma_map_of_contains(self.kv@, x);
        if self.entries().dom().contains(x) {
            let i = choose|i: int| 0 <= i < self.kv@.len() && (#[trigger] self.kv@[i]).0@ == x;
            assert(0 <= i < self.len_spec() && self.key_at_spec(i) == x);
        }
        if exists|i: int| 0 <= i < self.len_spec() && self.key_at_spec(i) == x {
            let i = choose|i: int| 0 <= i < self.len_spec() && self.key_at_spec(i) == x;
            assert((self.kv@[i]).0@ == x);
        }
    }

    /// An empty store.
    pub fn new() -> (r: Self)
        ensures
            r.wf(),
            r.entries() == Map::<K::V, V::V>::empty(),
            r.len_spec() == 0,
    {
        LocalStorage { kv: Vec::new(), storage_id: uuid::Uuid::new_v4() }
    }

    /// The number of distinct keys held.
    pub fn count(&self) -> (r: usize)
        ensures
            r == self.len_spec(),
    {
        self.kv.len()
    }

    /// A copy of the key stored at rank `i`.
    pub fn key_at(&self, i: usize) -> (r: K)
        requires
            i < self.len_spec(),
        ensures
            r@ == self.key_at_spec(i as int),
    {
        self.kv[i].0.dup()
    }

    /// A copy of the entry stored at rank `i`.
    pub fn pair_at(&self, i: usize) -> (r: (K, V))
        requires
            i < self.len_spec(),
        ensures
            r.0@ == self.key_at_spec(i as int),
            r.1@ == self.val_at_spec(i as int),
    {
        let p = &self.kv[i];
        (p.0.dup(), p.1.dup())
    }

    /// Look a key up; absence is not an error.
    pub fn get(&self, k: &K) -> (r: Option<V>)
        requires
            self.wf(),
        ensures
            opt_view(r) == (if self.entries().dom().contains(k@) {
                Some(self.entries()[k@])
            } else {
                None
            }),
    {
        let n = self.kv.len();
        let mut i: usize = 0;
        while i < n
            invariant
                self.wf(),
                n == self.len_spec(),
                i <= n,
                forall|j: int| 0 <= j < i ==> self.key_at_spec(j) != k@,
            decreases n - i,
        {
            let p = &self.kv[i];
            if p.0.key_le(k) && k.key_le(&p.0) {
                proof {
                    K::lemma_le_antisymmetric(self.key_at_spec(i as int), k@);
                    self.lemma_rank_in_entries(i as int);
                }
                return Some(p.1.dup());
            }
            proof {
                if self.key_at_spec(i as int) == k@ {
                    K::lemma_le_reflexive(k@);
                }
            }
            i += 1;
        }
        proof {
            self.lemma_dom_is_ranked(k@);
        }
        None
    }

    /// Insert or overwrite; the mapping gains or replaces the binding of `k`.
    pub fn insert(&mut self, k: K, v: V)
        requires
            old(self).wf(),
            old(self).len_spec() < usize::MAX,
        ensures
            final(self).wf(),
            final(self).entries() == old(self).entries().insert(k@, v@),
            final(self).len_spec() == old(self).len_spec() + (if old(
                self,
            ).entries().dom().contains(k@) {
                0int
            } else {
                1int
            }),
    {
        let ghost s0 = self.kv@;
        let n = self.kv.len();
        let mut i: usize = 0;
        while i < n
            invariant
                self.kv@ == s0,
                s0 == old(self).kv@,
                strictly_ascending(s0),
                n == s0.len(),
                i <= n,
                n < usize::MAX,
                forall|j: int|
                    0 <= j < i ==> K::le_spec((#[trigger] s0[j]).0@, k@) && s0[j].0@ != k@,
            decreases n - i,
        {
            let cur_le_k = {
                let p = &self.kv[i];
                p.0.key_le(&k)
            };
            let k_le_cur = {
                let p = &self.kv[i];
                k.key_le(&p.0)
            };
            if cur_le_k && k_le_cur {
                // Same key: overwrite in place.
                proof {
                    K::lemma_le_antisymmetric(s0[i as int].0@, k@);
                    lemma_map_of_at(s0, i as int);
                    lemma_map_of_update(s0, i as int, (k, v));
                    lemma_map_of_contains(s0, k@);
                }
                let ghost p = (k, v);
                let ghost ii = i as int;
                self.kv.remove(i);
                self.kv.insert(i, (k, v));
                proof {
                    assert(p.0@ == k@ && p.1@ == v@);
                    assert(self.kv@ =~= s0.update(ii, p));
                    assert(self.entries() == map_of(s0).insert(k@, v@));
                    assert forall|a: int, b: int|
                        0 <= a < b < self.kv@.len() implies K::le_spec(
                        (#[trigger] self.kv@[a]).0@,
                        (#[trigger] self.kv@[b]).0@,
                    ) && self.kv@[a].0@ != self.kv@[b].0@ by {
                        assert(s0[a].0@ == self.kv@[a].0@);
                        assert(s0[b].0@ == self.kv@[b].0@);
                    }
                }
                return ;
            } else if cur_le_k {
                proof {
                    if s0[i as int].0@ == k@ {
                        K::lemma_le_reflexive(k@);
                    }
                }
                i += 1;
            } else {
                // The key at `i` is the first key above `k`: insert before it.
                proof {
                    K::lemma_le_total(s0[i as int].0@, k@);
                    if s0[i as int].0@ == k@ {
                        K::lemma_le_reflexive(k@);
                    }
                    assert forall|j: int| 0 <= j < s0.len() implies (#[trigger] s0[j]).0@ != k@ by {
                        if i <= j {
                            if j > i {
                                K::lemma_le_transitive(k@, s0[i as int].0@, s0[j].0@);
                            }
                            if s0[j].0@ == k@ {
                                K::lemma_le_antisymmetric(k@, s0[i as int].0@);
                            }
                        }
                    }
                    assert forall|j: int| i <= j < s0.len() implies K::le_spec(
                        k@,
                        (#[trigger] s0[j]).0@,
                    ) by {
                        if j > i {
                            K::lemma_le_transitive(k@, s0[i as int].0@, s0[j].0@);
                        }
                    }
                    lemma_map_of_insert_fresh(s0, i as int, (k, v));
                    lemma_map_of_contains(s0, k@);
                }
                let ghost p = (k, v);
                let ghost ii = i as int;
                self.kv.insert(i, (k, v));
                proof {
                    assert(p.0@ == k@ && p.1@ == v@);
                    Self::lemma_sorted_insert(s0, ii, p);
                    assert(self.kv@ == s0.insert(ii, p));
                    assert(self.entries() == map_of(s0).insert(k@, v@));
                }
                return ;
            }
        }
        // Every key is below `k`: append at the end.
        proof {
            assert forall|j: int| 0 <= j < s0.len() implies (#[trigger] s0[j]).0@ != k@ by {}
            lemma_map_of_insert_fresh(s0, n as int, (k, v));
            lemma_map_of_contains(s0, k@);
        }
        let ghost p = (k, v);
        let ghost nn = n as int;
        self.kv.insert(n, (k, v));
        proof {
            assert(p.0@ == k@ && p.1@ == v@);
            Self::lemma_sorted_insert(s0, nn, p);
            assert(self.kv@ == s0.insert(nn, p));
            assert(self.entries() == map_of(s0).insert(k@, v@));
        }
    }

    /// Inserting at the boundary between smaller and larger keys keeps the
    /// entries strictly ascending.
    proof fn lemma_sorted_insert(s: Seq<(K, V)>, i: int, p: (K, V))
        requires
            strictly_ascending(s),
            0 <= i <= s.len(),
            forall|j: int| 0 <= j < i ==> K::le_spec((#[trigger] s[j]).0@, p.0@) && s[j].0@ != p.0@,
            forall|j: int| i <= j < s.len() ==> K::le_spec(p.0@, (#[trigger] s[j]).0@) && s[j].0@ != p.0@,
        ensures
            strictly_ascending(s.insert(i, p)),
    {
        let t = s.insert(i, p);
        assert forall|a: int, b: int|
            0 <= a < b < t.len() implies K::le_spec((#[trigger] t[a]).0@, (#[trigger] t[b]).0@)
            && t[a].0@ != t[b].0@ by {
            if a < i && b < i {
                assert(t[a] == s[a] && t[b] == s[b]);
            } else if a < i && b == i {
                assert(t[a] == s[a]);
            } else if a < i && b > i {
                assert(t[a] == s[a] && t[b] == s[b - 1]);
            } else if a == i {
                assert(t[b] == s[b - 1]);
            } else {
                assert(t[a] == s[a - 1] && t[b] == s[b - 1]);
            }
        }
    }
}

} // verus!
