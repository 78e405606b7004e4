//! A spanning rope: a tree whose nodes each own a contiguous sub-range of a
//! totally-ordered key domain.  A node is either a leaf holding entries
//! directly, or an ordered pair of child nodes whose ranges partition the
//! parent's range at a boundary key.  A leaf that grows past the threshold is
//! split at the key of middle rank; the boundary entry stays in the left
//! child, so entries are never duplicated.
//!
//! Keys and lookups outside a node's range are rejected with
//! [`StorageError::OutOfRange`]; every entry a node holds therefore lies in
//! the node's own range.

use vstd::prelude::*;

use crate::order::StorageKey;
use crate::order::StorageValue;
use crate::store::LocalStorage;
use crate::store::opt_view;

verus! {

/// The number of entries a leaf may hold before a pending insert splits it.
pub const MAX_SEGMENT_SIZE: usize = 10;

/// The sole failure mode: no node on the traversal path owns the key.
#[derive(Clone, Copy, Debug, PartialEq, Eq, Structural)]
pub enum StorageError {
    OutOfRange,
}

/// An optionally-bounded interval of the key domain; `None` on either side
/// means unbounded in that direction.  Both bounds are inclusive.
pub struct Range<K> {
    pub start: Option<K>,
    pub end: Option<K>,
}

/// The interior of a node: leaf storage, or an ordered list of child nodes.
pub enum Interior<K, V> {
    Segments(Vec<SpanningRope<K, V>>),
    Local(LocalStorage<K, V>),
}

/// A node of the range-partition tree, with an opaque identifier used only
/// for diagnostic correlation.
pub struct SpanningRope<K, V> {
    interior: Interior<K, V>,
    range: Range<K>,
    segment_id: uuid::Uuid,
}

impl<K: StorageKey> Range<K> {
    /// The view of the lower bound.
    pub open spec fn start_view(self) -> Option<K::V> {
        match self.start {
            Some(s) => Some(s@),
            None => None,
        }
    }

    /// The view of the upper bound.
    pub open spec fn end_view(self) -> Option<K::V> {
        match self.end {
            Some(e) => Some(e@),
            None => None,
        }
    }

    /// A key is contained iff it is above the lower bound (when present) and
    /// below the upper bound (when present).
    pub open spec fn spec_contains(self, k: K::V) -> bool {
        &&& match self.start_view() {
            Some(s) => K::le_spec(s, k),
            None => true,
        }
        &&& match self.end_view() {
            Some(e) => K::le_spec(k, e),
            None => true,
        }
    }

    /// Containment by reference, for internal routing.
    pub(crate) fn admits(&self, k: &K) -> (r: bool)
        ensures
            r == self.spec_contains(k@),
    {
        match (&self.start, &self.end) {
            (None, None) => true,
            (Some(s), None) => s.key_le(k),
            (None, Some(e)) => k.key_le(e),
            (Some(s), Some(e)) => s.key_le(k) && k.key_le(e),
        }
    }

    /// Containment query over the four bound cases.
    pub fn contains(&self, k: K) -> (r: bool)
        ensures
            r == self.spec_contains(k@),
    {
        self.admits(&k)
    }
}

/// The view of a lookup result.
pub open spec fn get_result_view<V: StorageValue>(r: Result<Option<V>, StorageError>) -> Result<
    Option<V::V>,
    StorageError,
> {
    match r {
        Ok(o) => Ok(opt_view(o)),
        Err(e) => Err(e),
    }
}

impl<K: StorageKey, V: StorageValue> SpanningRope<K, V> {
    /// Whether this node is an unsplit leaf.
    pub closed spec fn is_leaf(self) -> bool {
        self.interior is Local
    }

    /// The child nodes of a split node (empty for a leaf).
    pub closed spec fn children(self) -> Seq<SpanningRope<K, V>> {
        match self.interior {
            Interior::Segments(cs) => cs@,
            Interior::Local(_) => Seq::empty(),
        }
    }

    /// The range this node is authoritative for.
    pub closed spec fn spec_range(self) -> Range<K> {
        self.range
    }

    /// The boundary key view shared by the two children of a split node.
    pub closed spec fn boundary(self) -> K::V
        recommends
            !self.is_leaf(),
    {
        self.children()[0].range.end_view().unwrap()
    }

    /// The number of entries held across the subtree.
    pub closed spec fn size_spec(self) -> nat
        decreases self,
    {
        match self.interior {
            Interior::Local(st) => st.len_spec(),
            Interior::Segments(cs) => if cs@.len() == 2 {
                cs@[0].size_spec() + cs@[1].size_spec()
            } else {
                0
            },
        }
    }

    /// The mapping this subtree denotes, over key and value views.
    pub closed spec fn entries(self) -> Map<K::V, V::V>
        decreases self,
    {
        match self.interior {
            Interior::Local(st) => st.entries(),
            Interior::Segments(cs) => if cs@.len() == 2 {
                cs@[0].entries().union_prefer_right(cs@[1].entries())
            } else {
                Map::empty()
            },
        }
    }

    /// Structural well-formedness:
    /// - a leaf's entries are sorted, bounded in number, and inside its range;
    /// - a split node has exactly two nonempty children whose ranges meet at
    ///   a boundary key inside the parent's range, and the boundary entry, if
    ///   present, lives in the left child.
    pub closed spec fn wf(self) -> bool
        decreases self,
    {
        match self.interior {
            Interior::Local(st) => {
                &&& st.wf()
                &&& st.len_spec() <= MAX_SEGMENT_SIZE + 1
                &&& forall|k: K::V| #[trigger]
                    st.entries().dom().contains(k) ==> self.range.spec_contains(k)
            },
            Interior::Segments(cs) => {
                &&& cs@.len() == 2
                &&& cs@[0].wf()
                &&& cs@[1].wf()
                &&& cs@[0].size_spec() >= 1
                &&& cs@[1].size_spec() >= 1
                &&& cs@[0].range.start_view() == self.range.start_view()
                &&& cs@[1].range.end_view() == self.range.end_view()
                &&& cs@[0].range.end_view() is Some
                &&& cs@[1].range.start_view() == cs@[0].range.end_view()
                &&& self.range.spec_contains(cs@[0].range.end_view().unwrap())
                &&& !cs@[1].entries().dom().contains(cs@[0].range.end_view().unwrap())
            },
        }
    }

    /// Every entry of a well-formed subtree lies in the subtree's range.
    pub proof fn lemma_entries_in_range(self, k: K::V)
        requires
            self.wf(),
            self.entries().dom().contains(k),
        ensures
            self.spec_range().spec_contains(k),
        decreases self,
    {
        match self.interior {
            Interior::Local(st) => {},
            Interior::Segments(cs) => {
                let m = cs@[0].range.end_view().unwrap();
                if cs@[1].entries().dom().contains(k) {
                    cs@[1].lemma_entries_in_range(k);
                    match self.range.start_view() {
                        Some(s) => K::lemma_le_transitive(s, m, k),
                        None => {},
                    }
                } else {
                    cs@[0].lemma_entries_in_range(k);
                    match self.range.end_view() {
                        Some(e) => K::lemma_le_transitive(k, m, e),
                        None => {},
                    }
                }
            },
        }
    }

    /// The two children of a well-formed split node hold disjoint keys.
    pub proof fn lemma_children_disjoint(self, k: K::V)
        requires
            self.wf(),
            !self.is_leaf(),
        ensures
            !(self.children()[0].entries().dom().contains(k)
                && self.children()[1].entries().dom().contains(k)),
    {
        let cs = self.children();
        let m = cs[0].range.end_view().unwrap();
        if cs[0].entries().dom().contains(k) && cs[1].entries().dom().contains(k) {
            cs[0].lemma_entries_in_range(k);
            cs[1].lemma_entries_in_range(k);
            K::lemma_le_antisymmetric(k, m);
        }
    }

    /// A well-formed subtree holds exactly as many entries as its mapping
    /// has keys.
    pub proof fn lemma_size_is_distinct_count(self)
        requires
            self.wf(),
        ensures
            self.entries().dom().finite(),
            self.size_spec() == self.entries().dom().len(),
        decreases self,
    {
        match self.interior {
            Interior::Local(st) => {
                st.lemma_len_is_dom_len();
            },
            Interior::Segments(cs) => {
                cs@[0].lemma_size_is_distinct_count();
                cs@[1].lemma_size_is_distinct_count();
                assert forall|k: K::V|
                    !(cs@[0].entries().dom().contains(k) && #[trigger] cs@[1].entries().dom().contains(
                        k,
                    )) by {
                    self.lemma_children_disjoint(k);
                }
                assert(self.entries().dom() =~= cs@[0].entries().dom().union(
                    cs@[1].entries().dom(),
                ));
                lemma_disjoint_union_len(cs@[0].entries().dom(), cs@[1].entries().dom());
            },
        }
    }

    /// Construct an unsplit leaf node authoritative for the given range,
    /// with fresh opaque identifiers.
    pub fn new(start: Option<K>, end: Option<K>) -> (r: SpanningRope<K, V>)
        ensures
            r.wf(),
            r.is_leaf(),
            r.spec_segment_count() == 0,
            r.entries() == Map::<K::V, V::V>::empty(),
            r.size_spec() == 0,
            r.spec_range().start_view() == opt_view(start),
            r.spec_range().end_view() == opt_view(end),
    {
        SpanningRope {
            interior: Interior::Local(LocalStorage::new()),
            range: Range { start, end },
            segment_id: uuid::Uuid::new_v4(),
        }
    }

    /// Whether this node is authoritative for the key.
    pub fn owns(&self, k: K) -> (r: bool)
        ensures
            r == self.spec_range().spec_contains(k@),
    {
        self.range.contains(k)
    }

    /// Look a key up by range descent.  A key outside the node's range fails
    /// with `OutOfRange`; an absent key inside the range is not an error.
    pub fn get(&self, k: K) -> (r: Result<Option<V>, StorageError>)
        requires
            self.wf(),
        ensures
            get_result_view(r) == (if self.spec_range().spec_contains(k@) {
                Ok::<Option<V::V>, StorageError>(
                    if self.entries().dom().contains(k@) {
                        Some(self.entries()[k@])
                    } else {
                        None
                    },
                )
            } else {
                Err(StorageError::OutOfRange)
            }),
        decreases self,
    {
        if !self.range.admits(&k) {
            return Err(StorageError::OutOfRange);
        }
        match &self.interior {
            Interior::Local(st) => Ok(st.get(&k)),
            Interior::Segments(cs) => {
                let c0 = &cs[0];
                if c0.range.admits(&k) {
                    proof {
                        let m = c0.range.end_view().unwrap();
                        if cs@[1].entries().dom().contains(k@) {
                            cs@[1].lemma_entries_in_range(k@);
                            K::lemma_le_antisymmetric(k@, m);
                        }
                    }
                    c0.get(k)
                } else {
                    let c1 = &cs[1];
                    proof {
                        let m = c0.range.end_view().unwrap();
                        K::lemma_le_total(k@, m);
                        if cs@[0].entries().dom().contains(k@) {
                            cs@[0].lemma_entries_in_range(k@);
                        }
                    }
                    if c1.range.admits(&k) {
                        c1.get(k)
                    } else {
                        // Defensive guard: unreachable for a key inside the
                        // parent's range, because the children cover it.
                        Err(StorageError::OutOfRange)
                    }
                }
            },
        }
    }
}

impl<K: StorageKey, V: StorageValue> SpanningRope<K, V> {
    /// The leaf storage of an unsplit node.
    pub closed spec fn leaf_store(self) -> LocalStorage<K, V>
        recommends
            self.is_leaf(),
    {
        match self.interior {
            Interior::Local(st) => st,
            Interior::Segments(_) => arbitrary(),
        }
    }

    /// The number of direct children; 0 for a leaf.
    pub closed spec fn spec_segment_count(self) -> nat {
        self.children().len()
    }

    /// Count the entries of the subtree by recursive descent.
    fn count_entries(&self) -> (r: usize)
        requires
            self.wf(),
            self.size_spec() <= usize::MAX as nat,
        ensures
            r as nat == self.size_spec(),
        decreases self,
    {
        match &self.interior {
            Interior::Local(st) => st.count(),
            Interior::Segments(cs) => {
                let a = cs[0].count_entries();
                let b = cs[1].count_entries();
                a + b
            },
        }
    }

    /// The split decision: a subtree holding more entries than the threshold
    /// reports a candidate split key.  For a leaf it is the key of middle
    /// rank; for a split node, each child is consulted in order, so an
    /// overflowing descendant anywhere below is found.
    fn should_split_at(&self) -> (r: Option<K>)
        requires
            self.wf(),
            self.size_spec() <= usize::MAX as nat,
        ensures
            match r {
                Some(sk) => self.size_spec() > MAX_SEGMENT_SIZE && (self.is_leaf() ==> sk@
                    == self.leaf_store().key_at_spec(MAX_SEGMENT_SIZE as int / 2)),
                None => self.is_leaf() ==> self.size_spec() <= MAX_SEGMENT_SIZE,
            },
        decreases self,
    {
        let total = self.count_entries();
        if total > MAX_SEGMENT_SIZE {
            match &self.interior {
                Interior::Local(st) => Some(st.key_at(MAX_SEGMENT_SIZE / 2)),
                Interior::Segments(cs) => {
                    let first = cs[0].should_split_at();
                    match first {
                        Some(t) => Some(t),
                        None => cs[1].should_split_at(),
                    }
                },
            }
        } else {
            None
        }
    }

    /// Split execution.  On a leaf holding more entries than the threshold,
    /// partition its entries at `k` — the boundary entry stays left — into
    /// two fresh leaf children whose ranges meet at `k`, each filled through
    /// its own `insert`.  On an already-split node, descend and split any
    /// overflowing child in place; the children list at this level is kept.
    ///
    /// The entries and their number are unchanged by a split.
    fn split_at(&mut self, k: K)
        requires
            old(self).wf(),
            old(self).size_spec() <= usize::MAX as nat,
            old(self).is_leaf() ==> old(self).leaf_store().len_spec() > MAX_SEGMENT_SIZE && k@
                == old(self).leaf_store().key_at_spec(MAX_SEGMENT_SIZE as int / 2),
        ensures
            final(self).wf(),
            final(self).entries() == old(self).entries(),
            final(self).size_spec() == old(self).size_spec(),
            final(self).spec_range() == old(self).spec_range(),
            old(self).is_leaf() ==> final(self).spec_segment_count() == 2,
            !old(self).is_leaf() ==> final(self).spec_segment_count() == old(
                self,
            ).spec_segment_count(),
        decreases old(self).size_spec(), 0int,
    {
        let ghost orig = *self;
        let new_interior: Option<Interior<K, V>> = match &self.interior {
            Interior::Local(st) => {
                let ghost gs = *st;
                let n = st.count();
                let start_b: Option<K> = match &self.range.start {
                    Some(s) => Some(s.dup()),
                    None => None,
                };
                let end_b: Option<K> = match &self.range.end {
                    Some(e) => Some(e.dup()),
                    None => None,
                };
                let mut left: SpanningRope<K, V> = SpanningRope::new(start_b, Some(k.dup()));
                let mut right: SpanningRope<K, V> = SpanningRope::new(Some(k.dup()), end_b);
                proof {
                    gs.lemma_prefix_empty();
                }
                let mut i: usize = 0;
                while i < n
                    invariant
                        orig == *old(self),
                        orig.wf(),
                        orig.is_leaf(),
                        *st == gs,
                        gs == orig.leaf_store(),
                        n == gs.len_spec(),
                        orig.size_spec() == n,
                        MAX_SEGMENT_SIZE < n <= MAX_SEGMENT_SIZE + 1,
                        k@ == gs.key_at_spec(MAX_SEGMENT_SIZE as int / 2),
                        i <= n,
                        left.wf(),
                        right.wf(),
                        left.is_leaf(),
                        right.is_leaf(),
                        left.spec_range().start_view() == orig.spec_range().start_view(),
                        left.spec_range().end_view() == Some(k@),
                        right.spec_range().start_view() == Some(k@),
                        right.spec_range().end_view() == orig.spec_range().end_view(),
                        left.entries().union_prefer_right(right.entries()) == gs.prefix_entries(
                            i as int,
                        ),
                        left.size_spec() + right.size_spec() == i,
                        !right.entries().dom().contains(k@),
                        forall|j: int|
                            0 <= j < i ==> (K::le_spec(#[trigger] gs.key_at_spec(j), k@)
                                ==> left.entries().dom().contains(gs.key_at_spec(j))) && (
                            !K::le_spec(gs.key_at_spec(j), k@)
                                ==> right.entries().dom().contains(gs.key_at_spec(j))),
                    decreases n - i,
                {
                    let p = st.pair_at(i);
                    proof {
                        gs.lemma_rank_in_entries(i as int);
                        gs.lemma_prefix_step(i as int);
                        gs.lemma_prefix_contains(i as int, gs.key_at_spec(i as int));
                        assert forall|j: int| 0 <= j < i implies gs.key_at_spec(j)
                            != gs.key_at_spec(i as int) by {
                            gs.lemma_ranked_keys(j, i as int);
                        }
                    }
                    if p.0.key_le(&k) {
                        proof {
                            assert(orig.range.spec_contains(gs.key_at_spec(i as int)));
                            assert(left.spec_range().spec_contains(p.0@));
                            // The key at this rank is not yet stored on the
                            // right, so extending the left side extends the
                            // union by exactly this entry.
                            assert(!right.entries().dom().contains(p.0@));
                            assert(!left.entries().dom().contains(p.0@));
                        }
                        let ghost lpre = left;
                        let _res = left.insert(p.0, p.1);
                        proof {
                            assert(left.entries().union_prefer_right(right.entries())
                                =~= gs.prefix_entries(i as int + 1));
                            lpre.lemma_size_is_distinct_count();
                            left.lemma_size_is_distinct_count();
                            assert(left.entries().dom() =~= lpre.entries().dom().insert(p.0@));
                        }
                    } else {
                        proof {
                            K::lemma_le_total(gs.key_at_spec(i as int), k@);
                            if gs.key_at_spec(i as int) == k@ {
                                K::lemma_le_reflexive(k@);
                            }
                            assert(orig.range.spec_contains(gs.key_at_spec(i as int)));
                            assert(right.spec_range().spec_contains(p.0@));
                            assert(!right.entries().dom().contains(p.0@));
                        }
                        let ghost rpre = right;
                        let _res = right.insert(p.0, p.1);
                        proof {
                            assert(left.entries().union_prefer_right(right.entries())
                                =~= gs.prefix_entries(i as int + 1));
                            rpre.lemma_size_is_distinct_count();
                            right.lemma_size_is_distinct_count();
                            assert(right.entries().dom() =~= rpre.entries().dom().insert(p.0@));
                        }
                    }
                    i += 1;
                }
                proof {
                    gs.lemma_prefix_full();
                    // Rank 0 went left and the rank after the middle went
                    // right, so neither child is empty.
                    gs.lemma_ranked_keys(0, MAX_SEGMENT_SIZE as int / 2);
                    gs.lemma_ranked_keys(
                        MAX_SEGMENT_SIZE as int / 2,
                        MAX_SEGMENT_SIZE as int / 2 + 1,
                    );
                    if K::le_spec(gs.key_at_spec(MAX_SEGMENT_SIZE as int / 2 + 1), k@) {
                        K::lemma_le_antisymmetric(
                            gs.key_at_spec(MAX_SEGMENT_SIZE as int / 2 + 1),
                            k@,
                        );
                    }
                    left.lemma_size_is_distinct_count();
                    right.lemma_size_is_distinct_count();
                    if left.entries().dom().len() == 0 {
                        left.entries().dom().lemma_len0_is_empty();
                    }
                    if right.entries().dom().len() == 0 {
                        right.entries().dom().lemma_len0_is_empty();
                    }
                    gs.lemma_rank_in_entries(MAX_SEGMENT_SIZE as int / 2);
                }
                let mut children: Vec<SpanningRope<K, V>> = Vec::new();
                children.push(left);
                children.push(right);
                Some(Interior::Segments(children))
            },
            Interior::Segments(_) => None,
        };
        match new_interior {
            Some(ni) => {
                self.interior = ni;
            },
            None => {
                match &mut self.interior {
                    Interior::Segments(cs) => {
                        let ghost before = cs@;
                        let t0 = cs[0].should_split_at();
                        match t0 {
                            Some(tok) => {
                                proof {
                                    assert(orig.children()[1].size_spec() >= 1);
                                }
                                let c0 = &mut cs[0];
                                c0.split_at(tok);
                            },
                            None => {},
                        }
                        let ghost middle = cs@;
                        let t1 = cs[1].should_split_at();
                        match t1 {
                            Some(tok) => {
                                proof {
                                    assert(orig.children()[0].size_spec() >= 1);
                                }
                                let c1 = &mut cs[1];
                                c1.split_at(tok);
                            },
                            None => {},
                        }
                        proof {
                            assert(cs@[0].entries() == before[0].entries());
                            assert(cs@[1].entries() == before[1].entries());
                        }
                    },
                    Interior::Local(_) => {},
                }
            },
        }
    }

    /// Insert or overwrite an entry by range descent.  A key outside the
    /// node's range is rejected with `OutOfRange` and the node is unchanged;
    /// inserting the same key again overwrites (last write wins).  Before the
    /// entry is routed, the split decision is evaluated on this node and a
    /// pending split is executed, converting an overfull leaf into exactly
    /// two segments.
    pub fn insert(&mut self, k: K, v: V) -> (r: Result<(), StorageError>)
        requires
            old(self).wf(),
            old(self).size_spec() < usize::MAX as nat,
        ensures
            final(self).wf(),
            final(self).spec_range() == old(self).spec_range(),
            r is Ok <==> old(self).spec_range().spec_contains(k@),
            r is Ok ==> final(self).entries() == old(self).entries().insert(k@, v@),
            r is Err ==> r == Err::<(), StorageError>(StorageError::OutOfRange) && *final(self)
                == *old(self),
            old(self).is_leaf() && old(self).size_spec() <= MAX_SEGMENT_SIZE && old(
                self,
            ).spec_range().spec_contains(k@) ==> final(self).is_leaf(),
            old(self).is_leaf() && old(self).size_spec() > MAX_SEGMENT_SIZE && old(
                self,
            ).spec_range().spec_contains(k@) ==> final(self).spec_segment_count() == 2,
        decreases old(self).size_spec(), 1int,
    {
        if !self.range.admits(&k) {
            return Err(StorageError::OutOfRange);
        }
        let tok = self.should_split_at();
        match tok {
            Some(t) => self.split_at(t),
            None => {},
        }
        let ghost mid = *self;
        match &mut self.interior {
            Interior::Local(st) => {
                st.insert(k, v);
                Ok(())
            },
            Interior::Segments(cs) => {
                let ghost m = cs@[0].range.end_view().unwrap();
                let hit0 = cs[0].range.admits(&k);
                if hit0 {
                    proof {
                        if cs@[1].entries().dom().contains(k@) {
                            cs@[1].lemma_entries_in_range(k@);
                            K::lemma_le_antisymmetric(k@, m);
                        }
                        assert(cs@[1].size_spec() >= 1);
                        mid.lemma_size_is_distinct_count();
                        cs@[0].lemma_size_is_distinct_count();
                        cs@[1].lemma_size_is_distinct_count();
                    }
                    let c0 = &mut cs[0];
                    let res = c0.insert(k, v);
                    proof {
                        assert(self.entries() =~= mid.entries().insert(k@, v@));
                        c0.lemma_size_is_distinct_count();
                    }
                    res
                } else {
                    let hit1 = cs[1].range.admits(&k);
                    if hit1 {
                        proof {
                            if k@ == m {
                                K::lemma_le_reflexive(m);
                            }
                            assert(cs@[0].size_spec() >= 1);
                            mid.lemma_size_is_distinct_count();
                            cs@[0].lemma_size_is_distinct_count();
                            cs@[1].lemma_size_is_distinct_count();
                        }
                        let c1 = &mut cs[1];
                        let res = c1.insert(k, v);
                        proof {
                            assert(self.entries() =~= mid.entries().insert(k@, v@));
                            c1.lemma_size_is_distinct_count();
                        }
                        res
                    } else {
                        proof {
                            K::lemma_le_total(k@, m);
                            assert(false);
                        }
                        // Defensive guard: unreachable for a key inside this
                        // node's range, because the children cover it.
                        Err(StorageError::OutOfRange)
                    }
                }
            },
        }
    }
}

/// Read-only aggregate statistics over a subtree.
pub trait StatsReporter {
    /// Whether the statistics of this value are meaningful.
    spec fn stats_wf(&self) -> bool;

    /// The total number of distinct keys held across the subtree.
    spec fn spec_key_count(&self) -> nat;

    /// The number of direct child segments.
    spec fn spec_segment_count(&self) -> nat;

    /// Total distinct-key count across the subtree.
    fn key_count(&self) -> (r: usize)
        requires
            self.stats_wf(),
            self.spec_key_count() <= usize::MAX as nat,
        ensures
            r as nat == self.spec_key_count(),
    ;

    /// Direct child count: 0 for a leaf, the number of segments otherwise.
    fn internal_segment_count(&self) -> (r: usize)
        ensures
            r as nat == self.spec_segment_count(),
    ;
}

impl<K: StorageKey, V: StorageValue> StatsReporter for SpanningRope<K, V> {
    open spec fn stats_wf(&self) -> bool {
        self.wf()
    }

    open spec fn spec_key_count(&self) -> nat {
        self.size_spec()
    }

    open spec fn spec_segment_count(&self) -> nat {
        SpanningRope::spec_segment_count(*self)
    }

    fn key_count(&self) -> (r: usize) {
        self.count_entries()
    }

    fn internal_segment_count(&self) -> (r: usize) {
        match &self.interior {
            Interior::Local(_) => 0,
            Interior::Segments(cs) => cs.len(),
        }
    }
}

/// Insert/get round trip: after a successful insert of `(k, v)` with no
/// later insert of `k`, the subtree maps `k` to `v`, and a lookup of `k`
/// therefore returns `Ok(Some(v))`.
pub proof fn lemma_insert_get_round_trip<K: StorageKey, V: StorageValue>(
    t: SpanningRope<K, V>,
    prior: Map<K::V, V::V>,
    k: K::V,
    v: V::V,
)
    requires
        t.entries() == prior.insert(k, v),
    ensures
        t.entries().dom().contains(k),
        t.entries()[k] == v,
{
}

/// Overwrite semantics: inserting under the same key twice keeps the later
/// value (last write wins), and adds no second entry.
pub proof fn lemma_overwrite_last_write_wins<K: StorageKey, V: StorageValue>(
    prior: Map<K::V, V::V>,
    k: K::V,
    v1: V::V,
    v2: V::V,
)
    ensures
        prior.insert(k, v1).insert(k, v2) == prior.insert(k, v2),
        prior.insert(k, v1).insert(k, v2)[k] == v2,
{
    assert(prior.insert(k, v1).insert(k, v2) =~= prior.insert(k, v2));
}

/// Count accuracy: the key count of a well-formed subtree is exactly the
/// number of distinct keys it maps.
pub proof fn lemma_key_count_is_distinct_keys<K: StorageKey, V: StorageValue>(
    t: SpanningRope<K, V>,
)
    requires
        t.wf(),
    ensures
        t.entries().dom().finite(),
        t.size_spec() == t.entries().dom().len(),
{
    t.lemma_size_is_distinct_count();
}

/// Partition invariant: the ranges of the two children of a well-formed
/// split node cover the parent's range exactly, and overlap in at most the
/// boundary key.
pub proof fn lemma_partition_invariant<K: StorageKey, V: StorageValue>(
    t: SpanningRope<K, V>,
    k: K::V,
)
    requires
        t.wf(),
        !t.is_leaf(),
    ensures
        t.spec_range().spec_contains(k) <==> (t.children()[0].spec_range().spec_contains(k)
            || t.children()[1].spec_range().spec_contains(k)),
        t.children()[0].spec_range().spec_contains(k) && t.children()[1].spec_range().spec_contains(
            k,
        ) ==> k == t.boundary(),
{
    let c0 = t.children()[0];
    let c1 = t.children()[1];
    let m = t.boundary();
    if t.spec_range().spec_contains(k) {
        K::lemma_le_total(k, m);
    }
    if c0.spec_range().spec_contains(k) {
        match t.spec_range().end_view() {
            Some(e) => K::lemma_le_transitive(k, m, e),
            None => {},
        }
    }
    if c1.spec_range().spec_contains(k) {
        match t.spec_range().start_view() {
            Some(s) => K::lemma_le_transitive(s, m, k),
            None => {},
        }
        if c0.spec_range().spec_contains(k) {
            K::lemma_le_antisymmetric(k, m);
        }
    }
}

/// The size of a union of disjoint finite sets is the sum of their sizes.
pub proof fn lemma_disjoint_union_len<A>(a: Set<A>, b: Set<A>)
    requires
        a.finite(),
        b.finite(),
        forall|x: A| !(a.contains(x) && b.contains(x)),
    ensures
        a.union(b).finite(),
        a.union(b).len() == a.len() + b.len(),
    decreases a.len(),
{
    if a.is_empty() {
        assert(a.union(b) =~= b);
    } else {
        let x = a.choose();
        assert(a.contains(x));
        assert(a.union(b).remove(x) =~= a.remove(x).union(b));
        lemma_disjoint_union_len(a.remove(x), b);
        assert(a.union(b) =~= a.union(b).remove(x).insert(x));
    }
}

} // verus!
