//! The memory tier of the tiered index: a bounded index of fragments that
//! counts reads, tells which fragments are read often enough to be kept in
//! memory, and gives up its coldest fragment when room is needed.
use vstd::prelude::*;
use std::collections::HashMap;
use vstd::std_specs::iter::IteratorSpec;
use crate::index::{HolographicIndex, IndexEntry, present_ids, group_of, groups_without};
use crate::types::FragmentId;

verus! {

broadcast use vstd::std_specs::hash::group_hash_axioms;

/// How often a fragment was read (0 when never).
pub open spec fn reads_of(a: Map<FragmentId, usize>, id: FragmentId) -> nat {
    if a.contains_key(id) { a[id] as nat } else { 0 }
}

/// The in-memory tier.
pub struct L0Layer<T> {
    index: HolographicIndex<T>,
    capacity: usize,
    access_count: HashMap<FragmentId, usize>,
    promote_threshold: usize,
}

impl<T> L0Layer<T> {
    /// The fragments held.
    pub closed spec fn held(&self) -> HolographicIndex<T> {
        self.index
    }

    /// The read counts.
    pub closed spec fn reads(&self) -> Map<FragmentId, usize> {
        self.access_count@
    }

    pub closed spec fn cap(&self) -> usize {
        self.capacity
    }

    pub closed spec fn threshold(&self) -> usize {
        self.promote_threshold
    }

    pub fn new(capacity: usize, promote_threshold: usize) -> (r: Self)
        ensures
            r.held().entries() == Map::<FragmentId, IndexEntry<T>>::empty(),
            r.held().groups() == Map::<u64, Seq<FragmentId>>::empty(),
            r.reads() == Map::<FragmentId, usize>::empty(),
            r.cap() == capacity,
            r.threshold() == promote_threshold,
    {
        L0Layer { index: HolographicIndex::new(), capacity, access_count: HashMap::new(), promote_threshold }
    }

    /// Holds a fragment (see `HolographicIndex::insert`).
    pub fn insert(&mut self, id: FragmentId, source_hash: u64, fragment_count: u32, fragment: T) -> (r: FragmentId)
        requires
            id < u64::MAX,
        ensures
            r == id,
            final(self).held().entries() == old(self).held().entries().insert(
                id,
                IndexEntry { source_hash, fragment_count, fragment },
            ),
            final(self).held().groups() == crate::index::group_push(old(self).held().groups(), source_hash, id),
            final(self).reads() == old(self).reads(),
            final(self).cap() == old(self).cap(),
            final(self).threshold() == old(self).threshold(),
    {
        self.index.insert(id, source_hash, fragment_count, fragment)
    }

    /// Reads a fragment, counting the read when it is held.
    pub fn get(&mut self, id: FragmentId) -> (r: Option<&T>)
        requires
            old(self).held().entries().contains_key(id) ==> reads_of(old(self).reads(), id) < usize::MAX,
        ensures
            final(self).held() == old(self).held(),
            final(self).cap() == old(self).cap(),
            final(self).threshold() == old(self).threshold(),
            match r {
                Some(f) => {
                    &&& old(self).held().entries().contains_key(id)
                    &&& *f == old(self).held().entries()[id].fragment
                    &&& final(self).reads() == old(self).reads().insert(id, (reads_of(old(self).reads(), id) + 1) as usize)
                },
                None => {
                    &&& !old(self).held().entries().contains_key(id)
                    &&& final(self).reads() == old(self).reads()
                },
            },
    {
        match self.index.get(id) {
            Some(f) => {
                let n: usize = match self.access_count.get(&id) {
                    Some(c) => *c,
                    None => 0,
                };
                self.access_count.insert(id, n + 1);
                Some(f)
            },
            None => None,
        }
    }

    /// The fragments of a source held here.
    pub fn get_by_source(&self, source_hash: u64) -> (r: Vec<&T>)
        ensures
            ({
                let e = self.held().entries();
                let ids = present_ids(e, group_of(self.held().groups(), source_hash));
                &&& r@.len() == ids.len()
                &&& forall|i: int| 0 <= i < ids.len() ==> *r@[i] == e[ids[i]].fragment
            }),
    {
        self.index.get_by_source(source_hash)
    }

    /// Drops a fragment and its read count.
    pub fn remove(&mut self, id: FragmentId) -> (r: Option<T>)
        ensures
            final(self).reads() == old(self).reads().remove(id),
            final(self).cap() == old(self).cap(),
            final(self).threshold() == old(self).threshold(),
            final(self).held().next() == old(self).held().next(),
            !old(self).held().entries().contains_key(id) ==> {
                &&& r is None
                &&& final(self).held().entries() == old(self).held().entries()
                &&& final(self).held().groups() == old(self).held().groups()
            },
            old(self).held().entries().contains_key(id) ==> {
                let e = old(self).held().entries();
                &&& r == Some(e[id].fragment)
                &&& final(self).held().entries() == e.remove(id)
                &&& final(self).held().groups() == groups_without(old(self).held().groups(), e[id].source_hash, id)
            },
    {
        self.access_count.remove(&id);
        self.index.remove(id)
    }

    /// Whether a fragment was read at least as often as the promotion
    /// threshold.
    pub fn should_promote(&self, id: FragmentId) -> (r: bool)
        ensures
            r == (reads_of(self.reads(), id) >= self.threshold()),
    {
        let n: usize = match self.access_count.get(&id) {
            Some(c) => *c,
            None => 0,
        };
        n >= self.promote_threshold
    }

    /// How often a fragment was read.
    pub fn read_count(&self, id: FragmentId) -> (r: usize)
        ensures
            r == reads_of(self.reads(), id),
    {
        match self.access_count.get(&id) {
            Some(c) => *c,
            None => 0,
        }
    }

    pub fn is_full(&self) -> (r: bool)
        ensures
            r == (self.held().entries().len() >= self.cap()),
    {
        self.index.len() >= self.capacity
    }

    pub fn len(&self) -> (r: usize)
        ensures
            r == self.held().entries().len(),
    {
        self.index.len()
    }

    /// Gives up the coldest fragment held: one read least often among those
    /// with a read count, or, when none has one, some fragment held.
    /// Nothing when the tier is empty.
    pub fn evict_coldest(&mut self) -> (r: Option<T>)
        ensures
            final(self).cap() == old(self).cap(),
            final(self).threshold() == old(self).threshold(),
            final(self).held().next() == old(self).held().next(),
            old(self).held().entries().len() == 0 ==> {
                &&& r is None
                &&& final(self).held() == old(self).held()
                &&& final(self).reads() == old(self).reads()
            },
            old(self).held().entries().len() > 0 ==> exists|k: FragmentId| #![trigger old(self).held().entries()[k]] {
                let e = old(self).held().entries();
                let a = old(self).reads();
                &&& e.contains_key(k)
                &&& r == Some(e[k].fragment)
                &&& final(self).held().entries() == e.remove(k)
                &&& final(self).held().groups() == groups_without(old(self).held().groups(), e[k].source_hash, k)
                &&& final(self).reads() == a.remove(k)
                &&& (exists|j: FragmentId| a.contains_key(j) && e.contains_key(j)) ==> {
                    &&& a.contains_key(k)
                    &&& forall|j: FragmentId| #![trigger a[j]] a.contains_key(j) && e.contains_key(j) ==> a[k] <= a[j]
                }
            },
    {
        let ghost e = self.index.entries();
        let ghost a = self.access_count@;
        if self.index.len() == 0 {
            return None;
        }
        let mut best: Option<(FragmentId, usize)> = None;
        {
            let m = &self.access_count;
            let ghost g = vstd::std_specs::hash::spec_hash_map_iter(m).remaining();
            for pair in it: m.iter()
                invariant
                    it.seq() == g,
                    m@ == a,
                    self.index.entries() == e,
                    forall|i: int| #![trigger g[i]] 0 <= i < g.len() ==> a.contains_key(*g[i].0) && a[*g[i].0] == *g[i].1,
                    match best {
                        Some((b, bc)) => {
                            &&& a.contains_key(b)
                            &&& e.contains_key(b)
                            &&& a[b] == bc
                            &&& forall|i: int| #![trigger g[i]] 0 <= i < it.index() && e.contains_key(*g[i].0) ==> bc <= *g[i].1
                        },
                        None => forall|i: int| #![trigger g[i]] 0 <= i < it.index() ==> !e.contains_key(*g[i].0),
                    },
            {
                proof {
                    assert(g[it.index() as int] == pair);
                }
                let id = *pair.0;
                let cnt = *pair.1;
                if self.index.get(id).is_some() {
                    match best {
                        None => {
                            best = Some((id, cnt));
                        },
                        Some((_, bc)) => {
                            if cnt < bc {
                                best = Some((id, cnt));
                            }
                        },
                    }
                }
            }
            proof {
                assert forall|j: FragmentId| a.contains_key(j) implies exists|i: int| 0 <= i < g.len() && *g[i].0 == j by {
                    assert(g.contains((&j, &a[j])));
                    let i = choose|i: int| 0 <= i < g.len() && g[i] == (&j, &a[j]);
                    assert(*g[i].0 == j);
                }
                match best {
                    Some((b, bc)) => {
                        assert forall|j: FragmentId| #![trigger a[j]] a.contains_key(j) && e.contains_key(j) implies a[b] <= a[j] by {
                            let i = choose|i: int| 0 <= i < g.len() && *g[i].0 == j;
                            assert(g[i].0 == &j);
                        }
                    },
                    None => {
                        assert forall|j: FragmentId| a.contains_key(j) implies !e.contains_key(j) by {
                            let i = choose|i: int| 0 <= i < g.len() && *g[i].0 == j;
                            assert(g[i].0 == &j);
                        }
                    },
                }
            }
        }
        match best {
            Some((b, _)) => {
                self.access_count.remove(&b);
                let r = self.index.remove(b);
                proof {
                    assert(e.contains_key(b));
                }
                r
            },
            None => {
                let ids = self.index.all_ids();
                if ids.len() == 0 {
                    return None;
                }
                let k = ids[0];
                assert(e.contains_key(k));
                assert(!a.contains_key(k));
                assert(a.remove(k) =~= a);
                self.index.remove(k)
            },
        }
    }

    /// The fragment counts of a source held here (see
    /// `HolographicIndex::integrity_counts`).
    pub fn integrity_counts(&self, source_hash: u64) -> (r: (u32, u32))
        ensures
            ({
                let e = self.held().entries();
                let ids = present_ids(e, group_of(self.held().groups(), source_hash));
                &&& r.0 == if ids.len() > 0 { e[ids[0]].fragment_count } else { 0 }
                &&& r.1 == ids.len() as u32
            }),
    {
        self.index.integrity_counts(source_hash)
    }

    /// Every fragment held.
    pub fn all_fragments(&self) -> (r: Vec<&T>)
        ensures
            r@.len() == self.held().entries().len(),
            exists|ks: Seq<FragmentId>| {
                &&& ks.no_duplicates()
                &&& ks.len() == r@.len()
                &&& forall|k: FragmentId| #[trigger] self.held().entries().contains_key(k) <==> ks.contains(k)
                &&& forall|i: int| 0 <= i < ks.len() ==> *r@[i] == self.held().entries()[ks[i]].fragment
            },
    {
        self.index.all_fragments()
    }

    /// Every source with fragments held.
    pub fn all_source_hashes(&self) -> (r: Vec<u64>)
        ensures
            r@.no_duplicates(),
            forall|s: u64| #[trigger] self.held().groups().contains_key(s) <==> r@.contains(s),
    {
        self.index.all_source_hashes()
    }
}

} // verus!
