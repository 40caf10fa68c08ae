//! The in-memory index of fragments: by id, and by source in order of
//! insertion. It holds each fragment as an opaque value together with
//! what it reads of it (the source hash and the source's fragment count).
use vstd::prelude::*;
use std::collections::HashMap;
use vstd::std_specs::iter::IteratorSpec;
use crate::types::FragmentId;

verus! {

broadcast use vstd::std_specs::hash::group_hash_axioms;

/// A fragment as the index keeps it.
#[derive(Debug, Clone)]
pub struct IndexEntry<T> {
    pub source_hash: u64,
    pub fragment_count: u32,
    pub fragment: T,
}

/// The groups after `id` is appended to the group of `source`.
pub open spec fn group_push(g: Map<u64, Seq<FragmentId>>, source: u64, id: FragmentId) -> Map<u64, Seq<FragmentId>> {
    g.insert(source, (if g.contains_key(source) { g[source] } else { Seq::empty() }).push(id))
}

/// `ids` without `id`.
pub open spec fn without_id(ids: Seq<FragmentId>, id: FragmentId) -> Seq<FragmentId>
    decreases ids.len(),
{
    if ids.len() == 0 {
        Seq::empty()
    } else if ids.last() == id {
        without_id(ids.drop_last(), id)
    } else {
        without_id(ids.drop_last(), id).push(ids.last())
    }
}

/// The groups after `id` leaves the group of `source` (a group left empty
/// is dropped).
pub open spec fn groups_without(g: Map<u64, Seq<FragmentId>>, source: u64, id: FragmentId) -> Map<u64, Seq<FragmentId>> {
    if !g.contains_key(source) {
        g
    } else if without_id(g[source], id).len() == 0 {
        g.remove(source)
    } else {
        g.insert(source, without_id(g[source], id))
    }
}

/// The ids, in order, that the index holds.
pub open spec fn present_ids<T>(e: Map<FragmentId, IndexEntry<T>>, ids: Seq<FragmentId>) -> Seq<FragmentId>
    decreases ids.len(),
{
    if ids.len() == 0 {
        Seq::empty()
    } else if e.contains_key(ids.last()) {
        present_ids(e, ids.drop_last()).push(ids.last())
    } else {
        present_ids(e, ids.drop_last())
    }
}

/// The group of a source, empty when it has none.
pub open spec fn group_of(g: Map<u64, Seq<FragmentId>>, source: u64) -> Seq<FragmentId> {
    if g.contains_key(source) { g[source] } else { Seq::empty() }
}

/// Fragments by id, their ids grouped by source, and the next free id.
pub struct HolographicIndex<T> {
    fragments: HashMap<FragmentId, IndexEntry<T>>,
    source_groups: HashMap<u64, Vec<FragmentId>>,
    next_id: FragmentId,
}

impl<T> HolographicIndex<T> {
    /// The fragments by id.
    pub closed spec fn entries(&self) -> Map<FragmentId, IndexEntry<T>> {
        self.fragments@
    }

    /// The ids of each source, in order of insertion.
    pub closed spec fn groups(&self) -> Map<u64, Seq<FragmentId>> {
        self.source_groups@.map_values(|v: Vec<FragmentId>| v@)
    }

    /// One past the largest id inserted (at least 1).
    pub closed spec fn next(&self) -> FragmentId {
        self.next_id
    }

    pub fn new() -> (r: Self)
        ensures
            r.entries() == Map::<FragmentId, IndexEntry<T>>::empty(),
            r.groups() == Map::<u64, Seq<FragmentId>>::empty(),
            r.next() == 1,
    {
        let r = HolographicIndex { fragments: HashMap::new(), source_groups: HashMap::new(), next_id: 1 };
        assert(r.groups() =~= Map::<u64, Seq<FragmentId>>::empty());
        r
    }

    /// Adds a fragment under its id (replacing one with that id) and
    /// appends the id to its source's group.
    pub fn insert(&mut self, id: FragmentId, source_hash: u64, fragment_count: u32, fragment: T) -> (r: FragmentId)
        requires
            id < u64::MAX,
        ensures
            r == id,
            final(self).entries() == old(self).entries().insert(
                id,
                IndexEntry { source_hash, fragment_count, fragment },
            ),
            final(self).groups() == group_push(old(self).groups(), source_hash, id),
            final(self).next() == if id >= old(self).next() { (id + 1) as u64 } else { old(self).next() },
    {
        let ghost g0 = self.groups();
        self.fragments.insert(id, IndexEntry { source_hash, fragment_count, fragment });
        let ghost before = self.source_groups@;
        let mut ids = match self.source_groups.remove(&source_hash) {
            Some(v) => v,
            None => Vec::new(),
        };
        assert(ids@ == group_of(g0, source_hash));
        ids.push(id);
        let ghost mid = self.source_groups@;
        self.source_groups.insert(source_hash, ids);
        assert(self.groups() =~= group_push(g0, source_hash, id)) by {
            assert(mid == before.remove(source_hash));
        }
        if id >= self.next_id {
            self.next_id = id + 1;
        }
        id
    }

    /// Adds fragments in order (see `insert`), giving their ids.
    pub fn insert_batch(&mut self, items: Vec<(FragmentId, u64, u32, T)>) -> (r: Vec<FragmentId>)
        requires
            forall|i: int| 0 <= i < items@.len() ==> (#[trigger] items@[i]).0 < u64::MAX,
        ensures
            r@ == items@.map_values(|it: (FragmentId, u64, u32, T)| it.0),
            final(self).entries() == batch_entries(old(self).entries(), items@),
            final(self).groups() == batch_groups(old(self).groups(), items@),
            final(self).next() == batch_next(old(self).next(), items@),
    {
        let ghost all = items@;
        let mut rest = items;
        let mut ids: Vec<FragmentId> = Vec::new();
        let ghost mut k: int = 0;
        proof {
            assert(all.take(0) =~= Seq::<(FragmentId, u64, u32, T)>::empty());
            assert(all.skip(0) =~= all);
        }
        while rest.len() > 0
            invariant
                0 <= k <= all.len(),
                rest@ == all.skip(k),
                forall|i: int| 0 <= i < all.len() ==> (#[trigger] all[i]).0 < u64::MAX,
                ids@ == all.take(k).map_values(|it: (FragmentId, u64, u32, T)| it.0),
                self.entries() == batch_entries(old(self).entries(), all.take(k)),
                self.groups() == batch_groups(old(self).groups(), all.take(k)),
                self.next() == batch_next(old(self).next(), all.take(k)),
            decreases rest@.len(),
        {
            let (id, source_hash, fragment_count, fragment) = rest.remove(0);
            proof {
                assert(all[k] == (id, source_hash, fragment_count, fragment));
            }
            let got = self.insert(id, source_hash, fragment_count, fragment);
            ids.push(got);
            proof {
                assert(all.take(k + 1).drop_last() =~= all.take(k));
                assert(all.skip(k + 1) =~= all.skip(k).drop_first());
                assert(ids@ =~= all.take(k + 1).map_values(|it: (FragmentId, u64, u32, T)| it.0));
                k = k + 1;
            }
        }
        assert(all.take(k) =~= all);
        ids
    }

    /// The fragment with this id.
    pub fn get(&self, id: FragmentId) -> (r: Option<&T>)
        ensures
            match r {
                Some(f) => self.entries().contains_key(id) && *f == self.entries()[id].fragment,
                None => !self.entries().contains_key(id),
            },
    {
        match self.fragments.get(&id) {
            Some(e) => Some(&e.fragment),
            None => None,
        }
    }

    /// The fragments of a source still held, in order of insertion.
    pub fn get_by_source(&self, source_hash: u64) -> (r: Vec<&T>)
        ensures
            ({
                let ids = present_ids(self.entries(), group_of(self.groups(), source_hash));
                &&& r@.len() == ids.len()
                &&& forall|i: int| 0 <= i < ids.len() ==> *r@[i] == self.entries()[ids[i]].fragment
            }),
    {
        let mut out: Vec<&T> = Vec::new();
        match self.source_groups.get(&source_hash) {
            Some(ids) => {
                let ghost g = ids@;
                assert(g == group_of(self.groups(), source_hash));
                let n = ids.len();
                let mut i: usize = 0;
                while i < n
                    invariant
                        n == g.len(),
                        g == ids@,
                        i <= n,
                        ({
                            let p = present_ids(self.entries(), g.take(i as int));
                            &&& out@.len() == p.len()
                            &&& forall|j: int| 0 <= j < p.len() ==> *out@[j] == self.entries()[p[j]].fragment
                        }),
                    decreases n - i,
                {
                    assert(g.take(i + 1).drop_last() =~= g.take(i as int));
                    match self.fragments.get(&ids[i]) {
                        Some(e) => {
                            out.push(&e.fragment);
                        },
                        None => {},
                    }
                    i = i + 1;
                }
                assert(g.take(n as int) =~= g);
            },
            None => {},
        }
        out
    }

    /// Removes the fragment with this id, and its id from its source's
    /// group (dropping a group left empty).
    pub fn remove(&mut self, id: FragmentId) -> (r: Option<T>)
        ensures
            final(self).next() == old(self).next(),
            !old(self).entries().contains_key(id) ==> {
                &&& r is None
                &&& final(self).entries() == old(self).entries()
                &&& final(self).groups() == old(self).groups()
            },
            old(self).entries().contains_key(id) ==> {
                let s = old(self).entries()[id].source_hash;
                let g = old(self).groups();
                &&& r == Some(old(self).entries()[id].fragment)
                &&& final(self).entries() == old(self).entries().remove(id)
                &&& final(self).groups() == groups_without(g, s, id)
            },
    {
        let ghost g0 = self.groups();
        let e = match self.fragments.remove(&id) {
            Some(e) => e,
            None => {
                return None;
            },
        };
        let s = e.source_hash;
        let ghost before = self.source_groups@;
        match self.source_groups.remove(&s) {
            Some(ids) => {
                assert(ids@ == g0[s]);
                let mut kept: Vec<FragmentId> = Vec::new();
                let n = ids.len();
                let mut i: usize = 0;
                while i < n
                    invariant
                        n == ids@.len(),
                        i <= n,
                        kept@ == without_id(ids@.take(i as int), id),
                    decreases n - i,
                {
                    assert(ids@.take(i + 1).drop_last() =~= ids@.take(i as int));
                    if ids[i] != id {
                        kept.push(ids[i]);
                    }
                    i = i + 1;
                }
                assert(ids@.take(n as int) =~= ids@);
                if kept.len() > 0 {
                    self.source_groups.insert(s, kept);
                    assert(self.groups() =~= g0.insert(s, without_id(g0[s], id)));
                } else {
                    assert(self.groups() =~= g0.remove(s));
                }
            },
            None => {
                assert(self.groups() =~= g0);
            },
        }
        Some(e.fragment)
    }

    /// How many fragments the source was cut into (as its first fragment
    /// held says; 0 when none is held), and how many of them are held.
    pub fn integrity_counts(&self, source_hash: u64) -> (r: (u32, u32))
        ensures
            ({
                let ids = present_ids(self.entries(), group_of(self.groups(), source_hash));
                &&& r.0 == if ids.len() > 0 { self.entries()[ids[0]].fragment_count } else { 0 }
                &&& r.1 == ids.len() as u32
            }),
    {
        let mut total: u32 = 0;
        let mut count: usize = 0;
        match self.source_groups.get(&source_hash) {
            Some(ids) => {
                let ghost g = ids@;
                let n = ids.len();
                let mut i: usize = 0;
                while i < n
                    invariant
                        n == g.len(),
                        g == ids@,
                        i <= n,
                        count == present_ids(self.entries(), g.take(i as int)).len(),
                        count <= i,
                        total == if count > 0 { self.entries()[present_ids(self.entries(), g.take(i as int))[0]].fragment_count } else { 0 },
                    decreases n - i,
                {
                    assert(g.take(i + 1).drop_last() =~= g.take(i as int));
                    match self.fragments.get(&ids[i]) {
                        Some(e) => {
                            if count == 0 {
                                total = e.fragment_count;
                            }
                            count = count + 1;
                        },
                        None => {},
                    }
                    i = i + 1;
                }
                assert(g.take(n as int) =~= g);
            },
            None => {},
        }
        (total, count as u32)
    }

    pub fn len(&self) -> (r: usize)
        ensures
            r == self.entries().len(),
    {
        self.fragments.len()
    }

    pub fn is_empty(&self) -> (r: bool)
        ensures
            r == (self.entries().len() == 0),
    {
        self.fragments.len() == 0
    }

    /// Every fragment held, each once, in the map's order.
    pub fn all_fragments(&self) -> (r: Vec<&T>)
        ensures
            r@.len() == self.entries().len(),
            exists|ks: Seq<FragmentId>| {
                &&& ks.no_duplicates()
                &&& ks.len() == r@.len()
                &&& forall|k: FragmentId| #[trigger] self.entries().contains_key(k) <==> ks.contains(k)
                &&& forall|i: int| 0 <= i < ks.len() ==> *r@[i] == self.entries()[ks[i]].fragment
            },
    {
        let m = &self.fragments;
        let mut out: Vec<&T> = Vec::new();
        let ghost mut ks: Seq<FragmentId> = Seq::empty();
        let ghost g = vstd::std_specs::hash::spec_hash_map_iter(m).remaining();
        for pair in it: m.iter()
            invariant
                it.seq() == g,
                out@.len() == it.index(),
                ks.len() == it.index(),
                forall|i: int| 0 <= i < it.index() ==> ks[i] == *it.seq()[i].0 && *out@[i] == (*it.seq()[i].1).fragment,
        {
            out.push(&pair.1.fragment);
            proof {
                ks = ks.push(*pair.0);
            }
        }
        proof {
            assert(ks.len() == g.len());
            assert(g.no_duplicates());
            assert forall|i: int| 0 <= i < ks.len() implies *out@[i] == m@[ks[i]].fragment && m@.contains_key(ks[i]) by {
                assert(m@.contains_key(*g[i].0));
            }
            assert forall|k: FragmentId| #[trigger] m@.contains_key(k) <==> ks.contains(k) by {
                if m@.contains_key(k) {
                    assert(g.contains((&k, &m@[k])));
                    let i = choose|i: int| 0 <= i < g.len() && g[i] == (&k, &m@[k]);
                    assert(ks[i] == k);
                }
                if ks.contains(k) {
                    let i = choose|i: int| 0 <= i < ks.len() && ks[i] == k;
                    assert(m@.contains_key(*g[i].0));
                }
            }
            assert(ks.no_duplicates()) by {
                assert forall|i: int, j: int| 0 <= i < ks.len() && 0 <= j < ks.len() && i != j implies ks[i] != ks[j] by {
                    assert(m@.contains_key(*g[i].0) && m@[*g[i].0] == *g[i].1);
                    assert(m@.contains_key(*g[j].0) && m@[*g[j].0] == *g[j].1);
                    if ks[i] == ks[j] {
                        assert(g[i] == g[j]);
                    }
                }
            }
        }
        out
    }

    /// Every id held, each once, in the map's order.
    pub fn all_ids(&self) -> (r: Vec<FragmentId>)
        ensures
            r@.no_duplicates(),
            r@.len() == self.entries().len(),
            forall|k: FragmentId| #[trigger] self.entries().contains_key(k) <==> r@.contains(k),
    {
        let m = &self.fragments;
        let mut out: Vec<FragmentId> = Vec::new();
        let ghost g = vstd::std_specs::hash::spec_hash_map_iter(m).remaining();
        for pair in it: m.iter()
            invariant
                it.seq() == g,
                out@.len() == it.index(),
                forall|i: int| 0 <= i < it.index() ==> out@[i] == *it.seq()[i].0,
        {
            out.push(*pair.0);
        }
        proof {
            assert(out@.len() == g.len());
            assert(g.no_duplicates());
            assert forall|k: FragmentId| #[trigger] m@.contains_key(k) <==> out@.contains(k) by {
                if m@.contains_key(k) {
                    assert(g.contains((&k, &m@[k])));
                    let i = choose|i: int| 0 <= i < g.len() && g[i] == (&k, &m@[k]);
                    assert(out@[i] == k);
                }
                if out@.contains(k) {
                    let i = choose|i: int| 0 <= i < out@.len() && out@[i] == k;
                    assert(m@.contains_key(*g[i].0));
                }
            }
            assert(out@.no_duplicates()) by {
                assert forall|i: int, j: int| 0 <= i < out@.len() && 0 <= j < out@.len() && i != j implies out@[i] != out@[j] by {
                    assert(m@.contains_key(*g[i].0) && m@[*g[i].0] == *g[i].1);
                    assert(m@.contains_key(*g[j].0) && m@[*g[j].0] == *g[j].1);
                    if out@[i] == out@[j] {
                        assert(g[i] == g[j]);
                    }
                }
            }
        }
        out
    }

    /// Every source with a group, each once, in the map's order.
    pub fn all_source_hashes(&self) -> (r: Vec<u64>)
        ensures
            r@.no_duplicates(),
            forall|s: u64| #[trigger] self.groups().contains_key(s) <==> r@.contains(s),
    {
        let m = &self.source_groups;
        let mut out: Vec<u64> = Vec::new();
        let ghost g = vstd::std_specs::hash::spec_hash_map_iter(m).remaining();
        for pair in it: m.iter()
            invariant
                it.seq() == g,
                out@.len() == it.index(),
                forall|i: int| 0 <= i < it.index() ==> out@[i] == *it.seq()[i].0,
        {
            out.push(*pair.0);
        }
        proof {
            assert(out@.len() == g.len());
            assert(g.no_duplicates());
            assert forall|s: u64| #[trigger] self.groups().contains_key(s) <==> out@.contains(s) by {
                if m@.contains_key(s) {
                    assert(g.contains((&s, &m@[s])));
                    let i = choose|i: int| 0 <= i < g.len() && g[i] == (&s, &m@[s]);
                    assert(out@[i] == s);
                }
                if out@.contains(s) {
                    let i = choose|i: int| 0 <= i < out@.len() && out@[i] == s;
                    assert(m@.contains_key(*g[i].0));
                }
            }
            assert(out@.no_duplicates()) by {
                assert forall|i: int, j: int| 0 <= i < out@.len() && 0 <= j < out@.len() && i != j implies out@[i] != out@[j] by {
                    assert(m@.contains_key(*g[i].0) && m@[*g[i].0] == *g[i].1);
                    assert(m@.contains_key(*g[j].0) && m@[*g[j].0] == *g[j].1);
                    if out@[i] == out@[j] {
                        assert(g[i] == g[j]);
                    }
                }
            }
        }
        out
    }
}

/// The fragments by id after inserting the items in order.
pub open spec fn batch_entries<T>(e: Map<FragmentId, IndexEntry<T>>, items: Seq<(FragmentId, u64, u32, T)>) -> Map<FragmentId, IndexEntry<T>>
    decreases items.len(),
{
    if items.len() == 0 {
        e
    } else {
        let it = items.last();
        batch_entries(e, items.drop_last()).insert(it.0, IndexEntry { source_hash: it.1, fragment_count: it.2, fragment: it.3 })
    }
}

/// The groups after inserting the items in order.
pub open spec fn batch_groups<T>(g: Map<u64, Seq<FragmentId>>, items: Seq<(FragmentId, u64, u32, T)>) -> Map<u64, Seq<FragmentId>>
    decreases items.len(),
{
    if items.len() == 0 {
        g
    } else {
        group_push(batch_groups(g, items.drop_last()), items.last().1, items.last().0)
    }
}

/// The next free id after inserting the items in order.
pub open spec fn batch_next<T>(n: FragmentId, items: Seq<(FragmentId, u64, u32, T)>) -> FragmentId
    decreases items.len(),
{
    if items.len() == 0 {
        n
    } else {
        let prev = batch_next(n, items.drop_last());
        if items.last().0 >= prev { (items.last().0 + 1) as u64 } else { prev }
    }
}

impl<T> Default for HolographicIndex<T> {
    fn default() -> (r: Self)
        ensures
            r.entries() == Map::<FragmentId, IndexEntry<T>>::empty(),
            r.groups() == Map::<u64, Seq<FragmentId>>::empty(),
            r.next() == 1,
    {
        Self::new()
    }
}

} // verus!
