//! Fragments added in segments of a bounded size: the index of fragments,
//! and the number of the segment being filled and how full it is.
use vstd::prelude::*;
use crate::index::{HolographicIndex, IndexEntry, group_push, group_of, present_ids, batch_entries, batch_groups,
    batch_next};
use crate::types::FragmentId;

verus! {

/// The segment and its fill after one more fragment: a full segment
/// (`fill >= limit`) is left for the next one, which then holds one.
pub open spec fn seg_step(seg: int, fill: int, limit: int) -> (int, int) {
    if fill >= limit {
        (seg + 1, 1)
    } else {
        (seg, fill + 1)
    }
}

/// The segment and its fill after `n` more fragments.
pub open spec fn seg_after(seg: int, fill: int, limit: int, n: nat) -> (int, int)
    decreases n,
{
    if n == 0 {
        (seg, fill)
    } else {
        let p = seg_after(seg, fill, limit, (n - 1) as nat);
        seg_step(p.0, p.1, limit)
    }
}

/// The segment number never goes down as fragments are added.
pub proof fn lemma_seg_after_monotone(seg: int, fill: int, limit: int, k: nat, n: nat)
    requires
        k <= n,
    ensures
        seg_after(seg, fill, limit, k).0 <= seg_after(seg, fill, limit, n).0,
    decreases n,
{
    if k < n {
        lemma_seg_after_monotone(seg, fill, limit, k, (n - 1) as nat);
    }
}

/// The index of fragments, with the segment being filled.
pub struct SegmentManager<T> {
    index: HolographicIndex<T>,
    current_segment_id: u32,
    segment_fragment_count: u32,
    max_fragments_per_segment: u32,
}

impl<T> SegmentManager<T> {
    /// The fragments added so far.
    pub closed spec fn store(&self) -> HolographicIndex<T> {
        self.index
    }

    /// The number of the segment being filled.
    pub closed spec fn segment(&self) -> u32 {
        self.current_segment_id
    }

    /// How many fragments the current segment holds.
    pub closed spec fn fill(&self) -> u32 {
        self.segment_fragment_count
    }

    /// The most fragments a segment holds.
    pub closed spec fn limit(&self) -> u32 {
        self.max_fragments_per_segment
    }

    pub fn new(max_fragments_per_segment: u32) -> (r: Self)
        ensures
            r.segment() == 0,
            r.fill() == 0,
            r.limit() == max_fragments_per_segment,
            r.store().entries() == Map::<FragmentId, IndexEntry<T>>::empty(),
            r.store().groups() == Map::<u64, Seq<FragmentId>>::empty(),
            r.store().next() == 1,
    {
        SegmentManager {
            index: HolographicIndex::new(),
            current_segment_id: 0,
            segment_fragment_count: 0,
            max_fragments_per_segment,
        }
    }

    /// Adds a fragment to the index (as `HolographicIndex::insert`), moving
    /// on to the next segment when the current one is full.
    pub fn add_fragment(&mut self, id: FragmentId, source_hash: u64, fragment_count: u32, fragment: T) -> (r: FragmentId)
        requires
            id < u64::MAX,
            old(self).fill() >= old(self).limit() ==> old(self).segment() < u32::MAX,
        ensures
            r == id,
            (final(self).segment() as int, final(self).fill() as int)
                == seg_step(old(self).segment() as int, old(self).fill() as int, old(self).limit() as int),
            final(self).limit() == old(self).limit(),
            final(self).store().entries() == old(self).store().entries().insert(
                id,
                IndexEntry { source_hash, fragment_count, fragment },
            ),
            final(self).store().groups() == group_push(old(self).store().groups(), source_hash, id),
            final(self).store().next() == if id >= old(self).store().next() {
                (id + 1) as u64
            } else {
                old(self).store().next()
            },
    {
        if self.segment_fragment_count >= self.max_fragments_per_segment {
            self.current_segment_id = self.current_segment_id + 1;
            self.segment_fragment_count = 0;
        }
        self.segment_fragment_count = self.segment_fragment_count + 1;
        self.index.insert(id, source_hash, fragment_count, fragment)
    }

    /// Adds fragments in order (see `add_fragment`), giving their ids.
    pub fn add_fragments(&mut self, items: Vec<(FragmentId, u64, u32, T)>) -> (r: Vec<FragmentId>)
        requires
            forall|i: int| 0 <= i < items@.len() ==> (#[trigger] items@[i]).0 < u64::MAX,
            seg_after(old(self).segment() as int, old(self).fill() as int, old(self).limit() as int, items@.len()).0
                <= u32::MAX,
        ensures
            r@ == items@.map_values(|it: (FragmentId, u64, u32, T)| it.0),
            (final(self).segment() as int, final(self).fill() as int) == seg_after(
                old(self).segment() as int,
                old(self).fill() as int,
                old(self).limit() as int,
                items@.len(),
            ),
            final(self).limit() == old(self).limit(),
            final(self).store().entries() == batch_entries(old(self).store().entries(), items@),
            final(self).store().groups() == batch_groups(old(self).store().groups(), items@),
            final(self).store().next() == batch_next(old(self).store().next(), items@),
    {
        let ghost all = items@;
        let ghost (s0, f0, l0) = (self.segment() as int, self.fill() as int, self.limit() as int);
        let ghost e0 = self.store().entries();
        let ghost g0 = self.store().groups();
        let ghost n0 = self.store().next();
        let mut rest = items;
        let mut ids: Vec<FragmentId> = Vec::new();
        let ghost mut k: int = 0;
        proof {
            assert(all.take(0) =~= Seq::<(FragmentId, u64, u32, T)>::empty());
            assert(all.skip(0) =~= all);
        }
        while rest.len() > 0
            invariant
                0 <= k <= all.len(),
                rest@ == all.skip(k),
                forall|i: int| 0 <= i < all.len() ==> (#[trigger] all[i]).0 < u64::MAX,
                seg_after(s0, f0, l0, all.len()).0 <= u32::MAX,
                self.limit() == l0,
                (self.segment() as int, self.fill() as int) == seg_after(s0, f0, l0, k as nat),
                ids@ == all.take(k).map_values(|it: (FragmentId, u64, u32, T)| it.0),
                self.store().entries() == batch_entries(e0, all.take(k)),
                self.store().groups() == batch_groups(g0, all.take(k)),
                self.store().next() == batch_next(n0, all.take(k)),
            decreases rest@.len(),
        {
            let (id, source_hash, fragment_count, fragment) = rest.remove(0);
            proof {
                assert(all[k] == (id, source_hash, fragment_count, fragment));
                lemma_seg_after_monotone(s0, f0, l0, (k + 1) as nat, all.len());
            }
            let got = self.add_fragment(id, source_hash, fragment_count, fragment);
            ids.push(got);
            proof {
                assert(all.take(k + 1).drop_last() =~= all.take(k));
                assert(all.skip(k + 1) =~= all.skip(k).drop_first());
                assert(ids@ =~= all.take(k + 1).map_values(|it: (FragmentId, u64, u32, T)| it.0));
                k = k + 1;
            }
        }
        assert(all.take(k) =~= all);
        ids
    }

    /// The fragment with this id.
    pub fn get(&self, id: FragmentId) -> (r: Option<&T>)
        ensures
            match r {
                Some(f) => self.store().entries().contains_key(id) && *f == self.store().entries()[id].fragment,
                None => !self.store().entries().contains_key(id),
            },
    {
        self.index.get(id)
    }

    /// The fragments of a source still held, in order of insertion.
    pub fn get_by_source(&self, source_hash: u64) -> (r: Vec<&T>)
        ensures
            ({
                let ids = present_ids(self.store().entries(), group_of(self.store().groups(), source_hash));
                &&& r@.len() == ids.len()
                &&& forall|i: int| 0 <= i < ids.len() ==> *r@[i] == self.store().entries()[ids[i]].fragment
            }),
    {
        self.index.get_by_source(source_hash)
    }

    pub fn current_segment(&self) -> (r: u32)
        ensures
            r == self.segment(),
    {
        self.current_segment_id
    }

    /// Whether the current segment is full, so that the next fragment starts
    /// a new one.
    pub fn segment_is_full(&self) -> (r: bool)
        ensures
            r == (self.fill() >= self.limit()),
    {
        self.segment_fragment_count >= self.max_fragments_per_segment
    }

    pub fn total_fragments(&self) -> (r: usize)
        ensures
            r == self.store().entries().len(),
    {
        self.index.len()
    }

    pub fn index(&self) -> (r: &HolographicIndex<T>)
        ensures
            *r == self.store(),
    {
        &self.index
    }

    pub fn index_mut(&mut self) -> (r: &mut HolographicIndex<T>)
        ensures
            *r == old(self).store(),
            final(self).store() == *final(r),
            final(self).segment() == old(self).segment(),
            final(self).fill() == old(self).fill(),
            final(self).limit() == old(self).limit(),
    {
        &mut self.index
    }
}

impl<T> Default for SegmentManager<T> {
    /// Segments of 10000 fragments.
    fn default() -> (r: Self)
        ensures
            r.segment() == 0,
            r.fill() == 0,
            r.limit() == 10000,
            r.store().entries() == Map::<FragmentId, IndexEntry<T>>::empty(),
            r.store().groups() == Map::<u64, Seq<FragmentId>>::empty(),
            r.store().next() == 1,
    {
        Self::new(10000)
    }
}

} // verus!
