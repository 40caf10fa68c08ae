//! The access log behind adaptive redundancy: how often and when each
//! fragment was read, on a clock that the caller advances.
use vstd::prelude::*;
use std::collections::HashMap;
use crate::types::FragmentId;

verus! {

broadcast use vstd::std_specs::hash::group_hash_axioms;

/// The count of `id` in `m`, 0 when it has none.
pub open spec fn count_of(m: Map<FragmentId, u64>, id: FragmentId) -> int {
    if m.contains_key(id) {
        m[id] as int
    } else {
        0
    }
}

/// How many times `id` occurs in `s`.
pub open spec fn occurrences(s: Seq<FragmentId>, id: FragmentId) -> nat
    decreases s.len(),
{
    if s.len() == 0 {
        0
    } else {
        occurrences(s.drop_last(), id) + if s.last() == id { 1nat } else { 0nat }
    }
}

/// The counts after one more access of each id of `s`, in order.
pub open spec fn counts_after(m: Map<FragmentId, u64>, s: Seq<FragmentId>) -> Map<FragmentId, u64>
    decreases s.len(),
{
    if s.len() == 0 {
        m
    } else {
        let p = counts_after(m, s.drop_last());
        p.insert(s.last(), (count_of(p, s.last()) + 1) as u64)
    }
}

/// The last-access times after each id of `s` is accessed at `now`.
pub open spec fn seen_after(m: Map<FragmentId, u64>, s: Seq<FragmentId>, now: u64) -> Map<FragmentId, u64>
    decreases s.len(),
{
    if s.len() == 0 {
        m
    } else {
        seen_after(m, s.drop_last(), now).insert(s.last(), now)
    }
}

/// Accesses add up: after a run of accesses an id's count is its count
/// before plus how often it occurs in the run.
pub proof fn lemma_counts_after(m: Map<FragmentId, u64>, s: Seq<FragmentId>, id: FragmentId)
    requires
        forall|x: FragmentId| count_of(m, x) + #[trigger] occurrences(s, x) <= u64::MAX,
    ensures
        count_of(counts_after(m, s), id) == count_of(m, id) + occurrences(s, id),
    decreases s.len(),
{
    if s.len() > 0 {
        let r = s.drop_last();
        assert forall|x: FragmentId| count_of(m, x) + #[trigger] occurrences(r, x) <= u64::MAX by {
            assert(occurrences(r, x) <= occurrences(s, x));
        }
        lemma_counts_after(m, r, id);
        lemma_counts_after(m, r, s.last());
    }
}

/// Occurrences in a prefix are at most those in the whole.
proof fn lemma_occurrences_prefix(s: Seq<FragmentId>, k: int, id: FragmentId)
    requires
        0 <= k <= s.len(),
    ensures
        occurrences(s.take(k), id) <= occurrences(s, id),
    decreases s.len() - k,
{
    if k < s.len() {
        assert(s.take(k + 1).drop_last() =~= s.take(k));
        lemma_occurrences_prefix(s, k + 1, id);
    } else {
        assert(s.take(k) =~= s);
    }
}

/// Access counts and last-access times per fragment, the total number of
/// accesses, and the current time in seconds.
pub struct AccessLog {
    access_counts: HashMap<FragmentId, u64>,
    last_access_time: HashMap<FragmentId, u64>,
    total_accesses: u64,
    now_secs: u64,
}

impl AccessLog {
    /// How often each fragment was accessed.
    pub closed spec fn counts(&self) -> Map<FragmentId, u64> {
        self.access_counts@
    }

    /// When each fragment was last accessed.
    pub closed spec fn seen(&self) -> Map<FragmentId, u64> {
        self.last_access_time@
    }

    pub closed spec fn total(&self) -> u64 {
        self.total_accesses
    }

    pub closed spec fn now(&self) -> u64 {
        self.now_secs
    }

    pub fn new() -> (r: Self)
        ensures
            r.counts() == Map::<FragmentId, u64>::empty(),
            r.seen() == Map::<FragmentId, u64>::empty(),
            r.total() == 0,
            r.now() == 0,
    {
        AccessLog { access_counts: HashMap::new(), last_access_time: HashMap::new(), total_accesses: 0, now_secs: 0 }
    }

    /// Counts one access of `fragment_id`, now.
    pub fn record_access(&mut self, fragment_id: FragmentId)
        requires
            count_of(old(self).counts(), fragment_id) < u64::MAX,
            old(self).total() < u64::MAX,
        ensures
            final(self).counts() == old(self).counts().insert(
                fragment_id,
                (count_of(old(self).counts(), fragment_id) + 1) as u64,
            ),
            final(self).seen() == old(self).seen().insert(fragment_id, old(self).now()),
            final(self).total() == old(self).total() + 1,
            final(self).now() == old(self).now(),
    {
        let c: u64 = match self.access_counts.get(&fragment_id) {
            Some(c) => *c,
            None => 0,
        };
        self.access_counts.insert(fragment_id, c + 1);
        self.total_accesses = self.total_accesses + 1;
        self.last_access_time.insert(fragment_id, self.now_secs);
    }

    /// Counts one access of each id, in order.
    pub fn record_accesses(&mut self, fragment_ids: &[FragmentId])
        requires
            forall|x: FragmentId| count_of(old(self).counts(), x) + #[trigger] occurrences(fragment_ids@, x) <= u64::MAX,
            old(self).total() + fragment_ids@.len() <= u64::MAX,
        ensures
            final(self).counts() == counts_after(old(self).counts(), fragment_ids@),
            final(self).seen() == seen_after(old(self).seen(), fragment_ids@, old(self).now()),
            final(self).total() == old(self).total() + fragment_ids@.len(),
            final(self).now() == old(self).now(),
    {
        let ghost c0 = self.counts();
        let ghost s0 = self.seen();
        let ghost t0 = self.total();
        let ghost all = fragment_ids@;
        let mut i: usize = 0;
        while i < fragment_ids.len()
            invariant
                all == fragment_ids@,
                i <= all.len(),
                forall|x: FragmentId| count_of(c0, x) + #[trigger] occurrences(all, x) <= u64::MAX,
                t0 + all.len() <= u64::MAX,
                self.counts() == counts_after(c0, all.take(i as int)),
                self.seen() == seen_after(s0, all.take(i as int), self.now()),
                self.total() == t0 + i,
                self.now() == old(self).now(),
            decreases all.len() - i,
        {
            let id = fragment_ids[i];
            proof {
                assert(all.take(i + 1).drop_last() =~= all.take(i as int));
                assert forall|x: FragmentId| count_of(c0, x) + #[trigger] occurrences(all.take(i as int), x)
                    <= u64::MAX by {
                    lemma_occurrences_prefix(all, i as int, x);
                }
                lemma_counts_after(c0, all.take(i as int), id);
                lemma_occurrences_prefix(all, i + 1, id);
                assert(occurrences(all.take(i + 1), id) == occurrences(all.take(i as int), id) + 1);
            }
            self.record_access(id);
            i += 1;
        }
        assert(all.take(i as int) =~= all);
    }

    /// Moves the clock on by `secs` seconds.
    pub fn advance_time(&mut self, secs: u64)
        requires
            old(self).now() + secs <= u64::MAX,
        ensures
            final(self).now() == old(self).now() + secs,
            final(self).counts() == old(self).counts(),
            final(self).seen() == old(self).seen(),
            final(self).total() == old(self).total(),
    {
        self.now_secs = self.now_secs + secs;
    }

    /// How often `fragment_id` was accessed (0 if never).
    pub fn access_count(&self, fragment_id: FragmentId) -> (r: u64)
        ensures
            r == count_of(self.counts(), fragment_id),
    {
        match self.access_counts.get(&fragment_id) {
            Some(c) => *c,
            None => 0,
        }
    }

    /// When `fragment_id` was last accessed (0 if never).
    pub fn last_access(&self, fragment_id: FragmentId) -> (r: u64)
        ensures
            r == count_of(self.seen(), fragment_id),
    {
        match self.last_access_time.get(&fragment_id) {
            Some(t) => *t,
            None => 0,
        }
    }

    /// Seconds since `fragment_id` was last accessed (since time 0 if never).
    pub fn elapsed_since(&self, fragment_id: FragmentId) -> (r: u64)
        ensures
            r == if self.now() >= count_of(self.seen(), fragment_id) {
                self.now() - count_of(self.seen(), fragment_id)
            } else {
                0
            },
    {
        let last = self.last_access(fragment_id);
        if self.now_secs >= last {
            self.now_secs - last
        } else {
            0
        }
    }

    pub fn total_accesses(&self) -> (r: u64)
        ensures
            r == self.total(),
    {
        self.total_accesses
    }

    pub fn now_secs(&self) -> (r: u64)
        ensures
            r == self.now(),
    {
        self.now_secs
    }

    /// How many fragments were accessed, and how many accesses in all.
    pub fn access_stats(&self) -> (r: (usize, u64))
        ensures
            r.0 == self.counts().len(),
            r.1 == self.total(),
    {
        (self.access_counts.len(), self.total_accesses)
    }
}

} // verus!
