//! The redundancy weaver's bookkeeping: which parity and redundant
//! fragments are woven from a set of fragments (their ids, metadata and
//! tags), and, from the fragments still available, which of them can
//! restore the missing ones and in what order.
use vstd::prelude::*;
use std::collections::HashSet;
use crate::text::dec;
use crate::tags::{
    tag_views, any_prefix, first_number, first_pair, all_pairs, any_prefix_exec, first_number_exec,
    first_pair_exec, all_pairs_exec, numbered, numbered_pair,
};
use crate::types::{FragmentId, FragmentMeta};

verus! {

broadcast use vstd::std_specs::hash::group_hash_axioms;

/// What the weaver reads of a fragment: its id, redundancy level and
/// metadata (the frequency data is left to the caller).
#[derive(Debug, Clone)]
pub struct FragmentInfo {
    pub id: FragmentId,
    pub redundancy_level: u8,
    pub metadata: FragmentMeta,
}

/// Weaves redundancy into fragment sets at a fixed level (at least 1).
#[derive(Debug, Clone, Copy)]
pub struct RedundancyWeaver {
    redundancy_level: u8,
}

/// How a woven fragment is made from the originals.
#[derive(Debug, Clone, Copy, PartialEq, Eq, Structural)]
pub enum WovenKind {
    /// A parity fragment over all originals at this level.
    Parity { level: u8 },
    /// The original at `base` combined with the one at `partner`.
    Redundant { level: u8, partner: usize },
}

/// A fragment to add: its kind, the original whose data and phase key it
/// starts from, its id and its metadata.
#[derive(Debug, Clone)]
pub struct WovenFragment {
    pub base: usize,
    pub kind: WovenKind,
    pub id: FragmentId,
    pub metadata: FragmentMeta,
}

/// The fragments to add: the parity fragments (level 1 first), then for each
/// level the redundant fragments of each original.
#[derive(Debug, Clone)]
pub struct WeaveLayout {
    pub parity: Vec<WovenFragment>,
    pub redundant: Vec<Vec<WovenFragment>>,
}

/// How a missing fragment is restored.
#[derive(Debug, Clone, Copy, PartialEq, Eq, Structural)]
pub enum RecoveryStep {
    /// From the parity fragment at `source`, as original number `missing_idx`.
    FromParity { source: usize, level: u8, data_count: usize, missing_idx: usize },
    /// From the redundant fragment at `source`.
    FromRedundant { source: usize, level: u8 },
}

/// The recovery: the available originals (by position), then the steps
/// that restore missing fragments, in order; each step may use the
/// fragments restored before it.
#[derive(Debug, Clone)]
pub struct RecoveryPlan {
    pub originals: Vec<usize>,
    pub steps: Vec<RecoveryStep>,
    pub recovered_count: usize,
}

/// What is known during the recovery: the ids and the indices of the
/// fragments held, and the steps taken.
pub struct PlanState {
    pub ids: Set<u64>,
    pub indices: Set<u32>,
    pub steps: Seq<RecoveryStep>,
}

pub open spec fn tags_of(f: FragmentInfo) -> Seq<Seq<char>> {
    tag_views(f.metadata.tags@)
}

pub open spec fn is_parity(f: FragmentInfo) -> bool {
    any_prefix(tags_of(f), "parity_L"@)
}

pub open spec fn is_redundant(f: FragmentInfo) -> bool {
    any_prefix(tags_of(f), "redundancy_L"@)
}

/// A woven fragment carries a parity or redundancy tag; the others are
/// originals.
pub open spec fn is_woven(f: FragmentInfo) -> bool {
    is_redundant(f) || is_parity(f)
}

/// Whether a fragment is of the class `which`: 0 for originals, 1 for
/// parity fragments, 2 for redundant ones.
pub open spec fn selected(f: FragmentInfo, which: u8) -> bool {
    if which == 0 {
        !is_woven(f)
    } else if which == 1 {
        is_parity(f)
    } else {
        is_redundant(f)
    }
}

/// The positions of the fragments of a class, in order.
pub open spec fn positions(fs: Seq<FragmentInfo>, which: u8) -> Seq<int>
    decreases fs.len(),
{
    if fs.len() == 0 {
        Seq::empty()
    } else if selected(fs.last(), which) {
        positions(fs.drop_last(), which).push(fs.len() - 1)
    } else {
        positions(fs.drop_last(), which)
    }
}

pub open spec fn originals_of(fs: Seq<FragmentInfo>) -> Seq<int> {
    positions(fs, 0)
}

pub open spec fn parities_of(fs: Seq<FragmentInfo>) -> Seq<int> {
    positions(fs, 1)
}

pub open spec fn redundants_of(fs: Seq<FragmentInfo>) -> Seq<int> {
    positions(fs, 2)
}

/// A level read from a tag (0 when none parses).
pub open spec fn level_of(f: FragmentInfo, prefix: Seq<char>) -> u8 {
    match first_number(tags_of(f), prefix, 255) {
        Some(v) => v as u8,
        None => 0,
    }
}

/// What is known at first: the originals' ids and indices.
pub open spec fn initial_state(fs: Seq<FragmentInfo>) -> PlanState {
    let o = originals_of(fs);
    PlanState {
        ids: Set::new(|id: u64| exists|k: int| 0 <= k < o.len() && fs[o[k]].id == id),
        indices: Set::new(|x: u32| exists|k: int| 0 <= k < o.len() && fs[o[k]].metadata.fragment_index == x),
        steps: Seq::empty(),
    }
}

/// The `(index, id)` sources of a parity fragment whose id is not known.
pub open spec fn unknown_sources(srcs: Seq<(nat, nat)>, ids: Set<u64>) -> Seq<(nat, nat)>
    decreases srcs.len(),
{
    if srcs.len() == 0 {
        Seq::empty()
    } else if !ids.contains(srcs.last().1 as u64) {
        unknown_sources(srcs.drop_last(), ids).push(srcs.last())
    } else {
        unknown_sources(srcs.drop_last(), ids)
    }
}

/// A parity fragment restores the one original it covers that is missing,
/// when exactly one is and the parity fragment has not been used.
pub open spec fn parity_step(fs: Seq<FragmentInfo>, st: PlanState, p: int) -> PlanState {
    let f = fs[p];
    match first_number(tags_of(f), "data_count_"@, usize::MAX as nat) {
        None => st,
        Some(dc) => {
            let miss = unknown_sources(all_pairs(tags_of(f), "src_"@, usize::MAX as nat, u64::MAX as nat), st.ids);
            if miss.len() == 1 && !st.ids.contains(f.id) {
                PlanState {
                    ids: st.ids.insert(f.id),
                    indices: st.indices.insert(miss[0].0 as u32),
                    steps: st.steps.push(RecoveryStep::FromParity {
                        source: p as usize,
                        level: level_of(f, "parity_L"@),
                        data_count: dc as usize,
                        missing_idx: miss[0].0 as usize,
                    }),
                }
            } else {
                st
            }
        },
    }
}

/// The parity steps over the first `k` parity fragments.
pub open spec fn parity_pass(fs: Seq<FragmentInfo>, ps: Seq<int>, st: PlanState, k: nat) -> PlanState
    decreases k,
{
    if k == 0 || k > ps.len() {
        st
    } else {
        parity_step(fs, parity_pass(fs, ps, st, (k - 1) as nat), ps[k - 1])
    }
}

/// A redundant fragment of a missing original restores it when the other
/// original of its pair is known.
pub open spec fn redundant_step(fs: Seq<FragmentInfo>, st: PlanState, r: int) -> PlanState {
    let f = fs[r];
    let si = f.metadata.fragment_index;
    if st.indices.contains(si) {
        st
    } else {
        match first_pair(tags_of(f), "source_pair_"@, usize::MAX as nat, usize::MAX as nat) {
            None => st,
            Some((a, b)) => {
                let other = if a == si as nat { b } else { a };
                if st.indices.contains(other as u32) {
                    PlanState {
                        ids: st.ids.insert(f.id),
                        indices: st.indices.insert(si),
                        steps: st.steps.push(RecoveryStep::FromRedundant { source: r as usize, level: level_of(f, "redundancy_L"@) }),
                    }
                } else {
                    st
                }
            },
        }
    }
}

/// One pass over the first `k` redundant fragments.
pub open spec fn round_upto(fs: Seq<FragmentInfo>, rs: Seq<int>, st: PlanState, k: nat) -> PlanState
    decreases k,
{
    if k == 0 || k > rs.len() {
        st
    } else {
        redundant_step(fs, round_upto(fs, rs, st, (k - 1) as nat), rs[k - 1])
    }
}

/// How many of the redundant fragments have an index not yet known.
pub open spec fn unknown_count(fs: Seq<FragmentInfo>, rs: Seq<int>, ind: Set<u32>) -> nat
    decreases rs.len(),
{
    if rs.len() == 0 {
        0
    } else {
        unknown_count(fs, rs.drop_last(), ind) + if ind.contains(fs[rs.last()].metadata.fragment_index) { 0nat } else { 1nat }
    }
}

/// Passes over the redundant fragments until one restores nothing.
pub open spec fn redundant_fix(fs: Seq<FragmentInfo>, rs: Seq<int>, st: PlanState) -> PlanState
    decreases unknown_count(fs, rs, st.indices),
{
    let st2 = round_upto(fs, rs, st, rs.len());
    if st2.steps.len() == st.steps.len() {
        st2
    } else {
        proof {
            lemma_round_progress(fs, rs, st);
        }
        redundant_fix(fs, rs, st2)
    }
}

/// How many indices below `total` are unknown yet held by an original.
pub open spec fn found_missing(fs: Seq<FragmentInfo>, ind: Set<u32>, total: nat) -> nat
    decreases total,
{
    if total == 0 {
        0
    } else {
        let idx = (total - 1) as nat;
        found_missing(fs, ind, idx) + if !ind.contains(idx as u32) && exists|p: int|
            0 <= p < fs.len() && !is_woven(fs[p]) && fs[p].metadata.fragment_index == idx {
            1nat
        } else {
            0nat
        }
    }
}

/// The recovery of a source cut into `total` fragments from those
/// available: nothing when no original is missing; else the parity steps
/// (when some parity fragment is there), then, while originals are still
/// missing and redundant fragments are there, passes over them.
pub open spec fn plan_spec(fs: Seq<FragmentInfo>, total: nat) -> PlanState {
    let o = originals_of(fs);
    let st0 = initial_state(fs);
    if total == o.len() {
        st0
    } else {
        let ps = parities_of(fs);
        let st1 = if ps.len() > 0 && found_missing(fs, st0.indices, total) <= ps.len() {
            parity_pass(fs, ps, st0, ps.len())
        } else {
            st0
        };
        let rs = redundants_of(fs);
        if o.len() + st1.steps.len() < total && rs.len() > 0 {
            redundant_fix(fs, rs, st1)
        } else {
            st1
        }
    }
}

/// A pass only adds knowledge, and each step it takes makes a redundant
/// fragment's index known.
pub proof fn lemma_round_grows(fs: Seq<FragmentInfo>, rs: Seq<int>, st: PlanState, k: nat)
    ensures
        st.indices.subset_of(round_upto(fs, rs, st, k).indices),
        round_upto(fs, rs, st, k).steps.len() >= st.steps.len(),
        round_upto(fs, rs, st, k).steps.len() > st.steps.len() ==> exists|j: int|
            0 <= j < rs.len() && !st.indices.contains(#[trigger] fs[rs[j]].metadata.fragment_index)
                && round_upto(fs, rs, st, k).indices.contains(fs[rs[j]].metadata.fragment_index),
    decreases k,
{
    if k == 0 || k > rs.len() {
    } else {
        lemma_round_grows(fs, rs, st, (k - 1) as nat);
        let prev = round_upto(fs, rs, st, (k - 1) as nat);
        let cur = round_upto(fs, rs, st, k);
        let r = rs[k - 1];
        let si = fs[r].metadata.fragment_index;
        if cur.steps.len() > prev.steps.len() {
            assert(!prev.indices.contains(si));
            assert(cur.indices.contains(si));
            assert(!st.indices.contains(fs[rs[k - 1]].metadata.fragment_index));
        } else if prev.steps.len() > st.steps.len() {
            let j = choose|j: int| 0 <= j < rs.len() && !st.indices.contains(#[trigger] fs[rs[j]].metadata.fragment_index)
                && prev.indices.contains(fs[rs[j]].metadata.fragment_index);
            assert(cur.indices.contains(fs[rs[j]].metadata.fragment_index));
        }
    }
}

/// Knowing more leaves fewer redundant fragments with unknown indices.
pub proof fn lemma_unknown_count_mono(fs: Seq<FragmentInfo>, rs: Seq<int>, a: Set<u32>, b: Set<u32>)
    requires
        a.subset_of(b),
    ensures
        unknown_count(fs, rs, b) <= unknown_count(fs, rs, a),
        (exists|j: int| 0 <= j < rs.len() && !a.contains(#[trigger] fs[rs[j]].metadata.fragment_index)
            && b.contains(fs[rs[j]].metadata.fragment_index)) ==> unknown_count(fs, rs, b) < unknown_count(fs, rs, a),
    decreases rs.len(),
{
    if rs.len() > 0 {
        let t = rs.drop_last();
        lemma_unknown_count_mono(fs, t, a, b);
        if exists|j: int| 0 <= j < rs.len() && !a.contains(#[trigger] fs[rs[j]].metadata.fragment_index)
            && b.contains(fs[rs[j]].metadata.fragment_index) {
            let j = choose|j: int| 0 <= j < rs.len() && !a.contains(#[trigger] fs[rs[j]].metadata.fragment_index)
                && b.contains(fs[rs[j]].metadata.fragment_index);
            if j < rs.len() - 1 {
                assert(t[j] == rs[j]);
                assert(!a.contains(fs[t[j]].metadata.fragment_index));
            }
        }
    }
}

/// A pass that takes a step leaves fewer unknown indices, so the passes
/// end.
pub proof fn lemma_round_progress(fs: Seq<FragmentInfo>, rs: Seq<int>, st: PlanState)
    requires
        round_upto(fs, rs, st, rs.len()).steps.len() != st.steps.len(),
    ensures
        unknown_count(fs, rs, round_upto(fs, rs, st, rs.len()).indices) < unknown_count(fs, rs, st.indices),
{
    lemma_round_grows(fs, rs, st, rs.len());
    lemma_unknown_count_mono(fs, rs, st.indices, round_upto(fs, rs, st, rs.len()).indices);
}

/// The largest id (0 for none).
pub open spec fn max_id(fs: Seq<FragmentInfo>) -> u64
    decreases fs.len(),
{
    if fs.len() == 0 {
        0
    } else if max_id(fs.drop_last()) >= fs.last().id {
        max_id(fs.drop_last())
    } else {
        fs.last().id
    }
}

/// The tags of the parity fragment of this level over `fs`:
/// `parity_L<level>`, `data_count_<n>`, then `src_<i>_<id>` for each original.
pub open spec fn parity_tags(fs: Seq<FragmentInfo>, level: nat) -> Seq<Seq<char>> {
    seq!["parity_L"@ + dec(level), "data_count_"@ + dec(fs.len())]
        + Seq::new(fs.len(), |i: int| "src_"@ + dec(i as nat) + "_"@ + dec(fs[i].id as nat))
}

/// The tags of the redundant fragment of original `i` paired with `j`:
/// `redundancy_L<level>` and `source_pair_<i>_<j>`.
pub open spec fn redundant_tags(level: nat, i: nat, j: nat) -> Seq<Seq<char>> {
    seq!["redundancy_L"@ + dec(level), "source_pair_"@ + dec(i) + "_"@ + dec(j)]
}

/// The first id given out: one past the largest.
pub open spec fn first_new_id(fs: Seq<FragmentInfo>) -> int {
    max_id(fs) + 1
}

impl RedundancyWeaver {
    pub closed spec fn level(&self) -> u8 {
        self.redundancy_level
    }

    #[verifier::type_invariant]
    spec fn level_positive(&self) -> bool {
        self.redundancy_level >= 1
    }

    /// A weaver at the given level, raised to 1 when 0.
    pub fn new(redundancy_level: u8) -> (r: Self)
        ensures
            r.level() == if redundancy_level >= 1 { redundancy_level } else { 1 },
    {
        RedundancyWeaver { redundancy_level: if redundancy_level >= 1 { redundancy_level } else { 1 } }
    }

    pub fn redundancy_level(&self) -> (r: u8)
        ensures
            r == self.level(),
    {
        self.redundancy_level
    }

    /// The fragments that weaving adds to `fs` (none for an empty set): for
    /// each level `1 <= l < L`, a parity fragment over all of them (metadata
    /// of the first, index `l - 1`); then for each level `l` and original
    /// `i`, a redundant fragment pairing `i` with `(i + l) mod n` (metadata
    /// of `i`). Ids follow the largest id, in that order.
    pub fn weave_layout(&self, fs: &Vec<FragmentInfo>) -> (r: WeaveLayout)
        requires
            max_id(fs@) + 1 + (self.level() - 1) * (fs@.len() + 1) <= u64::MAX,
        ensures
            fs@.len() == 0 ==> r.parity@.len() == 0 && r.redundant@.len() == 0,
            fs@.len() > 0 ==> {
                &&& r.parity@.len() == self.level() - 1
                &&& r.redundant@.len() == self.level() - 1
                &&& forall|k: int| #![trigger r.parity@[k]] 0 <= k < r.parity@.len() ==> {
                    let w = r.parity@[k];
                    &&& w.base == 0
                    &&& w.kind == WovenKind::Parity { level: (k + 1) as u8 }
                    &&& w.id == first_new_id(fs@) + k
                    &&& w.metadata.source_hash == fs@[0].metadata.source_hash
                    &&& w.metadata.fragment_count == fs@[0].metadata.fragment_count
                    &&& w.metadata.fragment_index == k
                    &&& tag_views(w.metadata.tags@) == parity_tags(fs@, (k + 1) as nat)
                }
                &&& forall|l: int, i: int| #![trigger r.redundant@[l]@[i]] 0 <= l < r.redundant@.len() && 0 <= i < fs@.len() ==> {
                    let w = r.redundant@[l]@[i];
                    let j = ((i + l + 1) % (fs@.len() as int)) as usize;
                    &&& r.redundant@[l]@.len() == fs@.len()
                    &&& w.base == i
                    &&& w.kind == WovenKind::Redundant { level: (l + 1) as u8, partner: j }
                    &&& w.id == first_new_id(fs@) + (self.level() - 1) + l * fs@.len() + i
                    &&& w.metadata.source_hash == fs@[i].metadata.source_hash
                    &&& w.metadata.fragment_count == fs@[i].metadata.fragment_count
                    &&& w.metadata.fragment_index == fs@[i].metadata.fragment_index
                    &&& tag_views(w.metadata.tags@) == redundant_tags((l + 1) as nat, i as nat, j as nat)
                }
            },
    {
        let mut parity: Vec<WovenFragment> = Vec::new();
        let mut redundant: Vec<Vec<WovenFragment>> = Vec::new();
        let n = fs.len();
        if n == 0 {
            return WeaveLayout { parity, redundant };
        }
        proof {
            use_type_invariant(self);
        }
        let top = self.max_fragment_id(fs);
        let big_l = self.redundancy_level;
        assert(top + 1 <= u64::MAX) by (nonlinear_arith)
            requires
                top + 1 + (big_l - 1) * (n + 1) <= u64::MAX,
                big_l >= 1,
        ;
        let mut next: u64 = top + 1;
        let mut level: u8 = 1;
        while level < big_l
            invariant
                n == fs@.len(),
                n > 0,
                big_l == self.level(),
                top == max_id(fs@),
                1 <= level <= big_l,
                top + 1 + (big_l - 1) * (n + 1) <= u64::MAX,
                next == top + 1 + (level - 1),
                parity@.len() == level - 1,
                forall|k: int| #![trigger parity@[k]] 0 <= k < parity@.len() ==> {
                    let w = parity@[k];
                    &&& w.base == 0
                    &&& w.kind == WovenKind::Parity { level: (k + 1) as u8 }
                    &&& w.id == top + 1 + k
                    &&& w.metadata.source_hash == fs@[0].metadata.source_hash
                    &&& w.metadata.fragment_count == fs@[0].metadata.fragment_count
                    &&& w.metadata.fragment_index == k
                    &&& tag_views(w.metadata.tags@) == parity_tags(fs@, (k + 1) as nat)
                },
            decreases big_l - level,
        {
            let mut meta = FragmentMeta::new(fs[0].metadata.source_hash, fs[0].metadata.fragment_count, (level - 1) as u32);
            meta.tags = parity_tag_list(fs, level);
            parity.push(WovenFragment { base: 0, kind: WovenKind::Parity { level }, id: next, metadata: meta });
            assert(next + 1 <= u64::MAX) by (nonlinear_arith)
                requires
                    next == top + 1 + (level - 1),
                    level < big_l,
                    top + 1 + (big_l - 1) * (n + 1) <= u64::MAX,
                    n > 0,
            ;
            next = next + 1;
            level = level + 1;
        }
        let mut l: u8 = 1;
        while l < big_l
            invariant
                n == fs@.len(),
                n > 0,
                big_l == self.level(),
                top == max_id(fs@),
                1 <= l <= big_l,
                top + 1 + (big_l - 1) * (n + 1) <= u64::MAX,
                next == top + 1 + (big_l - 1) + (l - 1) * n,
                redundant@.len() == l - 1,
                forall|a: int, i: int| #![trigger redundant@[a]@[i]] 0 <= a < redundant@.len() && 0 <= i < n ==> {
                    let w = redundant@[a]@[i];
                    let j = ((i + a + 1) % (n as int)) as usize;
                    &&& redundant@[a]@.len() == n
                    &&& w.base == i
                    &&& w.kind == WovenKind::Redundant { level: (a + 1) as u8, partner: j }
                    &&& w.id == top + 1 + (big_l - 1) + a * n + i
                    &&& w.metadata.source_hash == fs@[i].metadata.source_hash
                    &&& w.metadata.fragment_count == fs@[i].metadata.fragment_count
                    &&& w.metadata.fragment_index == fs@[i].metadata.fragment_index
                    &&& tag_views(w.metadata.tags@) == redundant_tags((a + 1) as nat, i as nat, j as nat)
                },
            decreases big_l - l,
        {
            let mut row: Vec<WovenFragment> = Vec::new();
            let mut i: usize = 0;
            while i < n
                invariant
                    n == fs@.len(),
                    n > 0,
                    1 <= l < big_l,
                    big_l == self.level(),
                    top + 1 + (big_l - 1) * (n + 1) <= u64::MAX,
                    i <= n,
                    next == top + 1 + (big_l - 1) + (l - 1) * n + i,
                    row@.len() == i,
                    forall|k: int| #![trigger row@[k]] 0 <= k < i ==> {
                        let w = row@[k];
                        let j = ((k + l) % (n as int)) as usize;
                        &&& w.base == k
                        &&& w.kind == WovenKind::Redundant { level: l, partner: j }
                        &&& w.id == top + 1 + (big_l - 1) + (l - 1) * n + k
                        &&& w.metadata.source_hash == fs@[k].metadata.source_hash
                        &&& w.metadata.fragment_count == fs@[k].metadata.fragment_count
                        &&& w.metadata.fragment_index == fs@[k].metadata.fragment_index
                        &&& tag_views(w.metadata.tags@) == redundant_tags(l as nat, k as nat, j as nat)
                    },
                decreases n - i,
            {
                let lu: usize = l as usize;
                let lm: usize = lu % n;
                let j: usize = if lm < n - i { i + lm } else { i - (n - lm) };
                proof {
                    vstd::arithmetic::div_mod::lemma_add_mod_noop(i as int, lu as int, n as int);
                    vstd::arithmetic::div_mod::lemma_small_mod(i as nat, n as nat);
                    if lm < n - i {
                        vstd::arithmetic::div_mod::lemma_fundamental_div_mod_converse((i + lm) as int, n as int, 0, j as int);
                    } else {
                        vstd::arithmetic::div_mod::lemma_fundamental_div_mod_converse((i + lm) as int, n as int, 1, j as int);
                    }
                    assert(j == (i + l) % (n as int));
                }
                let f = &fs[i];
                let mut meta = FragmentMeta::new(f.metadata.source_hash, f.metadata.fragment_count, f.metadata.fragment_index);
                let mut tags: Vec<String> = Vec::new();
                tags.push(numbered("redundancy_L", l as u64));
                tags.push(numbered_pair("source_pair_", i as u64, j as u64));
                assert(tag_views(tags@) =~= redundant_tags(l as nat, i as nat, j as nat));
                meta.tags = tags;
                row.push(WovenFragment { base: i, kind: WovenKind::Redundant { level: l, partner: j }, id: next, metadata: meta });
                assert(next + 1 <= u64::MAX) by (nonlinear_arith)
                    requires
                        next == top + 1 + (big_l - 1) + (l - 1) * n + i,
                        l < big_l,
                        i < n,
                        top + 1 + (big_l - 1) * (n + 1) <= u64::MAX,
                ;
                next = next + 1;
                i = i + 1;
            }
            redundant.push(row);
            assert(next == top + 1 + (big_l - 1) + ((l + 1) - 1) * n) by (nonlinear_arith)
                requires
                    next == top + 1 + (big_l - 1) + (l - 1) * n + n,
            ;
            l = l + 1;
        }
        WeaveLayout { parity, redundant }
    }

    fn max_fragment_id(&self, fs: &Vec<FragmentInfo>) -> (r: u64)
        ensures
            r == max_id(fs@),
    {
        let mut m: u64 = 0;
        let mut i: usize = 0;
        while i < fs.len()
            invariant
                i <= fs@.len(),
                m == max_id(fs@.take(i as int)),
            decreases fs@.len() - i,
        {
            assert(fs@.take(i + 1).drop_last() == fs@.take(i as int));
            if fs[i].id > m {
                m = fs[i].id;
            }
            i = i + 1;
        }
        assert(fs@.take(fs@.len() as int) == fs@);
        m
    }

    /// The positions of the fragments that carry neither a parity nor a
    /// redundancy tag: the originals.
    pub fn unwoven(&self, fs: &Vec<FragmentInfo>) -> (r: Vec<usize>)
        ensures
            r@.len() == originals_of(fs@).len(),
            forall|k: int| 0 <= k < r@.len() ==> r@[k] as int == originals_of(fs@)[k],
    {
        let flags = classify(fs);
        positions_where(fs, &flags, 0)
    }

    /// Plans the recovery of a source cut into `total_fragment_count`
    /// fragments from the available ones (see `plan_spec`).
    pub fn plan_recovery(&self, fs: &Vec<FragmentInfo>, total_fragment_count: u32) -> (r: RecoveryPlan)
        requires
            originals_of(fs@).len() <= total_fragment_count,
        ensures
            r.originals@.len() == originals_of(fs@).len(),
            forall|k: int| 0 <= k < r.originals@.len() ==> r.originals@[k] as int == originals_of(fs@)[k],
            r.steps@ == plan_spec(fs@, total_fragment_count as nat).steps,
            r.recovered_count == r.steps@.len(),
    {
        let flags = classify(fs);
        let originals = positions_where(fs, &flags, 0);
        let parities = positions_where(fs, &flags, 1);
        let redundants = positions_where(fs, &flags, 2);
        let ghost fsv = fs@;
        let total = total_fragment_count as usize;
        let mut ids: HashSet<u64> = HashSet::new();
        let mut indices: HashSet<u32> = HashSet::new();
        let mut k: usize = 0;
        let ghost o = originals_of(fsv);
        while k < originals.len()
            invariant
                originals@.len() == o.len(),
                o == originals_of(fsv),
                fsv == fs@,
                forall|q: int| 0 <= q < originals@.len() ==> originals@[q] as int == o[q],
                forall|q: int| 0 <= q < originals@.len() ==> originals@[q] < fsv.len(),
                k <= originals@.len(),
                ids@ == Set::new(|id: u64| exists|q: int| 0 <= q < k && fsv[o[q]].id == id),
                indices@ == Set::new(|x: u32| exists|q: int| 0 <= q < k && fsv[o[q]].metadata.fragment_index == x),
            decreases originals@.len() - k,
        {
            let p = originals[k];
            ids.insert(fs[p].id);
            indices.insert(fs[p].metadata.fragment_index);
            proof {
                assert(ids@ =~= Set::new(|id: u64| exists|q: int| 0 <= q < k + 1 && fsv[o[q]].id == id)) by {
                    assert forall|id: u64| ids@.contains(id) implies exists|q: int| 0 <= q < k + 1 && fsv[o[q]].id == id by {
                        if id == fsv[p as int].id {
                            assert(fsv[o[k as int]].id == id);
                        }
                    }
                }
                assert(indices@ =~= Set::new(|x: u32| exists|q: int| 0 <= q < k + 1 && fsv[o[q]].metadata.fragment_index == x)) by {
                    assert forall|x: u32| indices@.contains(x) implies exists|q: int| 0 <= q < k + 1 && fsv[o[q]].metadata.fragment_index == x by {
                        if x == fsv[p as int].metadata.fragment_index {
                            assert(fsv[o[k as int]].metadata.fragment_index == x);
                        }
                    }
                }
            }
            k = k + 1;
        }
        let ghost st0 = initial_state(fsv);
        assert(ids@ =~= st0.ids);
        assert(indices@ =~= st0.indices);
        let mut steps: Vec<RecoveryStep> = Vec::new();
        assert(steps@ =~= st0.steps);
        if total == originals.len() {
            let n = steps.len();
            return RecoveryPlan { originals, steps, recovered_count: n };
        }
        let ghost ps = parities_of(fsv);
        let found = count_found_missing(fs, &flags, &indices, total);
        if parities.len() > 0 && found <= parities.len() {
            let mut q: usize = 0;
            while q < parities.len()
                invariant
                    fsv == fs@,
                    ps == parities_of(fsv),
                    parities@.len() == ps.len(),
                    forall|z: int| 0 <= z < parities@.len() ==> parities@[z] as int == ps[z],
                    forall|z: int| 0 <= z < parities@.len() ==> parities@[z] < fsv.len(),
                    q <= parities@.len(),
                    (PlanState { ids: ids@, indices: indices@, steps: steps@ }) == parity_pass(fsv, ps, st0, q as nat),
                decreases parities@.len() - q,
            {
                self.parity_step_exec(fs, parities[q], &mut ids, &mut indices, &mut steps);
                q = q + 1;
            }
        }
        let ghost st1 = PlanState { ids: ids@, indices: indices@, steps: steps@ };
        assert(st1 == (if ps.len() > 0 && found_missing(fsv, st0.indices, total as nat) <= ps.len() {
            parity_pass(fsv, ps, st0, ps.len())
        } else {
            st0
        }));
        let ghost rs = redundants_of(fsv);
        if (originals.len() as u128) + (steps.len() as u128) < (total as u128) && redundants.len() > 0 {
            let mut changed = true;
            while changed
                invariant
                    fsv == fs@,
                    rs == redundants_of(fsv),
                    redundants@.len() == rs.len(),
                    forall|z: int| 0 <= z < redundants@.len() ==> redundants@[z] as int == rs[z],
                    forall|z: int| 0 <= z < redundants@.len() ==> redundants@[z] < fsv.len(),
                    redundant_fix(fsv, rs, st1) == (if changed {
                        redundant_fix(fsv, rs, PlanState { ids: ids@, indices: indices@, steps: steps@ })
                    } else {
                        PlanState { ids: ids@, indices: indices@, steps: steps@ }
                    }),
                decreases unknown_count(fsv, rs, indices@) + if changed { 1nat } else { 0nat },
            {
                let ghost start = PlanState { ids: ids@, indices: indices@, steps: steps@ };
                let before = steps.len();
                let mut z: usize = 0;
                while z < redundants.len()
                    invariant
                        fsv == fs@,
                        rs == redundants_of(fsv),
                        redundants@.len() == rs.len(),
                        forall|y: int| 0 <= y < redundants@.len() ==> redundants@[y] as int == rs[y],
                        forall|y: int| 0 <= y < redundants@.len() ==> redundants@[y] < fsv.len(),
                        z <= redundants@.len(),
                        (PlanState { ids: ids@, indices: indices@, steps: steps@ }) == round_upto(fsv, rs, start, z as nat),
                    decreases redundants@.len() - z,
                {
                    self.redundant_step_exec(fs, redundants[z], &mut ids, &mut indices, &mut steps);
                    z = z + 1;
                }
                changed = steps.len() != before;
                proof {
                    lemma_round_grows(fsv, rs, start, rs.len());
                    if changed {
                        lemma_round_progress(fsv, rs, start);
                    } else {
                        lemma_unknown_count_mono(fsv, rs, start.indices, indices@);
                    }
                }
            }
        }
        let n = steps.len();
        RecoveryPlan { originals, steps, recovered_count: n }
    }

    fn parity_step_exec(
        &self,
        fs: &Vec<FragmentInfo>,
        p: usize,
        ids: &mut HashSet<u64>,
        indices: &mut HashSet<u32>,
        steps: &mut Vec<RecoveryStep>,
    )
        requires
            p < fs@.len(),
        ensures
            (PlanState { ids: final(ids)@, indices: final(indices)@, steps: final(steps)@ }) == parity_step(
                fs@,
                PlanState { ids: old(ids)@, indices: old(indices)@, steps: old(steps)@ },
                p as int,
            ),
    {
        let f = &fs[p];
        let dc = first_number_exec(&f.metadata.tags, "data_count_", usize::MAX as u64);
        match dc {
            None => {},
            Some(dc) => {
                let srcs = all_pairs_exec(&f.metadata.tags, "src_", usize::MAX as u64, u64::MAX);
                let ghost all = all_pairs(tags_of(*f), "src_"@, usize::MAX as nat, u64::MAX as nat);
                let mut miss_count: usize = 0;
                let mut first_missing: u64 = 0;
                let mut k: usize = 0;
                while k < srcs.len()
                    invariant
                        srcs@.len() == all.len(),
                        forall|z: int| 0 <= z < srcs@.len() ==> srcs@[z].0 == all[z].0 && srcs@[z].1 == all[z].1,
                        forall|z: int| 0 <= z < srcs@.len() ==> srcs@[z].0 <= usize::MAX,
                        miss_count >= 1 ==> first_missing <= usize::MAX,
                        k <= srcs@.len(),
                        miss_count == unknown_sources(all.take(k as int), old(ids)@).len(),
                        miss_count >= 1 ==> first_missing == unknown_sources(all.take(k as int), old(ids)@)[0].0,
                        miss_count <= k,
                    decreases srcs@.len() - k,
                {
                    proof {
                        assert(all.take(k + 1).drop_last() == all.take(k as int));
                        lemma_unknown_sources_prefix(all.take(k as int), all[k as int], old(ids)@);
                    }
                    if !ids.contains(&srcs[k].1) {
                        if miss_count == 0 {
                            first_missing = srcs[k].0;
                        }
                        miss_count = miss_count + 1;
                    }
                    k = k + 1;
                }
                assert(all.take(srcs@.len() as int) == all);
                if miss_count == 1 && !ids.contains(&f.id) {
                    let level_opt = first_number_exec(&f.metadata.tags, "parity_L", 255);
                    let level: u8 = match level_opt {
                        Some(v) => v as u8,
                        None => 0,
                    };
                    ids.insert(f.id);
                    indices.insert(first_missing as u32);
                    steps.push(RecoveryStep::FromParity {
                        source: p,
                        level,
                        data_count: dc as usize,
                        missing_idx: first_missing as usize,
                    });
                }
            },
        }
    }

    fn redundant_step_exec(
        &self,
        fs: &Vec<FragmentInfo>,
        r: usize,
        ids: &mut HashSet<u64>,
        indices: &mut HashSet<u32>,
        steps: &mut Vec<RecoveryStep>,
    )
        requires
            r < fs@.len(),
        ensures
            (PlanState { ids: final(ids)@, indices: final(indices)@, steps: final(steps)@ }) == redundant_step(
                fs@,
                PlanState { ids: old(ids)@, indices: old(indices)@, steps: old(steps)@ },
                r as int,
            ),
    {
        let f = &fs[r];
        let si = f.metadata.fragment_index;
        if indices.contains(&si) {
            return;
        }
        match first_pair_exec(&f.metadata.tags, "source_pair_", usize::MAX as u64, usize::MAX as u64) {
            None => {},
            Some((a, b)) => {
                let other: u64 = if a == si as u64 { b } else { a };
                if indices.contains(&(other as u32)) {
                    let level_opt = first_number_exec(&f.metadata.tags, "redundancy_L", 255);
                    let level: u8 = match level_opt {
                        Some(v) => v as u8,
                        None => 0,
                    };
                    ids.insert(f.id);
                    indices.insert(si);
                    steps.push(RecoveryStep::FromRedundant { source: r, level });
                }
            },
        }
    }
}

proof fn lemma_prefixed(p: Seq<char>, x: Seq<char>)
    ensures
        crate::tags::starts_with(p + x, p),
        (p + x).skip(p.len() as int) == x,
{
    assert((p + x).take(p.len() as int) =~= p);
    assert((p + x).skip(p.len() as int) =~= x);
}

proof fn lemma_not_prefixed(p: Seq<char>, x: Seq<char>, q: Seq<char>)
    requires
        p.len() > 0,
        q.len() > 0,
        p[0] != q[0],
    ensures
        !crate::tags::starts_with(p + x, q),
{
    if crate::tags::starts_with(p + x, q) {
        assert((p + x).take(q.len() as int)[0] == q[0]);
    }
}

/// The tags weaving puts on a parity fragment read back, in the recovery,
/// as its level, the number of originals, and each original's position and
/// id; they mark it as a parity fragment and not a redundant one.
pub proof fn lemma_parity_tags_read_back(fs: Seq<FragmentInfo>, level: nat)
    requires
        level <= 255,
        fs.len() <= usize::MAX,
    ensures
        first_number(parity_tags(fs, level), "parity_L"@, 255) == Some(level),
        first_number(parity_tags(fs, level), "data_count_"@, usize::MAX as nat) == Some(fs.len()),
        all_pairs(parity_tags(fs, level), "src_"@, usize::MAX as nat, u64::MAX as nat)
            == Seq::new(fs.len(), |i: int| (i as nat, fs[i].id as nat)),
        any_prefix(parity_tags(fs, level), "parity_L"@),
        !any_prefix(parity_tags(fs, level), "redundancy_L"@),
{
    reveal_strlit("parity_L");
    reveal_strlit("data_count_");
    reveal_strlit("src_");
    reveal_strlit("redundancy_L");
    reveal_strlit("_");
    let t = parity_tags(fs, level);
    let t0 = "parity_L"@ + dec(level);
    let t1 = "data_count_"@ + dec(fs.len());
    assert(t[0] == t0);
    assert(t[1] == t1);
    lemma_prefixed("parity_L"@, dec(level));
    lemma_prefixed("data_count_"@, dec(fs.len()));
    crate::tags::lemma_parse_dec(level, 255);
    crate::tags::lemma_parse_dec(fs.len(), usize::MAX as nat);
    lemma_not_prefixed("parity_L"@, dec(level), "data_count_"@);
    assert(t.drop_first()[0] == t1);
    assert(first_number(t.drop_first(), "data_count_"@, usize::MAX as nat) == Some(fs.len()));
    lemma_src_pairs(fs, level, fs.len());
    assert(t.take(t.len() as int) == t);
    assert forall|k: int| 0 <= k < t.len() implies !crate::tags::starts_with(#[trigger] t[k], "redundancy_L"@) by {
        if k == 0 {
            lemma_not_prefixed("parity_L"@, dec(level), "redundancy_L"@);
        } else if k == 1 {
            lemma_not_prefixed("data_count_"@, dec(fs.len()), "redundancy_L"@);
        } else {
            assert(t[k] == "src_"@ + (dec((k - 2) as nat) + "_"@ + dec(fs[k - 2].id as nat)));
            lemma_not_prefixed("src_"@, dec((k - 2) as nat) + "_"@ + dec(fs[k - 2].id as nat), "redundancy_L"@);
        }
    }
}

proof fn lemma_src_pairs(fs: Seq<FragmentInfo>, level: nat, k: nat)
    requires
        k <= fs.len() <= usize::MAX,
    ensures
        all_pairs(parity_tags(fs, level).take(k as int + 2), "src_"@, usize::MAX as nat, u64::MAX as nat)
            == Seq::new(k, |i: int| (i as nat, fs[i].id as nat)),
    decreases k,
{
    reveal_strlit("parity_L");
    reveal_strlit("data_count_");
    reveal_strlit("src_");
    let t = parity_tags(fs, level);
    if k == 0 {
        let h = t.take(2);
        assert(h.drop_last().drop_last() =~= Seq::<Seq<char>>::empty());
        assert(h[0] == "parity_L"@ + dec(level));
        assert(h[1] == "data_count_"@ + dec(fs.len()));
        lemma_not_prefixed("parity_L"@, dec(level), "src_"@);
        lemma_not_prefixed("data_count_"@, dec(fs.len()), "src_"@);
        assert(h.drop_last().last() == h[0]);
        let e = Seq::<(nat, nat)>::empty();
        assert(all_pairs(h.drop_last().drop_last(), "src_"@, usize::MAX as nat, u64::MAX as nat) == e);
        assert(all_pairs(h.drop_last(), "src_"@, usize::MAX as nat, u64::MAX as nat) == e);
        assert(all_pairs(h, "src_"@, usize::MAX as nat, u64::MAX as nat) == e);
        assert(Seq::new(0, |i: int| (i as nat, fs[i].id as nat)) =~= e);
    } else {
        lemma_src_pairs(fs, level, (k - 1) as nat);
        let a = t.take(k as int + 2);
        assert(a.drop_last() == t.take(k as int + 1));
        let i = (k - 1) as int;
        let rest = dec(i as nat) + "_"@ + dec(fs[i].id as nat);
        assert(a.last() == "src_"@ + rest);
        lemma_prefixed("src_"@, rest);
        crate::tags::lemma_pair_dec(i as nat, fs[i].id as nat, usize::MAX as nat, u64::MAX as nat);
        assert(a.last().skip(4) == rest);
        assert(all_pairs(a, "src_"@, usize::MAX as nat, u64::MAX as nat)
            == all_pairs(a.drop_last(), "src_"@, usize::MAX as nat, u64::MAX as nat).push((i as nat, fs[i].id as nat)));
        assert(Seq::new(k, |j: int| (j as nat, fs[j].id as nat)) =~= Seq::new((k - 1) as nat, |j: int| (j as nat, fs[j].id as nat)).push((i as nat, fs[i].id as nat)));
    }
}

/// The tags weaving puts on a redundant fragment read back, in the
/// recovery, as its level and its pair; they mark it as a redundant
/// fragment and not a parity one.
pub proof fn lemma_redundant_tags_read_back(level: nat, i: nat, j: nat)
    requires
        level <= 255,
        i <= usize::MAX,
        j <= usize::MAX,
    ensures
        first_number(redundant_tags(level, i, j), "redundancy_L"@, 255) == Some(level),
        first_pair(redundant_tags(level, i, j), "source_pair_"@, usize::MAX as nat, usize::MAX as nat) == Some((i, j)),
        any_prefix(redundant_tags(level, i, j), "redundancy_L"@),
        !any_prefix(redundant_tags(level, i, j), "parity_L"@),
{
    reveal_strlit("redundancy_L");
    reveal_strlit("source_pair_");
    reveal_strlit("parity_L");
    let t = redundant_tags(level, i, j);
    let rest = dec(i) + "_"@ + dec(j);
    assert(t[0] == "redundancy_L"@ + dec(level));
    assert(t[1] == "source_pair_"@ + rest);
    lemma_prefixed("redundancy_L"@, dec(level));
    lemma_prefixed("source_pair_"@, rest);
    crate::tags::lemma_parse_dec(level, 255);
    crate::tags::lemma_pair_dec(i, j, usize::MAX as nat, usize::MAX as nat);
    lemma_not_prefixed("redundancy_L"@, dec(level), "source_pair_"@);
    assert(t.drop_first()[0] == t[1]);
    assert(t[1].skip(12) == rest);
    assert(first_pair(t.drop_first(), "source_pair_"@, usize::MAX as nat, usize::MAX as nat) == Some((i, j)));
    assert forall|k: int| 0 <= k < t.len() implies !crate::tags::starts_with(#[trigger] t[k], "parity_L"@) by {
        if k == 0 {
            lemma_not_prefixed("redundancy_L"@, dec(level), "parity_L"@);
        } else {
            lemma_not_prefixed("source_pair_"@, rest, "parity_L"@);
        }
    }
}

proof fn lemma_unknown_sources_prefix(s: Seq<(nat, nat)>, x: (nat, nat), ids: Set<u64>)
    ensures
        unknown_sources(s.push(x), ids) == if !ids.contains(x.1 as u64) {
            unknown_sources(s, ids).push(x)
        } else {
            unknown_sources(s, ids)
        },
{
    assert(s.push(x).drop_last() == s);
}

fn parity_tag_list(fs: &Vec<FragmentInfo>, level: u8) -> (r: Vec<String>)
    ensures
        tag_views(r@) == parity_tags(fs@, level as nat),
{
    let mut tags: Vec<String> = Vec::new();
    tags.push(numbered("parity_L", level as u64));
    tags.push(numbered("data_count_", fs.len() as u64));
    let mut i: usize = 0;
    while i < fs.len()
        invariant
            i <= fs@.len(),
            tag_views(tags@) == seq!["parity_L"@ + dec(level as nat), "data_count_"@ + dec(fs@.len())]
                + Seq::new(i as nat, |k: int| "src_"@ + dec(k as nat) + "_"@ + dec(fs@[k].id as nat)),
        decreases fs@.len() - i,
    {
        let ghost before = tags@;
        let t = numbered_pair("src_", i as u64, fs[i].id);
        tags.push(t);
        proof {
            let head = seq!["parity_L"@ + dec(level as nat), "data_count_"@ + dec(fs@.len())];
            let old_e = head + Seq::new(i as nat, |k: int| "src_"@ + dec(k as nat) + "_"@ + dec(fs@[k].id as nat));
            let new_e = head + Seq::new((i + 1) as nat, |k: int| "src_"@ + dec(k as nat) + "_"@ + dec(fs@[k].id as nat));
            assert(tag_views(tags@) =~= tag_views(before).push(t@));
            assert(new_e =~= old_e.push(t@));
        }
        i = i + 1;
    }
    assert(tag_views(tags@) =~= parity_tags(fs@, level as nat));
    tags
}

/// For each fragment: 0 for an original, 1 for a parity fragment, 2 for a
/// redundant one, 3 for one with both tags.
fn classify(fs: &Vec<FragmentInfo>) -> (r: Vec<(bool, bool)>)
    ensures
        r@.len() == fs@.len(),
        forall|i: int| 0 <= i < r@.len() ==> r@[i].0 == is_parity(fs@[i]) && r@[i].1 == is_redundant(fs@[i]),
{
    let mut out: Vec<(bool, bool)> = Vec::new();
    let mut i: usize = 0;
    while i < fs.len()
        invariant
            i <= fs@.len(),
            out@.len() == i,
            forall|k: int| 0 <= k < i ==> out@[k].0 == is_parity(fs@[k]) && out@[k].1 == is_redundant(fs@[k]),
        decreases fs@.len() - i,
    {
        let p = any_prefix_exec(&fs[i].metadata.tags, "parity_L");
        let d = any_prefix_exec(&fs[i].metadata.tags, "redundancy_L");
        out.push((p, d));
        i = i + 1;
    }
    out
}

/// The positions of the fragments of class `which` (see `selected`).
fn positions_where(fs: &Vec<FragmentInfo>, flags: &Vec<(bool, bool)>, which: u8) -> (r: Vec<usize>)
    requires
        flags@.len() == fs@.len(),
        forall|i: int| 0 <= i < flags@.len() ==> flags@[i].0 == is_parity(fs@[i]) && flags@[i].1 == is_redundant(fs@[i]),
    ensures
        r@.len() == positions(fs@, which).len(),
        forall|k: int| 0 <= k < r@.len() ==> r@[k] as int == positions(fs@, which)[k],
        forall|k: int| 0 <= k < r@.len() ==> r@[k] < fs@.len(),
{
    let mut out: Vec<usize> = Vec::new();
    let mut i: usize = 0;
    while i < flags.len()
        invariant
            flags@.len() == fs@.len(),
            forall|z: int| 0 <= z < flags@.len() ==> flags@[z].0 == is_parity(fs@[z]) && flags@[z].1 == is_redundant(fs@[z]),
            i <= flags@.len(),
            forall|k: int| 0 <= k < out@.len() ==> out@[k] < i,
            out@.len() == positions(fs@.take(i as int), which).len(),
            forall|k: int| 0 <= k < out@.len() ==> out@[k] as int == positions(fs@.take(i as int), which)[k],
        decreases flags@.len() - i,
    {
        let (p, d) = flags[i];
        let sel = if which == 0 { !(d || p) } else if which == 1 { p } else { d };
        proof {
            let t = fs@.take(i + 1);
            assert(t.drop_last() == fs@.take(i as int));
            assert(t.last() == fs@[i as int]);
            assert(sel == selected(fs@[i as int], which));
        }
        if sel {
            out.push(i);
        }
        i = i + 1;
    }
    assert(fs@.take(flags@.len() as int) == fs@);
    out
}

/// How many indices below `total` are unknown yet held by an original.
fn count_found_missing(fs: &Vec<FragmentInfo>, flags: &Vec<(bool, bool)>, indices: &HashSet<u32>, total: usize) -> (r: usize)
    requires
        flags@.len() == fs@.len(),
        forall|i: int| 0 <= i < flags@.len() ==> flags@[i].0 == is_parity(fs@[i]) && flags@[i].1 == is_redundant(fs@[i]),
        total <= u32::MAX + 1,
    ensures
        r == found_missing(fs@, indices@, total as nat),
{
    let mut c: usize = 0;
    let mut idx: usize = 0;
    while idx < total
        invariant
            flags@.len() == fs@.len(),
            forall|i: int| 0 <= i < flags@.len() ==> flags@[i].0 == is_parity(fs@[i]) && flags@[i].1 == is_redundant(fs@[i]),
            idx <= total,
            total <= u32::MAX + 1,
            c == found_missing(fs@, indices@, idx as nat),
            c <= idx,
        decreases total - idx,
    {
        if !indices.contains(&(idx as u32)) {
            let mut found = false;
            let mut p: usize = 0;
            while p < fs.len()
                invariant
                    flags@.len() == fs@.len(),
                    forall|i: int| 0 <= i < flags@.len() ==> flags@[i].0 == is_parity(fs@[i]) && flags@[i].1 == is_redundant(fs@[i]),
                    p <= fs@.len(),
                    found == exists|q: int| 0 <= q < p && !is_woven(fs@[q]) && fs@[q].metadata.fragment_index == idx,
                decreases fs@.len() - p,
            {
                let (fp, fd) = flags[p];
                if !(fp || fd) && fs[p].metadata.fragment_index as usize == idx {
                    found = true;
                }
                p = p + 1;
            }
            if found {
                c = c + 1;
            }
        }
        idx = idx + 1;
    }
    c
}

/// `f` carries the tags weaving writes on a parity fragment over `fs` at
/// level `l`.
pub open spec fn parity_tagged(fs: Seq<FragmentInfo>, f: FragmentInfo, l: nat) -> bool {
    l <= 255 && tags_of(f) == parity_tags(fs, l)
}

/// `f` carries the tags weaving writes on the redundant fragment of the pair
/// `(a, b)` at level `l`.
pub open spec fn redundant_tagged(f: FragmentInfo, l: nat, a: nat, b: nat) -> bool {
    l <= 255 && a <= usize::MAX && b <= usize::MAX && tags_of(f) == redundant_tags(l, a, b)
}

/// `f` carries the tags weaving writes on a parity fragment over `fs` or on
/// a redundant fragment.
pub open spec fn woven_tagged(fs: Seq<FragmentInfo>, f: FragmentInfo) -> bool {
    (exists|l: nat| #[trigger] parity_tagged(fs, f, l))
    || (exists|l: nat, a: nat, b: nat| #[trigger] redundant_tagged(f, l, a, b))
}

/// Fragments of one class appended after the others leave the others'
/// positions unchanged.
proof fn lemma_positions_append_other(a: Seq<FragmentInfo>, w: Seq<FragmentInfo>, which: u8)
    requires
        forall|j: int| 0 <= j < w.len() ==> !selected(#[trigger] w[j], which),
    ensures
        positions(a + w, which) == positions(a, which),
    decreases w.len(),
{
    if w.len() > 0 {
        let w1 = w.drop_last();
        assert((a + w).drop_last() =~= a + w1);
        assert((a + w).last() == w[w.len() - 1]);
        lemma_positions_append_other(a, w1, which);
    } else {
        assert(a + w =~= a);
    }
}

/// The positions of a run of fragments that are all of a class are all
/// positions.
proof fn lemma_positions_all(a: Seq<FragmentInfo>, which: u8)
    requires
        forall|j: int| 0 <= j < a.len() ==> selected(#[trigger] a[j], which),
    ensures
        positions(a, which) == Seq::new(a.len(), |i: int| i),
    decreases a.len(),
{
    if a.len() > 0 {
        lemma_positions_all(a.drop_last(), which);
        assert(selected(a[a.len() - 1], which));
        assert(Seq::new(a.len(), |i: int| i) =~= Seq::new((a.len() - 1) as nat, |i: int| i).push(a.len() - 1));
    } else {
        assert(positions(a, which) =~= Seq::new(a.len(), |i: int| i));
    }
}

/// Unweaving after weaving gives back the originals: after fragments that
/// carry no weave tag come fragments tagged as weaving tags parity and
/// redundant fragments; unweaving keeps exactly the first ones, in order.
pub proof fn lemma_unweave_after_weave(fs: Seq<FragmentInfo>, woven: Seq<FragmentInfo>)
    requires
        fs.len() <= usize::MAX,
        forall|i: int| 0 <= i < fs.len() ==> !is_woven(#[trigger] fs[i]),
        forall|j: int| 0 <= j < woven.len() ==> woven_tagged(fs, #[trigger] woven[j]),
    ensures
        originals_of(fs + woven) == Seq::new(fs.len(), |i: int| i),
{
    assert forall|j: int| 0 <= j < woven.len() implies !selected(#[trigger] woven[j], 0) by {
        let f = woven[j];
        assert(woven_tagged(fs, f));
        if exists|l: nat| #[trigger] parity_tagged(fs, f, l) {
            let l = choose|l: nat| #[trigger] parity_tagged(fs, f, l);
            assert(l <= 255);
            lemma_parity_tags_read_back(fs, l);
        } else {
            let (l, a, b) = choose|l: nat, a: nat, b: nat| #[trigger] redundant_tagged(f, l, a, b);
            assert(redundant_tagged(f, l, a, b));
            lemma_redundant_tags_read_back(l, a, b);
        }
    }
    lemma_positions_append_other(fs, woven, 0);
    assert forall|i: int| 0 <= i < fs.len() implies selected(#[trigger] fs[i], 0) by {}
    lemma_positions_all(fs, 0);
}

/// The pair read from a fragment's `source_pair_` tag is its own index and
/// `j`, in either order.
pub open spec fn pairs_with(f: FragmentInfo, j: nat) -> bool {
    let i = f.metadata.fragment_index as nat;
    let pair = first_pair(tags_of(f), "source_pair_"@, usize::MAX as nat, usize::MAX as nat);
    pair == Some((i, j)) || pair == Some((j, i))
}

/// A redundant fragment of a missing index `i` paired with `j` restores
/// `i` exactly when `j` is known: it then records the fragment's id, the
/// index `i` and a `FromRedundant` step from the fragment; when `j` is not
/// known, or `i` already is, nothing changes.
pub proof fn lemma_redundant_step_partner(fs: Seq<FragmentInfo>, st: PlanState, r: int, j: nat)
    requires
        0 <= r < fs.len(),
        pairs_with(fs[r], j),
    ensures
        ({
            let f = fs[r];
            let i = f.metadata.fragment_index;
            if !st.indices.contains(i) && st.indices.contains(j as u32) {
                redundant_step(fs, st, r) == (PlanState {
                    ids: st.ids.insert(f.id),
                    indices: st.indices.insert(i),
                    steps: st.steps.push(RecoveryStep::FromRedundant { source: r as usize, level: level_of(f, "redundancy_L"@) }),
                })
            } else {
                redundant_step(fs, st, r) == st
            }
        }),
{
}

/// A redundant fragment as the weaver tags it (`redundancy_L<level>`,
/// `source_pair_<i>_<j>`, where `i` is its own index) restores `i` at that
/// level exactly when `i` is unknown and `j` is known.
pub proof fn lemma_woven_redundant_restores(fs: Seq<FragmentInfo>, st: PlanState, r: int, level: nat, j: nat)
    requires
        0 <= r < fs.len(),
        level <= 255,
        j <= usize::MAX,
        tags_of(fs[r]) == redundant_tags(level, fs[r].metadata.fragment_index as nat, j),
    ensures
        ({
            let f = fs[r];
            let i = f.metadata.fragment_index;
            if !st.indices.contains(i) && st.indices.contains(j as u32) {
                redundant_step(fs, st, r) == (PlanState {
                    ids: st.ids.insert(f.id),
                    indices: st.indices.insert(i),
                    steps: st.steps.push(RecoveryStep::FromRedundant { source: r as usize, level: level as u8 }),
                })
            } else {
                redundant_step(fs, st, r) == st
            }
        }),
{
    lemma_redundant_tags_read_back(level, fs[r].metadata.fragment_index as nat, j);
    lemma_redundant_step_partner(fs, st, r, j);
}

/// A pass that takes no step changes nothing, and no redundant fragment it
/// passes over could have taken one.
proof fn lemma_round_no_step(fs: Seq<FragmentInfo>, rs: Seq<int>, st: PlanState, k: nat)
    requires
        k <= rs.len(),
        round_upto(fs, rs, st, k).steps.len() == st.steps.len(),
    ensures
        round_upto(fs, rs, st, k) == st,
        forall|m: int| 0 <= m < k ==> #[trigger] redundant_step(fs, st, rs[m]) == st,
    decreases k,
{
    if k > 0 {
        let prev = round_upto(fs, rs, st, (k - 1) as nat);
        lemma_round_grows(fs, rs, st, (k - 1) as nat);
        assert(redundant_step(fs, prev, rs[k - 1]) == prev || redundant_step(fs, prev, rs[k - 1]).steps.len() == prev.steps.len() + 1);
        lemma_round_no_step(fs, rs, st, (k - 1) as nat);
    }
}

/// The passes end in a state that only adds to the first one and on which
/// no redundant fragment takes a step.
proof fn lemma_fix_closed(fs: Seq<FragmentInfo>, rs: Seq<int>, st: PlanState)
    ensures
        st.indices.subset_of(redundant_fix(fs, rs, st).indices),
        forall|m: int| 0 <= m < rs.len() ==> #[trigger] redundant_step(fs, redundant_fix(fs, rs, st), rs[m]) == redundant_fix(fs, rs, st),
    decreases unknown_count(fs, rs, st.indices),
{
    let st2 = round_upto(fs, rs, st, rs.len());
    lemma_round_grows(fs, rs, st, rs.len());
    if st2.steps.len() == st.steps.len() {
        lemma_round_no_step(fs, rs, st, rs.len());
    } else {
        lemma_round_progress(fs, rs, st);
        lemma_fix_closed(fs, rs, st2);
    }
}

/// The positions of a class are positions of `fs`, and each fragment of the
/// class is at one of them.
proof fn lemma_positions_cover(fs: Seq<FragmentInfo>, which: u8, r: int)
    ensures
        forall|q: int| 0 <= q < positions(fs, which).len() ==> 0 <= #[trigger] positions(fs, which)[q] < fs.len(),
        0 <= r < fs.len() && selected(fs[r], which) ==> exists|q: int|
            0 <= q < positions(fs, which).len() && #[trigger] positions(fs, which)[q] == r,
    decreases fs.len(),
{
    if fs.len() > 0 {
        let t = fs.drop_last();
        lemma_positions_cover(t, which, r);
        let pt = positions(t, which);
        assert forall|q: int| 0 <= q < pt.len() implies #[trigger] t[pt[q]] == fs[pt[q]] by {}
        if 0 <= r < t.len() && selected(fs[r], which) {
            assert(t[r] == fs[r]);
            let q = choose|q: int| 0 <= q < pt.len() && #[trigger] pt[q] == r;
            assert(positions(fs, which)[q] == r);
        }
        if r == fs.len() - 1 && selected(fs[r], which) {
            assert(positions(fs, which)[pt.len() as int] == r);
        }
    }
}

/// Whether a step restores index `x` from a redundant fragment of that index.
pub open spec fn restores_from_redundant(fs: Seq<FragmentInfo>, s: RecoveryStep, x: u32) -> bool {
    match s {
        RecoveryStep::FromRedundant { source, .. } => source < fs.len() && fs[source as int].metadata.fragment_index == x,
        _ => false,
    }
}

/// Every index known beyond `base` was restored by a recorded redundant step.
spec fn sourced(fs: Seq<FragmentInfo>, st: PlanState, base: Set<u32>) -> bool {
    forall|x: u32| #[trigger] st.indices.contains(x) && !base.contains(x) ==> exists|k: int|
        0 <= k < st.steps.len() && #[trigger] restores_from_redundant(fs, st.steps[k], x)
}

proof fn lemma_round_sourced(fs: Seq<FragmentInfo>, rs: Seq<int>, st: PlanState, base: Set<u32>, k: nat)
    requires
        fs.len() <= usize::MAX,
        forall|q: int| 0 <= q < rs.len() ==> 0 <= #[trigger] rs[q] < fs.len(),
        sourced(fs, st, base),
    ensures
        sourced(fs, round_upto(fs, rs, st, k), base),
    decreases k,
{
    if k > 0 && k <= rs.len() {
        lemma_round_sourced(fs, rs, st, base, (k - 1) as nat);
        let prev = round_upto(fs, rs, st, (k - 1) as nat);
        let r = rs[k - 1];
        let cur = redundant_step(fs, prev, r);
        if cur != prev {
            let i = fs[r].metadata.fragment_index;
            assert(cur.indices == prev.indices.insert(i));
            assert(cur.steps == prev.steps.push(RecoveryStep::FromRedundant { source: r as usize, level: level_of(fs[r], "redundancy_L"@) }));
            assert forall|x: u32| #[trigger] cur.indices.contains(x) && !base.contains(x) implies exists|k: int|
                0 <= k < cur.steps.len() && #[trigger] restores_from_redundant(fs, cur.steps[k], x) by {
                if x == i {
                    assert(restores_from_redundant(fs, cur.steps[prev.steps.len() as int], x));
                } else {
                    assert(prev.indices.contains(x));
                    let k = choose|k: int| 0 <= k < prev.steps.len() && #[trigger] restores_from_redundant(fs, prev.steps[k], x);
                    assert(cur.steps[k] == prev.steps[k]);
                }
            }
        }
    }
}

proof fn lemma_fix_sourced(fs: Seq<FragmentInfo>, rs: Seq<int>, st: PlanState, base: Set<u32>)
    requires
        fs.len() <= usize::MAX,
        forall|q: int| 0 <= q < rs.len() ==> 0 <= #[trigger] rs[q] < fs.len(),
        sourced(fs, st, base),
    ensures
        sourced(fs, redundant_fix(fs, rs, st), base),
    decreases unknown_count(fs, rs, st.indices),
{
    let st2 = round_upto(fs, rs, st, rs.len());
    lemma_round_sourced(fs, rs, st, base, rs.len());
    if st2.steps.len() != st.steps.len() {
        lemma_round_progress(fs, rs, st);
        lemma_fix_sourced(fs, rs, st2, base);
    }
}

/// The plan does not stop while a redundant fragment could still restore a
/// missing index: when at the end a redundant fragment's index is unknown
/// while the other index of its pair is known, the originals and the steps
/// already number at least `total`.
pub proof fn lemma_plan_redundant_complete(fs: Seq<FragmentInfo>, total: nat, r: int, j: nat)
    requires
        0 <= r < fs.len(),
        is_redundant(fs[r]),
        pairs_with(fs[r], j),
        !plan_spec(fs, total).indices.contains(fs[r].metadata.fragment_index),
        plan_spec(fs, total).indices.contains(j as u32),
    ensures
        originals_of(fs).len() + plan_spec(fs, total).steps.len() >= total,
{
    let o = originals_of(fs);
    let st0 = initial_state(fs);
    if total != o.len() {
        let ps = parities_of(fs);
        let st1 = if ps.len() > 0 && found_missing(fs, st0.indices, total) <= ps.len() {
            parity_pass(fs, ps, st0, ps.len())
        } else {
            st0
        };
        let rs = redundants_of(fs);
        lemma_positions_cover(fs, 2, r);
        let m = choose|q: int| 0 <= q < rs.len() && #[trigger] rs[q] == r;
        if o.len() + st1.steps.len() < total {
            let fin = redundant_fix(fs, rs, st1);
            lemma_fix_closed(fs, rs, st1);
            assert(redundant_step(fs, fin, rs[m]) == fin);
            lemma_redundant_step_partner(fs, fin, r, j);
        }
    }
}

/// Without parity fragments, a missing original is restored from a
/// redundant fragment of its index whose pair's other index `j` is held by
/// an original: the plan knows the index, and one of its steps is a
/// `FromRedundant` step from a fragment of that index.
pub proof fn lemma_plan_restores_from_redundant(fs: Seq<FragmentInfo>, total: nat, r: int, j: nat)
    requires
        fs.len() <= usize::MAX,
        0 <= r < fs.len(),
        is_redundant(fs[r]),
        pairs_with(fs[r], j),
        parities_of(fs).len() == 0,
        originals_of(fs).len() < total,
        forall|p: int| 0 <= p < fs.len() && !is_woven(fs[p]) ==> #[trigger] fs[p].metadata.fragment_index != fs[r].metadata.fragment_index,
        exists|p: int| 0 <= p < fs.len() && !is_woven(fs[p]) && #[trigger] fs[p].metadata.fragment_index as nat == j,
    ensures
        plan_spec(fs, total).indices.contains(fs[r].metadata.fragment_index),
        exists|k: int| 0 <= k < plan_spec(fs, total).steps.len()
            && #[trigger] restores_from_redundant(fs, plan_spec(fs, total).steps[k], fs[r].metadata.fragment_index),
{
    let o = originals_of(fs);
    let st0 = initial_state(fs);
    let rs = redundants_of(fs);
    let i = fs[r].metadata.fragment_index;
    lemma_positions_cover(fs, 2, r);
    let m = choose|q: int| 0 <= q < rs.len() && #[trigger] rs[q] == r;
    let p = choose|p: int| 0 <= p < fs.len() && !is_woven(fs[p]) && #[trigger] fs[p].metadata.fragment_index as nat == j;
    lemma_positions_cover(fs, 0, p);
    let qp = choose|q: int| 0 <= q < o.len() && #[trigger] o[q] == p;
    assert(fs[o[qp]].metadata.fragment_index == j as u32);
    assert(st0.indices.contains(j as u32));
    assert(!st0.indices.contains(i)) by {
        if st0.indices.contains(i) {
            let q = choose|q: int| 0 <= q < o.len() && fs[o[q]].metadata.fragment_index == i;
            lemma_positions_cover(fs, 0, o[q]);
            assert(0 <= o[q] < fs.len());
            lemma_selected_at(fs, 0, q);
        }
    }
    let fin = redundant_fix(fs, rs, st0);
    assert(plan_spec(fs, total) == fin);
    lemma_fix_closed(fs, rs, st0);
    assert(redundant_step(fs, fin, rs[m]) == fin);
    lemma_redundant_step_partner(fs, fin, r, j);
    assert(fin.indices.contains(i));
    lemma_positions_cover(fs, 2, 0);
    lemma_fix_sourced(fs, rs, st0, st0.indices);
}

/// The fragment at each position of a class is of that class.
proof fn lemma_selected_at(fs: Seq<FragmentInfo>, which: u8, q: int)
    requires
        0 <= q < positions(fs, which).len(),
    ensures
        selected(fs[positions(fs, which)[q]], which),
    decreases fs.len(),
{
    if fs.len() > 0 {
        let t = fs.drop_last();
        let pt = positions(t, which);
        if q < pt.len() {
            lemma_selected_at(t, which, q);
            lemma_positions_cover(t, which, 0);
            assert(t[pt[q]] == fs[pt[q]]);
        }
    }
}

} // verus!
