//! Deciding whether a damaged source can still be recovered.
use vstd::prelude::*;
use crate::weaver::{RedundancyWeaver, FragmentInfo, RecoveryPlan, originals_of, plan_spec};

verus! {

/// Recovery from partial fragments, over a weaver of the given level.
#[derive(Debug, Clone, Copy)]
pub struct PartialRecoveryEngine {
    weaver: RedundancyWeaver,
}

impl PartialRecoveryEngine {
    pub closed spec fn level(&self) -> u8 {
        self.weaver.level()
    }

    /// An engine whose weaver has the given level (raised to 1 when 0).
    pub fn new(redundancy_level: u8) -> (r: Self)
        ensures
            r.level() == if redundancy_level >= 1 { redundancy_level } else { 1 },
    {
        PartialRecoveryEngine { weaver: RedundancyWeaver::new(redundancy_level) }
    }

    pub fn weaver(&self) -> (r: RedundancyWeaver)
        ensures
            r.level() == self.level(),
    {
        self.weaver
    }

    /// Whether recovery is possible: the damage (the share of fragments
    /// missing) is at most one half, i.e. at least half of them are
    /// available; always when the source has no fragment.
    pub fn can_recover(&self, available_count: usize, total_count: u32) -> (r: bool)
        ensures
            r == (total_count == 0 || 2 * available_count >= total_count),
    {
        if total_count == 0 {
            return true;
        }
        2 * (available_count as u128) >= total_count as u128
    }

    /// The recovery plan for the available fragments of a source cut into
    /// `total_fragment_count` fragments.
    pub fn plan(&self, fs: &Vec<FragmentInfo>, total_fragment_count: u32) -> (r: RecoveryPlan)
        requires
            originals_of(fs@).len() <= total_fragment_count,
        ensures
            r.steps@ == plan_spec(fs@, total_fragment_count as nat).steps,
            r.recovered_count == r.steps@.len(),
    {
        self.weaver.plan_recovery(fs, total_fragment_count)
    }
}

} // verus!
