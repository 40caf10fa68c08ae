//! Importance levels and the redundancy each calls for.
use vstd::prelude::*;

verus! {

/// How important a piece of knowledge is, from low to critical.
#[derive(Debug, Clone, Copy, PartialEq, Eq, PartialOrd, Ord, Hash)]
pub enum ImportanceLevel {
    Low,
    Medium,
    High,
    Critical,
}

/// The weaving level and the Reed-Solomon parity shards for each
/// importance level, and the data shards.
#[derive(Debug, Clone, Copy)]
pub struct RedundancyStrategy {
    pub low_redundancy: u8,
    pub medium_redundancy: u8,
    pub high_redundancy: u8,
    pub critical_redundancy: u8,
    pub rs_data_shards: usize,
    pub rs_parity_low: usize,
    pub rs_parity_medium: usize,
    pub rs_parity_high: usize,
    pub rs_parity_critical: usize,
}

/// The (weaving level, parity shards) a strategy gives a level.
pub open spec fn strategy_for(s: RedundancyStrategy, level: ImportanceLevel) -> (u8, usize) {
    match level {
        ImportanceLevel::Low => (s.low_redundancy, s.rs_parity_low),
        ImportanceLevel::Medium => (s.medium_redundancy, s.rs_parity_medium),
        ImportanceLevel::High => (s.high_redundancy, s.rs_parity_high),
        ImportanceLevel::Critical => (s.critical_redundancy, s.rs_parity_critical),
    }
}

/// The rank of a level, from 0 for low to 3 for critical.
pub open spec fn level_rank(level: ImportanceLevel) -> int {
    match level {
        ImportanceLevel::Low => 0,
        ImportanceLevel::Medium => 1,
        ImportanceLevel::High => 2,
        ImportanceLevel::Critical => 3,
    }
}

/// Each level gets the strategy's own settings for that level; and when
/// the settings grow with the level (as the default strategy's do), more
/// important data gets strictly more weaving and strictly more parity.
pub proof fn lemma_strategy_levels(s: RedundancyStrategy)
    ensures
        strategy_for(s, ImportanceLevel::Low) == (s.low_redundancy, s.rs_parity_low),
        strategy_for(s, ImportanceLevel::Medium) == (s.medium_redundancy, s.rs_parity_medium),
        strategy_for(s, ImportanceLevel::High) == (s.high_redundancy, s.rs_parity_high),
        strategy_for(s, ImportanceLevel::Critical) == (s.critical_redundancy, s.rs_parity_critical),
        (s.low_redundancy < s.medium_redundancy < s.high_redundancy < s.critical_redundancy
            && s.rs_parity_low < s.rs_parity_medium < s.rs_parity_high < s.rs_parity_critical)
            ==> forall|a: ImportanceLevel, b: ImportanceLevel| level_rank(a) < level_rank(b) ==> {
                &&& #[trigger] strategy_for(s, a).0 < #[trigger] strategy_for(s, b).0
                &&& strategy_for(s, a).1 < strategy_for(s, b).1
            },
{
}

impl RedundancyStrategy {
    /// The weaving level and parity shards for a level.
    pub fn for_level(&self, level: ImportanceLevel) -> (r: (u8, usize))
        ensures
            r == strategy_for(*self, level),
            level == ImportanceLevel::Low ==> r == (self.low_redundancy, self.rs_parity_low),
            level == ImportanceLevel::Medium ==> r == (self.medium_redundancy, self.rs_parity_medium),
            level == ImportanceLevel::High ==> r == (self.high_redundancy, self.rs_parity_high),
            level == ImportanceLevel::Critical ==> r == (self.critical_redundancy, self.rs_parity_critical),
    {
        match level {
            ImportanceLevel::Low => (self.low_redundancy, self.rs_parity_low),
            ImportanceLevel::Medium => (self.medium_redundancy, self.rs_parity_medium),
            ImportanceLevel::High => (self.high_redundancy, self.rs_parity_high),
            ImportanceLevel::Critical => (self.critical_redundancy, self.rs_parity_critical),
        }
    }
}

impl Default for RedundancyStrategy {
    fn default() -> (r: Self)
        ensures
            r.low_redundancy == 1,
            r.medium_redundancy == 2,
            r.high_redundancy == 3,
            r.critical_redundancy == 4,
            r.rs_data_shards == 4,
            r.rs_parity_low == 1,
            r.rs_parity_medium == 2,
            r.rs_parity_high == 3,
            r.rs_parity_critical == 4,
    {
        RedundancyStrategy {
            low_redundancy: 1,
            medium_redundancy: 2,
            high_redundancy: 3,
            critical_redundancy: 4,
            rs_data_shards: 4,
            rs_parity_low: 1,
            rs_parity_medium: 2,
            rs_parity_high: 3,
            rs_parity_critical: 4,
        }
    }
}

} // verus!
