//! Identifiers and fragment metadata shared across the library.
use vstd::prelude::*;
use crate::clock::now_millis;

verus! {

/// The id of a hologram fragment.
pub type FragmentId = u64;

/// What is recorded with each fragment: when it was made (seconds since
/// the Unix epoch), the hash of its source, how many fragments the source
/// was cut into and which one this is, and free-form tags.
#[derive(Debug, Clone)]
pub struct FragmentMeta {
    pub created_at: u64,
    pub source_hash: u64,
    pub fragment_count: u32,
    pub fragment_index: u32,
    pub tags: Vec<String>,
}

/// Whole seconds of a time in milliseconds.
pub open spec fn secs_of(millis: u64) -> u64 {
    millis / 1000
}

impl FragmentMeta {
    /// Metadata made at `now_millis` milliseconds since the Unix epoch,
    /// with no tags: `created_at` is the whole seconds.
    pub fn new_at(source_hash: u64, fragment_count: u32, fragment_index: u32, now_millis: u64) -> (r: Self)
        ensures
            r.created_at == secs_of(now_millis),
            r.source_hash == source_hash,
            r.fragment_count == fragment_count,
            r.fragment_index == fragment_index,
            r.tags@ == Seq::<String>::empty(),
    {
        FragmentMeta { created_at: now_millis / 1000, source_hash, fragment_count, fragment_index, tags: Vec::new() }
    }

    /// Metadata made now, with no tags (see `new_at`; the time is one
    /// reading of the clock).
    pub fn new(source_hash: u64, fragment_count: u32, fragment_index: u32) -> (r: Self)
        ensures
            exists|now: u64| r.created_at == #[trigger] secs_of(now),
            r.source_hash == source_hash,
            r.fragment_count == fragment_count,
            r.fragment_index == fragment_index,
            r.tags@ == Seq::<String>::empty(),
    {
        Self::new_at(source_hash, fragment_count, fragment_index, now_millis())
    }
}

} // verus!
