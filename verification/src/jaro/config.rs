//! Configuration of the Jaro-Winkler prefix bonus, in the library's
//! fixed-point scale: `SCORE_ONE` stands for 1.0.
use crate::prelude::SCORE_ONE;
use vstd::prelude::*;

verus! {

/// Tuning of the Jaro-Winkler prefix bonus.
///
/// * `similarity_threshold` — the bonus applies only when the raw Jaro
///   score exceeds this (default 0.7).
/// * `max_prefix_length` — at most this many leading characters count
///   toward the bonus (default 4).
/// * `scaling_factor` — bonus weight per prefix character (default 0.1).
///
/// The documented configuration contract — the product of scaling factor
/// and maximum prefix length must not exceed 1, so that a score can never
/// leave `[0, 1]` — is checked at construction.
pub struct JaroWinklerConfigOptions {
    pub similarity_threshold: u64,
    pub max_prefix_length: i32,
    pub scaling_factor: u64,
}

impl JaroWinklerConfigOptions {
    /// The configuration contract: values stand inside the unit scale and
    /// the full prefix bonus cannot push a score past 1.0.
    pub open spec fn wf(&self) -> bool {
        &&& self.similarity_threshold <= SCORE_ONE
        &&& self.scaling_factor <= SCORE_ONE
        &&& self.max_prefix_length >= 0
        &&& self.scaling_factor as int * self.max_prefix_length as int <= SCORE_ONE as int
    }

    pub fn default() -> (r: JaroWinklerConfigOptions)
        ensures
            r.similarity_threshold == 700_000_000u64,
            r.max_prefix_length == 4i32,
            r.scaling_factor == 100_000_000u64,
            r.wf(),
    {
        JaroWinklerConfigOptions {
            similarity_threshold: 700_000_000,
            max_prefix_length: 4,
            scaling_factor: 100_000_000,
        }
    }

    pub fn new(similarity_threshold: u64, max_prefix_length: i32, scaling_factor: u64) -> (r:
        JaroWinklerConfigOptions)
        requires
            similarity_threshold <= SCORE_ONE,
            scaling_factor <= SCORE_ONE,
            max_prefix_length >= 0,
            scaling_factor as int * max_prefix_length as int <= SCORE_ONE as int,
        ensures
            r.similarity_threshold == similarity_threshold,
            r.max_prefix_length == max_prefix_length,
            r.scaling_factor == scaling_factor,
            r.wf(),
    {
        JaroWinklerConfigOptions { similarity_threshold, max_prefix_length, scaling_factor }
    }
}

} // verus!
