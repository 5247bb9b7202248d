//! Engine configuration.
use vstd::prelude::*;

verus! {

/// How long instant suggestions stay valid, how long the refinement waits,
/// and how many suggestions a request receives.
#[derive(Debug, Clone, Copy)]
pub struct EngineConfig {
    /// Validity of instant suggestions, in milliseconds.
    pub instant_deadline_ms: u64,
    /// Delay before the refined suggestions, in milliseconds.
    pub refined_delay_ms: u64,
    /// The most suggestions that one request receives.
    pub max_candidates: usize,
}

impl Default for EngineConfig {
    fn default() -> (r: Self)
        ensures
            r.instant_deadline_ms == 20,
            r.refined_delay_ms == 180,
            r.max_candidates == 3,
    {
        Self { instant_deadline_ms: 20, refined_delay_ms: 180, max_candidates: 3 }
    }
}

} // verus!
