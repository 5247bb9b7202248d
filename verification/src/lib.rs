//! Engine library of a local autocomplete service: text helpers, the instant
//! suggestion engine, ranking, a recency-ordered result cache, the context
//! history, metrics aggregation and the message types of the wire protocol.
use vstd::prelude::*;

pub mod seqs;
pub mod text;
pub mod util;
pub mod config;
pub mod engine;
pub mod metrics;
pub mod options;
pub mod ipc;

verus! {

} // verus!
