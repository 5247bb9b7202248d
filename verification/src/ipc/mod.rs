//! The wire protocol's message types and the per-connection decisions.
use vstd::prelude::*;

pub mod protocol;
pub mod session;

verus! {

} // verus!
