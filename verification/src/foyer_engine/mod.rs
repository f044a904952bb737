//! The engine boundary: admission, the ordered write pipeline, recovery policy and
//! engine-level statistics.

use vstd::prelude::*;

pub mod admission;
pub mod config;
pub mod queue;
pub mod read;
pub mod recovery;
pub mod stats;
pub mod writer;

verus! {

} // verus!
