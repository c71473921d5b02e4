//! Document retrieval and ranking core of a full-text search engine.
//!
//! Query terms come compiled as automatons; an external stream source yields,
//! in ascending string order, every candidate string together with the places
//! where it occurs.  This crate aggregates that evidence per document and
//! returns the caller-requested window of the documents ranked under a
//! prioritized list of criteria, sorting only as much as the window demands.

pub mod collect;
pub mod criterion;
pub mod matching;
pub mod rank;
pub mod stream;
pub mod tasks;

use vstd::prelude::*;

verus! {

} // verus!
