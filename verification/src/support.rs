//! Shared plumbing: the dispatch result type.

use vstd::prelude::*;

verus! {

/// The outcome of a dispatched call or of one verification: `Ok`, or a
/// static message naming what went wrong.
pub type DispatchResult = Result<(), &'static str>;

} // verus!
