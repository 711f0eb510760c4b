//! Out-of-memory terminator.

use vstd::prelude::*;

verus! {

/// Invoked when the heap is exhausted or an allocator invariant is violated.
/// There is nothing to be done on a bare-metal core other than halting it:
/// the real handler spins forever and never hands control back.  Divergence
/// lies outside this model, so the body is empty here; the engine's entry
/// points surface heap exhaustion as a `None` result instead, and no caller
/// of the engine observes a return from this sink.
pub fn rust_oom() {
}

} // verus!
