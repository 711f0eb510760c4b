//! A lock-free-style heap allocator engine, modelled and verified.
//!
//! The engine manages a contiguous heap region `[heap_start, heap_end)` with a
//! bump cursor and a table of segregated free lists ("buckets"), one per
//! power-of-two size class plus one oversize class.  Every block carved out of
//! the heap starts with an in-band descriptor record; the word immediately
//! preceding the payload holds the descriptor's base address so that `free`
//! can recover the descriptor from a bare payload pointer.
//!
//! The machine's raw memory is modelled: descriptor records live in a map
//! keyed by their base address, and the back-link words in a second map.  All
//! addresses are plain `u64` values, as on the 64-bit cores the engine
//! targets.  The atomic update protocol of the engine is modelled by its
//! linearization: each entry point is a sequential state transition, and the
//! contracts pin down exactly the state the corresponding atomic steps
//! publish.

use vstd::prelude::*;

pub mod layout;
pub mod memory;
pub mod oom;

verus! {

/// Sink for a failed heap allocation.  There is no recovery channel on a
/// bare-metal core: the real handler parks the core in an idle loop and never
/// hands control back.  Divergence lies outside this model, so the function
/// body is empty here; the engine's entry points surface the same event as a
/// `None` result, and no caller of the engine observes a return from the
/// sink.  The layout of the failed request is ignored, as there is nothing
/// left to do with it.
pub fn alloc_error_handler(_size: u64, _align: u64) {
}

} // verus!
