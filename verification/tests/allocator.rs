//! The allocator engine end to end: bump allocation, descriptor and
//! back-link placement, free-list recycling, the top-of-heap rewind, page
//! allocation, and heap exhaustion.

use ruspiro_allocator::layout::{DESCRIPTOR_SIZE, MM_MAGIC, N_CLASSES};
use ruspiro_allocator::memory::Heap;

const HEAP_START: u64 = 4096;
const HEAP_END: u64 = 64 * 1024 * 1024;

fn fresh_heap() -> Heap {
    Heap::new(HEAP_START, HEAP_END)
}

#[test]
fn empty_heap_first_allocation() {
    // 5 bytes, byte-aligned, on the empty heap: the block is based at the
    // very start of the region, in the 128 B class (60 + 1 + 5 = 66 bytes
    // physical), and the payload starts right after the descriptor and its
    // one byte of padding.
    let mut h = fresh_heap();
    let p = h.allocate(5, 1).unwrap();
    assert_eq!(p, HEAP_START + DESCRIPTOR_SIZE + 1);
    assert_eq!(h.cursor, HEAP_START + 128);
    let d = h.descriptors.get(&HEAP_START).unwrap();
    assert_eq!(d.magic, MM_MAGIC);
    assert_eq!(d.bucket, 1);
    assert_eq!(d.size, 128);
    assert_eq!(d.align, 1);
    assert_eq!(d.payload_addr, p);
    // The word below the payload back-links to the descriptor.
    assert_eq!(*h.links.get(&(p - 8)).unwrap(), HEAP_START);
}

#[test]
fn payload_is_aligned_and_bounded() {
    let mut h = fresh_heap();
    let p = h.allocate(100, 8).unwrap();
    assert_eq!(p % 8, 0);
    assert_eq!(p, 4160);
    // 60 + 8 + 100 = 168 physical bytes: the 256 B class.
    let d = h.descriptors.get(&HEAP_START).unwrap();
    assert_eq!(d.bucket, 2);
    assert_eq!(d.size, 256);
    assert!(d.size >= 100 + DESCRIPTOR_SIZE + 8);
    assert!(p + 100 <= HEAP_START + d.size);
}

#[test]
fn oversize_request_keeps_its_exact_size() {
    // 16 MiB, byte-aligned: no ladder class holds it; the block carries the
    // exact physical size, 16 MiB + descriptor + one byte of padding.
    let mut h = fresh_heap();
    let p = h.allocate(16 * 1024 * 1024, 1).unwrap();
    assert_eq!(p, HEAP_START + DESCRIPTOR_SIZE + 1);
    let d = h.descriptors.get(&HEAP_START).unwrap();
    assert_eq!(d.bucket, N_CLASSES);
    assert_eq!(d.size, 16 * 1024 * 1024 + DESCRIPTOR_SIZE + 1);
    assert_eq!(h.cursor, HEAP_START + d.size);
}

#[test]
fn free_at_top_rewinds_the_cursor() {
    // Allocate and free with nothing in between: the free lands on the top
    // block and restores the cursor exactly.
    let mut h = fresh_heap();
    let before = h.cursor;
    let p = h.allocate(100, 8).unwrap();
    assert_eq!(h.cursor, before + 256);
    h.free(p);
    assert_eq!(h.cursor, before);
    assert!(h.descriptors.get(&HEAP_START).is_none());
}

#[test]
fn free_then_alloc_returns_same_address_via_rewind() {
    let mut h = fresh_heap();
    let p = h.allocate(100, 8).unwrap();
    h.free(p);
    let q = h.allocate(100, 8).unwrap();
    assert_eq!(q, p);
}

#[test]
fn free_then_alloc_returns_same_address_via_queue() {
    // A second allocation guards the top, so the free cannot rewind and the
    // block goes through its class queue instead; the repeat request pops
    // it and lands on the same address.
    let mut h = fresh_heap();
    let p = h.allocate(100, 8).unwrap();
    let guard = h.allocate(100, 8).unwrap();
    assert_ne!(p, guard);
    h.free(p);
    // The freed block now heads its class queue and its magic is cleared.
    assert_eq!(h.free_buckets[2].head, HEAP_START);
    assert_eq!(h.free_buckets[2].tail, HEAP_START);
    assert_eq!(h.descriptors.get(&HEAP_START).unwrap().magic, 0);
    let q = h.allocate(100, 8).unwrap();
    assert_eq!(q, p);
    assert_eq!(h.descriptors.get(&HEAP_START).unwrap().magic, MM_MAGIC);
    // The queue is empty again.
    assert_eq!(h.free_buckets[2].head, 0);
    assert_eq!(h.free_buckets[2].tail, 0);
}

#[test]
fn queue_is_first_in_first_out() {
    let mut h = fresh_heap();
    let a = h.allocate(100, 8).unwrap();
    let b = h.allocate(100, 8).unwrap();
    let _top_guard = h.allocate(100, 8).unwrap();
    h.free(a);
    h.free(b);
    // Head and tail frame the two queued blocks in free order.
    assert_eq!(h.free_buckets[2].head, HEAP_START);
    assert_eq!(h.free_buckets[2].tail, HEAP_START + 256);
    // The next allocations of the class drain the queue oldest-first.
    assert_eq!(h.allocate(100, 8).unwrap(), a);
    assert_eq!(h.allocate(100, 8).unwrap(), b);
    // Queue empty: the next one is carved fresh off the cursor.
    let fresh = h.allocate(100, 8).unwrap();
    assert_ne!(fresh, a);
    assert_ne!(fresh, b);
}

#[test]
fn two_allocations_do_not_overlap() {
    // The sequential stand-in for two cores racing the cursor: the engine's
    // reservation hands out disjoint ranges.
    let mut h = fresh_heap();
    let p1 = h.allocate(64, 8).unwrap();
    let p2 = h.allocate(64, 8).unwrap();
    assert_ne!(p1, p2);
    assert!(p1 + 64 <= p2 || p2 + 64 <= p1);
}

#[test]
fn interleaved_allocs_account_for_every_byte() {
    // Every cursor move is exactly one block's worth; queue traffic moves
    // nothing.
    let mut h = fresh_heap();
    let a = h.allocate(100, 8).unwrap();
    let b = h.allocate(100, 8).unwrap();
    let c = h.allocate(100, 8).unwrap();
    assert_eq!(h.cursor, HEAP_START + 3 * 256);
    h.free(b);
    assert_eq!(h.cursor, HEAP_START + 3 * 256);
    h.free(c);
    assert_eq!(h.cursor, HEAP_START + 2 * 256);
    let d = h.allocate(100, 8).unwrap();
    // The queued middle block is re-used, not fresh memory.
    assert_eq!(d, b);
    assert_eq!(h.cursor, HEAP_START + 2 * 256);
    h.free(a);
    assert_eq!(h.cursor, HEAP_START + 2 * 256);
    // Freeing the re-used middle block now lands on the top and rewinds.
    h.free(d);
    assert_eq!(h.cursor, HEAP_START + 256);
}

#[test]
fn oversize_blocks_are_not_recycled() {
    // A freed oversize block is linked into the oversize queue for
    // observability, but allocation never consumes that queue.
    let mut h = fresh_heap();
    let big = h.allocate(4 * 1024 * 1024, 1).unwrap();
    let _top_guard = h.allocate(5, 1).unwrap();
    h.free(big);
    assert_eq!(h.free_buckets[N_CLASSES].head, HEAP_START);
    let big2 = h.allocate(4 * 1024 * 1024, 1).unwrap();
    assert_ne!(big2, big);
    // The freed block still sits in the oversize queue.
    assert_eq!(h.free_buckets[N_CLASSES].head, HEAP_START);
}

#[test]
fn page_allocation_is_page_aligned() {
    let mut h = fresh_heap();
    // The cursor sits exactly on a page boundary, which leaves no room for
    // the descriptor below it: one whole page is skipped.
    let p = h.alloc_page(2, 4096).unwrap();
    assert_eq!(p, 8192);
    assert_eq!(p % 4096, 0);
    assert_eq!(h.cursor, 8192 + 2 * 4096);
    let base = p - DESCRIPTOR_SIZE;
    let d = h.descriptors.get(&base).unwrap();
    assert_eq!(d.bucket, N_CLASSES);
    assert_eq!(d.size, 2 * 4096 + DESCRIPTOR_SIZE);
    assert_eq!(d.align, 4096);
    assert_eq!(*h.links.get(&(p - 8)).unwrap(), base);
}

#[test]
fn page_allocation_uses_a_gap_that_fits_the_descriptor() {
    let mut h = fresh_heap();
    // Nudge the cursor off the boundary so the gap below the next boundary
    // holds the descriptor.
    let small = h.allocate(5, 1).unwrap();
    assert_eq!(h.cursor, HEAP_START + 128);
    let p = h.alloc_page(1, 4096).unwrap();
    assert_eq!(p, 8192);
    assert_eq!(h.cursor, 8192 + 4096);
    // Freeing the page block rewinds the cursor to the descriptor base.
    h.free(p);
    assert_eq!(h.cursor, 8192 - DESCRIPTOR_SIZE);
    let _ = small;
}

#[test]
fn classed_allocation_fails_when_the_heap_is_full() {
    // 60 + 8 + 64 = 132 physical bytes, rounded to the 256 B class; a
    // 256-byte region cannot take it (the check is strict), smaller ones
    // even less so.
    let mut h = Heap::new(64, 64 + 256);
    assert_eq!(h.allocate(64, 8), None);
    // A small enough request still goes through.
    let p = h.allocate(5, 1);
    assert_eq!(p, Some(64 + DESCRIPTOR_SIZE + 1));
}

#[test]
fn oversize_allocation_fails_when_the_heap_is_full() {
    let mut h = Heap::new(64, 4096);
    assert_eq!(h.allocate(1024 * 1024 * 1024, 1), None);
    // A request beyond the machine word is refused outright.
    let mut h2 = fresh_heap();
    assert_eq!(h2.allocate(u64::MAX - 10, 1), None);
}

#[test]
fn page_allocation_fails_when_the_heap_is_full() {
    let mut h = Heap::new(64, 4096);
    assert_eq!(h.alloc_page(1, 4096), None);
    // The heap state is untouched by the refusal.
    assert_eq!(h.cursor, 64);
}

#[test]
fn recycled_block_serves_a_different_request_of_the_same_class() {
    // Any request of the same class re-uses the block; the payload moves
    // with the new alignment inside the same block.
    let mut h = fresh_heap();
    let p = h.allocate(100, 8).unwrap();
    let _top_guard = h.allocate(100, 8).unwrap();
    h.free(p);
    let q = h.allocate(150, 16).unwrap();
    // 60 + 16 + 150 = 226: same 256 B class, so the queued block at
    // HEAP_START is taken; its payload is 16-aligned.
    assert_eq!(q % 16, 0);
    assert_eq!(q, 4160);
    assert_eq!(h.descriptors.get(&HEAP_START).unwrap().align, 16);
}

#[test]
fn freed_block_serves_only_its_own_class() {
    let mut h = fresh_heap();
    let a = h.allocate(100, 8).unwrap();
    let _top_guard = h.allocate(100, 8).unwrap();
    h.free(a);
    // A request of another class ignores the queued block and bumps fresh
    // memory: 60 + 8 + 1000 = 1068 physical bytes, the 2 KiB class.
    let b = h.allocate(1000, 8).unwrap();
    assert_eq!(b, 4672);
    assert_eq!(h.free_buckets[2].head, HEAP_START);
    // The block's own class still finds it.
    let c = h.allocate(100, 8).unwrap();
    assert_eq!(c, a);
}
