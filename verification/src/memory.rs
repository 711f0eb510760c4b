//! The allocator engine: heap cursor, descriptor store and free-list table.

use crate::layout::{
    bucket_size, is_power_of_two, lemma_alloc_size_bounds, lemma_payload_addr_bounds,
    size_class_of, spec_alloc_size, spec_bucket_size, spec_payload_addr, spec_size_class_of,
    DESCRIPTOR_SIZE, MM_MAGIC, N_CLASSES, WORD_SIZE,
};
use vstd::arithmetic::div_mod::{lemma_fundamental_div_mod, lemma_mod_multiples_basic};
use std::collections::HashMap;
use vstd::pervasive::VecAdditionalExecFns;
use vstd::prelude::*;

verus! {

broadcast use vstd::std_specs::hash::group_hash_axioms;

/// In-band metadata record stored at the base address of every block.
#[derive(Clone, Copy, Debug)]
pub struct MemoryDescriptor {
    /// Sentinel: `MM_MAGIC` while the block is owned by a live allocation,
    /// zero once it has been freed.
    pub magic: u32,
    /// Index of the size class this block belongs to, or `N_CLASSES` for an
    /// oversize block.
    pub bucket: usize,
    /// Total bytes the block occupies on the heap, descriptor included.
    pub size: u64,
    /// Requested alignment of the payload, in bytes.
    pub align: u64,
    /// Base address of the preceding queue node while on a free list, zero
    /// otherwise.
    pub prev: u64,
    /// Base address of the following queue node while on a free list, zero
    /// otherwise.
    pub next: u64,
    /// Absolute address of the first payload byte.
    pub payload_addr: u64,
}

/// Head and tail of one per-class FIFO of recyclable blocks; both zero when
/// the queue is empty.
#[derive(Clone, Copy, Debug)]
pub struct BucketQueue {
    pub head: u64,
    pub tail: u64,
}

/// The allocator engine for one heap region.
///
/// The machine's raw memory is modelled by two maps: `descriptors` holds the
/// descriptor record written at the base of every block currently carved out
/// of the heap, and `links` holds the back-link words, each stored in the
/// word just below a payload and naming the owning descriptor's base.  The
/// `blocks` ghost sequence lists the block bases in address order, and
/// `queues` lists each free list's members from head to tail.
///
/// The state is deliberately transparent: every field is public so that the
/// contracts can speak of it directly and callers can observe it, and the
/// invariant `wf`, which every operation requires and preserves, is what
/// keeps it consistent.
pub struct Heap {
    /// First byte of the managed region.
    pub heap_start: u64,
    /// One past the last byte of the managed region.
    pub heap_end: u64,
    /// Next free byte of the bump region; everything below it is carved into
    /// blocks or recorded as `wasted`.
    pub cursor: u64,
    /// Descriptor records, keyed by block base address.
    pub descriptors: HashMap<u64, MemoryDescriptor>,
    /// Back-link words, keyed by the address of the word below a payload.
    pub links: HashMap<u64, u64>,
    /// One free-list queue per size class, plus one for the oversize class.
    pub free_buckets: Vec<BucketQueue>,
    /// Members of each free-list queue, head first.
    pub queues: Ghost<Seq<Seq<u64>>>,
    /// Block bases in ascending address order.
    pub blocks: Ghost<Seq<u64>>,
    /// Bytes skipped for page alignment, dead until the program ends.
    pub wasted: Ghost<nat>,
}

/// Sum of the `size` fields of the blocks listed in `s`.
pub open spec fn blocks_bytes(s: Seq<u64>, m: Map<u64, MemoryDescriptor>) -> int
    decreases s.len(),
{
    if s.len() == 0 {
        0
    } else {
        blocks_bytes(s.drop_last(), m) + m[s.last()].size
    }
}

/// The sum is untouched by descriptor updates that keep every listed block's
/// size.
proof fn lemma_blocks_bytes_congruence(
    s: Seq<u64>,
    m1: Map<u64, MemoryDescriptor>,
    m2: Map<u64, MemoryDescriptor>,
)
    requires
        forall|i: int| 0 <= i < s.len() ==> m1[#[trigger] s[i]].size == m2[s[i]].size,
    ensures
        blocks_bytes(s, m1) == blocks_bytes(s, m2),
    decreases s.len(),
{
    if s.len() > 0 {
        assert(s.drop_last() =~= s.subrange(0, s.len() - 1));
        lemma_blocks_bytes_congruence(s.drop_last(), m1, m2);
        assert(m1[s.last()].size == m2[s.last()].size);
    }
}

/// Appending a block adds its size to the sum.
proof fn lemma_blocks_bytes_push(s: Seq<u64>, m: Map<u64, MemoryDescriptor>, x: u64)
    ensures
        blocks_bytes(s.push(x), m) == blocks_bytes(s, m) + m[x].size,
{
    assert(s.push(x).drop_last() =~= s);
    assert(s.push(x).last() == x);
}

/// What taking the head of bucket `c`'s free list does: a miss (an empty or
/// oversize queue) leaves the engine untouched; a hit hands out the head,
/// unchains it, and clears the new head's back pointer.  Nothing else moves.
pub open spec fn pop_rel(pre: Heap, post: Heap, c: int, r: Option<u64>) -> bool {
    &&& post.heap_start == pre.heap_start
    &&& post.heap_end == pre.heap_end
    &&& post.cursor == pre.cursor
    &&& post.links@ == pre.links@
    &&& post.blocks@ == pre.blocks@
    &&& post.wasted@ == pre.wasted@
    &&& if c == N_CLASSES || pre.queue(c).len() == 0 {
        &&& r is None
        &&& post.descriptors@ == pre.descriptors@
        &&& post.queues@ == pre.queues@
        &&& post.free_buckets@ == pre.free_buckets@
    } else {
        let q = pre.queue(c);
        &&& r == Some(q[0])
        &&& post.queues@ == pre.queues@.update(c, q.subrange(1, q.len() as int))
        &&& post.descriptors@ == (if q.len() > 1 {
            pre.descriptors@.insert(q[1], (MemoryDescriptor { prev: 0, ..pre.desc(q[1]) }))
        } else {
            pre.descriptors@
        })
    }
}

/// What appending a freed block to its bucket's free list does: the block
/// becomes the tail, chained behind the previous tail.  Nothing else moves.
pub open spec fn push_rel(pre: Heap, post: Heap, b: u64) -> bool {
    let c = pre.desc(b).bucket as int;
    let q = pre.queue(c);
    let tail = if q.len() == 0 {
        0u64
    } else {
        q[q.len() - 1]
    };
    &&& post.heap_start == pre.heap_start
    &&& post.heap_end == pre.heap_end
    &&& post.cursor == pre.cursor
    &&& post.links@ == pre.links@
    &&& post.blocks@ == pre.blocks@
    &&& post.wasted@ == pre.wasted@
    &&& post.queues@ == pre.queues@.update(c, q.push(b))
    &&& post.descriptors@ == (if q.len() > 0 {
        pre.descriptors@.insert(b, (MemoryDescriptor { prev: tail, next: 0, ..pre.desc(b) })).insert(
            tail,
            (MemoryDescriptor { next: b, ..pre.desc(tail) }),
        )
    } else {
        pre.descriptors@.insert(b, (MemoryDescriptor { prev: 0, next: 0, ..pre.desc(b) }))
    })
}

/// What freeing the payload at `p` does.  The engine recovers the block from
/// the back-link word below `p`.  If the block ends exactly at the heap
/// cursor, the cursor is swung back to the block's base and the block ceases
/// to exist: the fast path that keeps the heap compact under stack-like use.
/// Otherwise the block's magic is cleared and it is chained onto the tail of
/// its bucket's free list.
pub open spec fn free_rel(pre: Heap, post: Heap, p: u64) -> bool {
    let b = pre.links@[(p - WORD_SIZE) as u64];
    let d = pre.desc(b);
    &&& post.heap_start == pre.heap_start
    &&& post.heap_end == pre.heap_end
    &&& post.wasted@ == pre.wasted@
    &&& if b + d.size == pre.cursor {
        &&& post.cursor == b
        &&& pre.blocks@.len() > 0 && pre.blocks@.last() == b
        &&& post.blocks@ == pre.blocks@.drop_last()
        &&& post.descriptors@ == pre.descriptors@.remove(b)
        &&& post.links@ == pre.links@
        &&& post.queues@ == pre.queues@
    } else {
        let c = d.bucket as int;
        let q = pre.queue(c);
        let tail = if q.len() == 0 {
            0u64
        } else {
            q[q.len() - 1]
        };
        &&& post.cursor == pre.cursor
        &&& post.blocks@ == pre.blocks@
        &&& post.links@ == pre.links@
        &&& post.queues@ == pre.queues@.update(c, q.push(b))
        &&& post.descriptors@ == (if q.len() > 0 {
            pre.descriptors@.insert(
                b,
                (MemoryDescriptor { magic: 0, prev: tail, next: 0, ..d }),
            ).insert(tail, (MemoryDescriptor { next: b, ..pre.desc(tail) }))
        } else {
            pre.descriptors@.insert(b, (MemoryDescriptor { magic: 0, prev: 0, next: 0, ..d }))
        })
    }
}

/// Whether an allocation request will be served from a free list: its class
/// is a ladder class and that class's queue is non-empty.
pub open spec fn alloc_hit(pre: Heap, req: int, align: int) -> bool {
    let c = spec_size_class_of(req, align);
    c < N_CLASSES && pre.queue(c).len() > 0
}

/// What allocating `req` bytes aligned to `align` does.  A classed request
/// first tries the head of its class's free list; on a miss the block is
/// carved off the bump cursor, provided enough forward memory remains —
/// otherwise the request is refused (the real engine would hand the core to
/// the out-of-memory sink).  Either way the block's descriptor is written
/// live and the back-link word below the payload names the block's base.
pub open spec fn alloc_rel(pre: Heap, post: Heap, req: u64, align: u64, r: Option<u64>) -> bool {
    let c = spec_size_class_of(req as int, align as int);
    let hit = alloc_hit(pre, req as int, align as int);
    let base = if hit {
        pre.queue(c)[0]
    } else {
        pre.cursor
    };
    let asize = spec_alloc_size(req as int, align as int);
    let ok = hit || pre.cursor + asize < pre.heap_end;
    let payload = spec_payload_addr(base as int, align as int);
    let newd = (MemoryDescriptor {
        magic: MM_MAGIC,
        bucket: c as usize,
        size: asize as u64,
        align,
        prev: 0,
        next: 0,
        payload_addr: payload as u64,
    });
    &&& post.heap_start == pre.heap_start
    &&& post.heap_end == pre.heap_end
    &&& post.wasted@ == pre.wasted@
    &&& !ok ==> {
        &&& r is None
        &&& post.cursor == pre.cursor
        &&& post.descriptors@ == pre.descriptors@
        &&& post.links@ == pre.links@
        &&& post.queues@ == pre.queues@
        &&& post.free_buckets@ == pre.free_buckets@
        &&& post.blocks@ == pre.blocks@
    }
    &&& ok ==> {
        &&& r == Some(payload as u64)
        &&& post.links@ == pre.links@.insert((payload - WORD_SIZE) as u64, base)
        &&& hit ==> {
            let q = pre.queue(c);
            &&& post.cursor == pre.cursor
            &&& post.blocks@ == pre.blocks@
            &&& post.queues@ == pre.queues@.update(c, q.subrange(1, q.len() as int))
            &&& post.descriptors@ == (if q.len() > 1 {
                pre.descriptors@.insert(
                    q[1],
                    (MemoryDescriptor { prev: 0, ..pre.desc(q[1]) }),
                ).insert(base, newd)
            } else {
                pre.descriptors@.insert(base, newd)
            })
        }
        &&& !hit ==> {
            &&& post.cursor == pre.cursor + asize
            &&& post.blocks@ == pre.blocks@.push(base)
            &&& post.queues@ == pre.queues@
            &&& post.free_buckets@ == pre.free_buckets@
            &&& post.descriptors@ == pre.descriptors@.insert(base, newd)
        }
    }
}

/// First address at or above `cursor` where a page-aligned block can start:
/// the cursor rounded up to the page boundary, skipped one page further when
/// the gap below the boundary has no room for the descriptor.
pub open spec fn spec_page_start(cursor: int, page_size: int) -> int {
    let aligned = ((cursor + page_size - 1) / page_size) * page_size;
    if aligned - cursor < DESCRIPTOR_SIZE {
        aligned + page_size
    } else {
        aligned
    }
}

/// What allocating `num` pages of `page_size` bytes does: the block is always
/// carved fresh off the heap, never taken from a free list; its payload
/// starts at the page boundary with the descriptor immediately below it, and
/// the bytes skipped to reach the boundary are dead for good.
pub open spec fn page_rel(pre: Heap, post: Heap, num: u64, page_size: u64, r: Option<u64>) -> bool {
    let start = spec_page_start(pre.cursor as int, page_size as int);
    let bytes = num * page_size;
    let base = start - DESCRIPTOR_SIZE;
    let ok = start + bytes <= pre.heap_end;
    let newd = (MemoryDescriptor {
        magic: MM_MAGIC,
        bucket: N_CLASSES,
        size: (bytes + DESCRIPTOR_SIZE) as u64,
        align: page_size,
        prev: 0,
        next: 0,
        payload_addr: start as u64,
    });
    &&& post.heap_start == pre.heap_start
    &&& post.heap_end == pre.heap_end
    &&& post.queues@ == pre.queues@
    &&& post.free_buckets@ == pre.free_buckets@
    &&& !ok ==> {
        &&& r is None
        &&& post.cursor == pre.cursor
        &&& post.descriptors@ == pre.descriptors@
        &&& post.links@ == pre.links@
        &&& post.blocks@ == pre.blocks@
        &&& post.wasted@ == pre.wasted@
    }
    &&& ok ==> {
        &&& r == Some(start as u64)
        &&& post.cursor == start + bytes
        &&& post.wasted@ == pre.wasted@ + (base - pre.cursor)
        &&& post.descriptors@ == pre.descriptors@.insert(base as u64, newd)
        &&& post.links@ == pre.links@.insert((start - WORD_SIZE) as u64, base as u64)
        &&& post.blocks@ == pre.blocks@.push(base as u64)
    }
}

impl Heap {
    /// The descriptor stored at base address `b`.
    pub open spec fn desc(self, b: u64) -> MemoryDescriptor {
        self.descriptors@[b]
    }

    /// Whether a block is based at address `b`.
    pub open spec fn is_block(self, b: u64) -> bool {
        self.descriptors@.contains_key(b)
    }

    /// Whether the block based at `b` is owned by a live allocation.
    pub open spec fn is_live(self, b: u64) -> bool {
        self.is_block(b) && self.desc(b).magic == MM_MAGIC
    }

    /// The free-list queue of bucket `c`, head first.
    pub open spec fn queue(self, c: int) -> Seq<u64> {
        self.queues@[c]
    }

    /// Address of the back-link word of a block based at `b`.
    pub open spec fn slot(self, b: u64) -> u64 {
        (self.desc(b).payload_addr - WORD_SIZE) as u64
    }

    /// Whether `p` is the payload address of a live allocation: the word
    /// below `p` back-links to a block whose descriptor is live and names
    /// `p` as its payload.
    pub open spec fn is_live_payload(self, p: u64) -> bool {
        &&& p >= WORD_SIZE
        &&& self.links@.contains_key((p - WORD_SIZE) as u64)
        &&& self.is_live(self.links@[(p - WORD_SIZE) as u64])
        &&& self.desc(self.links@[(p - WORD_SIZE) as u64]).payload_addr == p
    }

    /// Global configuration: the region is non-degenerate (zero is reserved
    /// as the null link), the cursor stays inside it, and the free-list
    /// table has one queue per class plus the oversize one.
    pub open spec fn wf_config(self) -> bool {
        &&& 0 < self.heap_start <= self.cursor <= self.heap_end
        &&& self.free_buckets@.len() == N_CLASSES + 1
        &&& self.queues@.len() == N_CLASSES + 1
    }

    /// Shape of a single block: it lies inside the carved region, its size
    /// matches its bucket, and its payload sits past the descriptor and
    /// within the block.
    pub open spec fn block_wf(self, b: u64) -> bool {
        let d = self.desc(b);
        &&& self.heap_start <= b
        &&& b + d.size <= self.cursor
        &&& 0 <= d.bucket <= N_CLASSES
        &&& d.bucket < N_CLASSES ==> d.size == spec_bucket_size(d.bucket as int)
        &&& d.bucket == N_CLASSES ==> d.size >= DESCRIPTOR_SIZE
        &&& d.align >= 1
        &&& b + DESCRIPTOR_SIZE <= d.payload_addr <= b + d.size
        &&& d.magic == MM_MAGIC || d.magic == 0
        &&& d.magic == MM_MAGIC ==> {
            &&& d.payload_addr % d.align == 0
            &&& self.links@.contains_key(self.slot(b))
            &&& self.links@[self.slot(b)] == b
        }
    }

    /// The `blocks` sequence lists exactly the block bases, in ascending
    /// order and without overlap between consecutive blocks.
    pub open spec fn wf_blocks(self) -> bool {
        &&& forall|x: u64| #[trigger] self.descriptors@.contains_key(x) ==> self.blocks@.contains(x)
        &&& forall|x: u64| #[trigger] self.blocks@.contains(x) ==> self.descriptors@.contains_key(x)
        &&& forall|i: int|
            #![trigger self.blocks@[i]]
            0 <= i < self.blocks@.len() - 1 ==> self.blocks@[i] + self.desc(self.blocks@[i]).size
                <= self.blocks@[i + 1]
    }

    /// Shape of the free-list queue of bucket `c`: head and tail frame the
    /// ghost member list, and the members are chained through their `prev`
    /// and `next` fields in list order, all freed, all tagged with `c`.
    pub open spec fn queue_wf(self, c: int) -> bool {
        let q = self.queue(c);
        &&& self.free_buckets@[c].head == (if q.len() == 0 {
            0
        } else {
            q[0]
        })
        &&& self.free_buckets@[c].tail == (if q.len() == 0 {
            0
        } else {
            q[q.len() - 1]
        })
        &&& forall|i: int|
            0 <= i < q.len() ==> self.descriptors@.contains_key(#[trigger] q[i])
        &&& forall|i: int| 0 <= i < q.len() ==> (#[trigger] self.desc(q[i])).magic == 0
        &&& forall|i: int| 0 <= i < q.len() ==> (#[trigger] self.desc(q[i])).bucket == c
        &&& forall|i: int|
            0 <= i < q.len() ==> (#[trigger] self.desc(q[i])).prev == (if i == 0 {
                0
            } else {
                q[i - 1]
            })
        &&& forall|i: int|
            0 <= i < q.len() ==> (#[trigger] self.desc(q[i])).next == (if i == q.len() - 1 {
                0
            } else {
                q[i + 1]
            })
        &&& forall|i: int, j: int|
            #![trigger q[i], q[j]]
            0 <= i < j < q.len() ==> q[i] != q[j]
    }

    /// Conservation of the heap: every byte between the region start and the
    /// cursor is accounted for by exactly one block or by page-alignment
    /// waste.
    pub open spec fn wf_conservation(self) -> bool {
        blocks_bytes(self.blocks@, self.descriptors@) + self.wasted@ == self.cursor
            - self.heap_start
    }

    /// The engine's invariant.
    pub open spec fn wf(self) -> bool {
        &&& self.wf_config()
        &&& forall|b: u64| self.descriptors@.contains_key(b) ==> #[trigger] self.block_wf(b)
        &&& self.wf_blocks()
        &&& forall|c: int| 0 <= c <= N_CLASSES ==> #[trigger] self.queue_wf(c)
        &&& self.wf_conservation()
    }

    /// Index of a block's base in the address-ordered block list.
    proof fn block_index(self, b: u64) -> (i: int)
        requires
            self.wf(),
            self.is_block(b),
        ensures
            0 <= i < self.blocks@.len(),
            self.blocks@[i] == b,
    {
        assert(self.blocks@.contains(b));
        choose|i: int| 0 <= i < self.blocks@.len() && self.blocks@[i] == b
    }

    /// Transitive reading of the adjacent-ordering clause: any earlier block
    /// ends at or before any later block begins.
    proof fn lemma_blocks_chain(self, i: int, j: int)
        requires
            self.wf(),
            0 <= i < j < self.blocks@.len(),
        ensures
            self.blocks@[i] + self.desc(self.blocks@[i]).size <= self.blocks@[j],
        decreases j - i,
    {
        if i + 1 < j {
            self.lemma_blocks_chain(i, j - 1);
        }
    }

    /// Two distinct blocks occupy disjoint address ranges.
    pub proof fn lemma_blocks_disjoint(self, b1: u64, b2: u64)
        requires
            self.wf(),
            self.is_block(b1),
            self.is_block(b2),
            b1 != b2,
        ensures
            b1 + self.desc(b1).size <= b2 || b2 + self.desc(b2).size <= b1,
    {
        let i = self.block_index(b1);
        let j = self.block_index(b2);
        if i < j {
            self.lemma_blocks_chain(i, j);
        } else {
            self.lemma_blocks_chain(j, i);
        }
    }

    /// Every block is at least one byte long, so the ordered block list is
    /// strictly increasing and lists each base once.
    proof fn lemma_blocks_strict(self, i: int, j: int)
        requires
            self.wf(),
            0 <= i < j < self.blocks@.len(),
        ensures
            self.blocks@[i] < self.blocks@[j],
    {
        self.lemma_blocks_chain(i, j);
        assert(self.blocks@.contains(self.blocks@[i]));
        assert(self.block_wf(self.blocks@[i]));
    }

    /// A fresh engine for the region `[heap_start, heap_end)`.  The lazy
    /// publication of the region start into the shared cursor happens here,
    /// before any allocation can observe the cursor.
    pub fn new(heap_start: u64, heap_end: u64) -> (h: Heap)
        requires
            0 < heap_start <= heap_end,
        ensures
            h.wf(),
            h.heap_start == heap_start,
            h.heap_end == heap_end,
            h.cursor == heap_start,
            h.descriptors@ == Map::<u64, MemoryDescriptor>::empty(),
            h.links@ == Map::<u64, u64>::empty(),
            h.blocks@ == Seq::<u64>::empty(),
            h.wasted@ == 0,
            forall|c: int| 0 <= c <= N_CLASSES ==> #[trigger] h.queue(c) == Seq::<u64>::empty(),
    {
        let mut free_buckets: Vec<BucketQueue> = Vec::new();
        let ghost empty_queues = Seq::<Seq<u64>>::new((N_CLASSES + 1) as nat, |c: int| Seq::empty());
        while free_buckets.len() < N_CLASSES + 1
            invariant
                free_buckets@.len() <= N_CLASSES + 1,
                forall|c: int|
                    0 <= c < free_buckets@.len() ==> (#[trigger] free_buckets@[c]).head == 0
                        && free_buckets@[c].tail == 0,
            decreases N_CLASSES + 1 - free_buckets.len(),
        {
            free_buckets.push(BucketQueue { head: 0, tail: 0 });
        }
        let h = Heap {
            heap_start,
            heap_end,
            cursor: heap_start,
            descriptors: HashMap::new(),
            links: HashMap::new(),
            free_buckets,
            queues: Ghost(empty_queues),
            blocks: Ghost(Seq::empty()),
            wasted: Ghost(0),
        };
        proof {
            assert forall|c: int| 0 <= c <= N_CLASSES implies #[trigger] h.queue_wf(c) by {
                assert(h.queue(c).len() == 0);
            }
        }
        h
    }

    /// Take the next re-usable block from the head of bucket `bucket`'s free
    /// list.  The head swing is a compare-and-swap in the engine's protocol;
    /// its linearized effect is `pop_rel`.  The oversize queue is never
    /// consumed: a dynamically sized block is not re-used.
    #[verifier::spinoff_prover]
    #[verifier::rlimit(100)]
    fn pop_from_free_bucket(&mut self, bucket: usize) -> (r: Option<u64>)
        requires
            old(self).wf(),
            bucket <= N_CLASSES,
        ensures
            final(self).wf(),
            pop_rel(*old(self), *final(self), bucket as int, r),
    {
        let ghost pre = *self;
        let ghost c = bucket as int;
        if bucket == N_CLASSES {
            return None;
        }
        proof {
            assert(pre.queue_wf(c));
        }
        let q = self.free_buckets[bucket];
        if q.head == 0 {
            proof {
                if pre.queue(c).len() > 0 {
                    let h0 = pre.queue(c)[0];
                    assert(pre.descriptors@.contains_key(h0));
                    assert(pre.block_wf(h0));
                }
                assert(pre.queue(c).len() == 0);
            }
            return None;
        }
        let head = q.head;
        let ghost q0 = pre.queue(c);
        proof {
            if q0.len() == 0 {
                assert(pre.free_buckets@[c].head == 0);
            }
            assert(q0.len() > 0);
            assert(head == q0[0]);
            assert(pre.descriptors@.contains_key(head));
            assert(pre.block_wf(head));
        }
        let d = *self.descriptors.get(&head).unwrap();
        let next = d.next;
        if next != 0 {
            proof {
                assert(d.next == (if 0 == q0.len() - 1 {
                    0u64
                } else {
                    q0[1]
                }));
                assert(q0.len() > 1 && next == q0[1]);
                assert(pre.descriptors@.contains_key(q0[1]));
            }
            let nd = *self.descriptors.get(&next).unwrap();
            self.descriptors.insert(next, MemoryDescriptor { prev: 0, ..nd });
            self.free_buckets.set(bucket, BucketQueue { head: next, tail: q.tail });
        } else {
            proof {
                if q0.len() > 1 {
                    assert(pre.descriptors@.contains_key(q0[1]));
                    assert(pre.block_wf(q0[1]));
                }
                assert(q0.len() == 1);
            }
            self.free_buckets.set(bucket, BucketQueue { head: 0, tail: 0 });
        }
        self.queues = Ghost(self.queues@.update(c, self.queues@[c].subrange(1, self.queues@[c].len() as int)));
        proof {
            let post = *self;
            let qn = q0.subrange(1, q0.len() as int);
            assert(post.queue(c) == qn);
            assert(post.descriptors@.dom() =~= pre.descriptors@.dom());
            assert forall|b: u64| post.descriptors@.contains_key(b) implies #[trigger] post.block_wf(
                b,
            ) by {
                assert(pre.descriptors@.contains_key(b));
                assert(pre.block_wf(b));
            }
            assert forall|x: u64| post.descriptors@.contains_key(x) implies post.blocks@.contains(
                x,
            ) by {
                assert(pre.descriptors@.contains_key(x));
            }
            assert forall|x: u64| post.blocks@.contains(x) implies post.descriptors@.contains_key(
                x,
            ) by {
                assert(pre.blocks@.contains(x));
            }
            assert forall|i: int|
                0 <= i < post.blocks@.len() - 1 implies #[trigger] post.blocks@[i] + post.desc(
                post.blocks@[i],
            ).size <= post.blocks@[i + 1] by {
                assert(pre.blocks@[i] + pre.desc(pre.blocks@[i]).size <= pre.blocks@[i + 1]);
            }
            assert forall|c2: int| 0 <= c2 <= N_CLASSES implies #[trigger] post.queue_wf(c2) by {
                assert(pre.queue_wf(c2));
                if c2 == c {
                    assert forall|i: int|
                        0 <= i < qn.len() implies post.descriptors@.contains_key(
                        #[trigger] qn[i],
                    ) by {
                        assert(qn[i] == q0[i + 1]);
                    }
                    assert forall|i: int|
                        0 <= i < qn.len() implies (#[trigger] post.desc(qn[i])).magic == 0 && post.desc(
                        qn[i],
                    ).bucket == c2 by {
                        assert(qn[i] == q0[i + 1]);
                        assert(pre.desc(q0[i + 1]).magic == 0);
                        assert(pre.desc(q0[i + 1]).bucket == c2);
                    }
                    assert forall|i: int|
                        0 <= i < qn.len() implies (#[trigger] post.desc(qn[i])).prev == (if i == 0 {
                        0u64
                    } else {
                        qn[i - 1]
                    }) by {
                        assert(qn[i] == q0[i + 1]);
                        if i > 0 {
                            assert(q0[i + 1] != q0[1]);
                            assert(pre.desc(q0[i + 1]).prev == q0[i]);
                        }
                    }
                    assert forall|i: int|
                        0 <= i < qn.len() implies (#[trigger] post.desc(qn[i])).next == (if i
                        == qn.len() - 1 {
                        0u64
                    } else {
                        qn[i + 1]
                    }) by {
                        assert(qn[i] == q0[i + 1]);
                        assert(pre.desc(q0[i + 1]).next == (if i + 1 == q0.len() - 1 {
                            0u64
                        } else {
                            q0[i + 2]
                        }));
                    }
                    assert forall|i: int, j: int|
                        #![trigger qn[i], qn[j]]
                        0 <= i < j < qn.len() implies qn[i] != qn[j] by {
                        assert(qn[i] == q0[i + 1] && qn[j] == q0[j + 1]);
                    }
                } else {
                    assert(post.queue(c2) == pre.queue(c2));
                    let q2 = pre.queue(c2);
                    assert forall|i: int|
                        0 <= i < q2.len() implies post.descriptors@.contains_key(#[trigger] q2[i])
                        && post.desc(q2[i]) == pre.desc(q2[i]) by {
                        assert(pre.desc(q2[i]).bucket == c2);
                        if q0.len() > 1 {
                            assert(pre.desc(q0[1]).bucket == c);
                        }
                    }
                }
            }
            lemma_blocks_bytes_congruence(post.blocks@, pre.descriptors@, post.descriptors@);
            assert(post.wf());
            assert(pop_rel(pre, post, c, Some(head)));
        }
        Some(head)
    }

    /// Chain a freed block onto the tail of its bucket's free list.  The
    /// tail swing is a compare-and-swap in the engine's protocol; its
    /// linearized effect is `push_rel`.
    #[verifier::spinoff_prover]
    #[verifier::rlimit(100)]
    fn push_to_free_bucket(&mut self, base: u64)
        requires
            old(self).wf(),
            old(self).is_block(base),
            old(self).desc(base).magic == 0,
            forall|c: int| 0 <= c <= N_CLASSES ==> !(#[trigger] old(self).queue(c)).contains(base),
        ensures
            final(self).wf(),
            push_rel(*old(self), *final(self), base),
    {
        let ghost pre = *self;
        let d = *self.descriptors.get(&base).unwrap();
        let bucket = d.bucket;
        let ghost c = bucket as int;
        let ghost q0 = pre.queue(c);
        proof {
            assert(pre.block_wf(base));
            assert(pre.queue_wf(c));
            assert(!q0.contains(base));
            if q0.len() > 0 {
                assert(q0[q0.len() - 1] != base);
                assert(pre.descriptors@.contains_key(q0[q0.len() - 1]));
                assert(pre.block_wf(q0[q0.len() - 1]));
            }
        }
        let q = self.free_buckets[bucket];
        let tail = q.tail;
        self.descriptors.insert(base, MemoryDescriptor { prev: tail, next: 0, ..d });
        if tail != 0 {
            proof {
                assert(q0.len() > 0);
                assert(tail == q0[q0.len() - 1]);
            }
            let td = *self.descriptors.get(&tail).unwrap();
            self.descriptors.insert(tail, MemoryDescriptor { next: base, ..td });
            self.free_buckets.set(bucket, BucketQueue { head: q.head, tail: base });
        } else {
            proof {
                if q0.len() > 0 {
                    assert(pre.free_buckets@[c].tail == q0[q0.len() - 1]);
                }
                assert(q0.len() == 0);
            }
            self.free_buckets.set(bucket, BucketQueue { head: base, tail: base });
        }
        self.queues = Ghost(self.queues@.update(c, self.queues@[c].push(base)));
        proof {
            let post = *self;
            let qn = q0.push(base);
            assert(post.queue(c) == qn);
            assert(post.descriptors@.dom() =~= pre.descriptors@.dom());
            assert forall|b: u64| post.descriptors@.contains_key(b) implies #[trigger] post.block_wf(
                b,
            ) by {
                assert(pre.descriptors@.contains_key(b));
                assert(pre.block_wf(b));
            }
            assert forall|x: u64| post.descriptors@.contains_key(x) implies post.blocks@.contains(
                x,
            ) by {
                assert(pre.descriptors@.contains_key(x));
            }
            assert forall|x: u64| post.blocks@.contains(x) implies post.descriptors@.contains_key(
                x,
            ) by {
                assert(pre.blocks@.contains(x));
            }
            assert forall|i: int|
                0 <= i < post.blocks@.len() - 1 implies #[trigger] post.blocks@[i] + post.desc(
                post.blocks@[i],
            ).size <= post.blocks@[i + 1] by {
                assert(pre.blocks@[i] + pre.desc(pre.blocks@[i]).size <= pre.blocks@[i + 1]);
            }
            assert forall|c2: int| 0 <= c2 <= N_CLASSES implies #[trigger] post.queue_wf(c2) by {
                assert(pre.queue_wf(c2));
                if c2 == c {
                    assert forall|i: int|
                        0 <= i < qn.len() implies post.descriptors@.contains_key(
                        #[trigger] qn[i],
                    ) by {
                        if i < q0.len() {
                            assert(qn[i] == q0[i]);
                        } else {
                            assert(qn[i] == base);
                        }
                    }
                    assert forall|i: int|
                        0 <= i < qn.len() implies (#[trigger] post.desc(qn[i])).magic == 0 && post.desc(
                        qn[i],
                    ).bucket == c2 by {
                        if i < q0.len() {
                            assert(qn[i] == q0[i]);
                            assert(pre.desc(q0[i]).magic == 0 && pre.desc(q0[i]).bucket == c2);
                        } else {
                            assert(qn[i] == base);
                        }
                    }
                    assert forall|i: int|
                        0 <= i < qn.len() implies (#[trigger] post.desc(qn[i])).prev == (if i == 0 {
                        0u64
                    } else {
                        qn[i - 1]
                    }) by {
                        if i < q0.len() {
                            assert(qn[i] == q0[i]);
                            if i > 0 && q0.len() > 0 {
                                assert(q0[i] != q0[q0.len() - 1] || i == q0.len() - 1);
                            }
                            assert(pre.desc(q0[i]).prev == (if i == 0 {
                                0u64
                            } else {
                                q0[i - 1]
                            }));
                        } else {
                            assert(qn[i] == base);
                        }
                    }
                    assert forall|i: int|
                        0 <= i < qn.len() implies (#[trigger] post.desc(qn[i])).next == (if i
                        == qn.len() - 1 {
                        0u64
                    } else {
                        qn[i + 1]
                    }) by {
                        if i < q0.len() - 1 {
                            assert(qn[i] == q0[i]);
                            assert(q0[i] != q0[q0.len() - 1]);
                            assert(q0[i] != base);
                            assert(pre.desc(q0[i]).next == q0[i + 1]);
                        } else if i == q0.len() - 1 {
                            assert(qn[i] == q0[i]);
                            assert(qn[i + 1] == base);
                        } else {
                            assert(qn[i] == base);
                        }
                    }
                    assert forall|i: int, j: int|
                        #![trigger qn[i], qn[j]]
                        0 <= i < j < qn.len() implies qn[i] != qn[j] by {
                        if j < q0.len() {
                            assert(qn[i] == q0[i] && qn[j] == q0[j]);
                        } else {
                            assert(qn[j] == base);
                            assert(qn[i] == q0[i]);
                            assert(!q0.contains(base));
                            assert(q0[i] != base);
                        }
                    }
                } else {
                    assert(post.queue(c2) == pre.queue(c2));
                    let q2 = pre.queue(c2);
                    assert forall|i: int|
                        0 <= i < q2.len() implies post.descriptors@.contains_key(#[trigger] q2[i])
                        && post.desc(q2[i]) == pre.desc(q2[i]) by {
                        assert(pre.desc(q2[i]).bucket == c2);
                        assert(q2[i] != base);
                        if q0.len() > 0 {
                            assert(pre.desc(q0[q0.len() - 1]).bucket == c);
                        }
                    }
                }
            }
            lemma_blocks_bytes_congruence(post.blocks@, pre.descriptors@, post.descriptors@);
            assert(post.wf());
            assert(push_rel(pre, post, base));
        }
    }

    /// Allocate `num` pages of `page_size` bytes (a power of two no smaller
    /// than the descriptor), page-aligned and never served from the free
    /// lists.  The cursor is rounded up to the next boundary that leaves
    /// room for the descriptor below the payload; the skipped bytes stay
    /// dead.  The bound on `heap_end` keeps the boundary computation inside
    /// the machine word.  A `None` result is the out-of-memory event.
    #[verifier::spinoff_prover]
    #[verifier::rlimit(100)]
    pub fn alloc_page(&mut self, num: u64, page_size: u64) -> (r: Option<u64>)
        requires
            old(self).wf(),
            page_size >= DESCRIPTOR_SIZE,
            is_power_of_two(page_size as int),
            old(self).heap_end + page_size - 1 <= u64::MAX,
        ensures
            final(self).wf(),
            page_rel(*old(self), *final(self), num, page_size, r),
            r is None <==> spec_page_start(old(self).cursor as int, page_size as int) + num
                * page_size > old(self).heap_end,
            r is Some ==> ({
                let p = r.unwrap();
                &&& p % page_size == 0
                &&& final(self).is_live_payload(p)
                &&& p + num * page_size <= old(self).heap_end
            }),
    {
        let ghost pre = *self;
        let sum = self.cursor + (page_size - 1);
        let quot = sum / page_size;
        proof {
            let sumi = sum as int;
            let psi = page_size as int;
            lemma_fundamental_div_mod(sumi, psi);
            assert(sumi == psi * (sumi / psi) + sumi % psi);
            assert(quot == sumi / psi);
            assert(psi * (sumi / psi) == psi * quot);
            assert(psi * quot == quot * psi) by (nonlinear_arith);
            assert(quot * psi == sumi - sumi % psi);
            assert(0 <= sumi % psi < psi);
            assert(sumi - (psi - 1) <= quot * psi <= sumi);
            lemma_mod_multiples_basic(quot as int, psi);
            assert((quot * psi) % psi == 0);
        }
        let aligned = quot * page_size;
        let start = if aligned - self.cursor < DESCRIPTOR_SIZE {
            // the gap below the boundary has no room for the descriptor:
            // waste it and take the next page
            proof {
                assert(((quot + 1) * page_size) == quot * page_size + page_size) by (nonlinear_arith);
                lemma_mod_multiples_basic(quot as int + 1, page_size as int);
            }
            match aligned.checked_add(page_size) {
                None => {
                    return None;
                },
                Some(s2) => s2,
            }
        } else {
            aligned
        };
        proof {
            assert(start == spec_page_start(pre.cursor as int, page_size as int));
            assert(start % page_size == 0);
            assert(pre.cursor + DESCRIPTOR_SIZE <= start);
        }
        let bytes = match num.checked_mul(page_size) {
            None => {
                return None;
            },
            Some(b) => b,
        };
        let newc = match start.checked_add(bytes) {
            None => {
                return None;
            },
            Some(nc) => nc,
        };
        if newc > self.heap_end {
            return None;
        }
        let base = start - DESCRIPTOR_SIZE;
        self.cursor = newc;
        self.wasted = Ghost((pre.wasted@ + (base - pre.cursor)) as nat);
        self.blocks = Ghost(self.blocks@.push(base));
        let d = MemoryDescriptor {
            magic: MM_MAGIC,
            bucket: N_CLASSES,
            size: bytes + DESCRIPTOR_SIZE,
            align: page_size,
            prev: 0,
            next: 0,
            payload_addr: start,
        };
        self.descriptors.insert(base, d);
        self.links.insert(start - WORD_SIZE, base);
        proof {
            let post = *self;
            lemma_alloc_bump_wf(pre, post, base, d);
            assert(post.wf());
            assert(page_rel(pre, post, num, page_size, Some(start)));
            assert(post.is_live_payload(start));
        }
        Some(start)
    }

    /// Free the payload previously handed out at `address`.
    ///
    /// The back-link word below the payload recovers the descriptor, whose
    /// magic must be intact — a check discharged here by the contract: only
    /// a live payload may be freed, anything else is heap corruption and
    /// would halt the core.  If the block ends exactly at the heap
    /// cursor the cursor is rewound over it (the compare-and-swap fast
    /// path); otherwise the block is chained onto its bucket's free list.
    #[verifier::spinoff_prover]
    #[verifier::rlimit(100)]
    pub fn free(&mut self, address: u64)
        requires
            old(self).wf(),
            old(self).is_live_payload(address),
        ensures
            final(self).wf(),
            free_rel(*old(self), *final(self), address),
    {
        let ghost pre = *self;
        let slot = address - WORD_SIZE;
        let base = *self.links.get(&slot).unwrap();
        let d = *self.descriptors.get(&base).unwrap();
        proof {
            assert(pre.block_wf(base));
        }
        let top = base + d.size;
        if top == self.cursor {
            // The block is the most recently carved one: hand it back to the
            // bump region and forget it.
            proof {
                pre.lemma_free_top_is_last(base);
            }
            self.cursor = base;
            self.descriptors.remove(&base);
            self.blocks = Ghost(self.blocks@.drop_last());
            proof {
                lemma_free_top_wf(pre, *self, base);
                assert(free_rel(pre, *self, address));
            }
        } else {
            // Not the top of the heap: clear the magic and queue the block
            // for re-use.
            self.descriptors.insert(base, MemoryDescriptor { magic: 0, ..d });
            proof {
                lemma_clear_magic_wf(pre, *self, base);
            }
            let ghost mid = *self;
            self.push_to_free_bucket(base);
            proof {
                let post = *self;
                assert(push_rel(mid, post, base));
                let c = d.bucket as int;
                let q = pre.queue(c);
                if q.len() > 0 {
                    let tail = q[q.len() - 1];
                    assert(pre.queue_wf(c));
                    assert(pre.descriptors@.contains_key(tail));
                    assert(pre.desc(tail).magic == 0);
                    assert(tail != base);
                    assert(mid.desc(tail) == pre.desc(tail));
                    assert(post.descriptors@ =~= pre.descriptors@.insert(
                        base,
                        (MemoryDescriptor { magic: 0, prev: tail, next: 0, ..d }),
                    ).insert(tail, (MemoryDescriptor { next: base, ..pre.desc(tail) })));
                } else {
                    assert(post.descriptors@ =~= pre.descriptors@.insert(
                        base,
                        (MemoryDescriptor { magic: 0, prev: 0, next: 0, ..d }),
                    ));
                }
                assert(free_rel(pre, post, address));
            }
        }
    }

    /// A live block that ends exactly at the cursor is the last block in
    /// address order.
    proof fn lemma_free_top_is_last(self, base: u64)
        requires
            self.wf(),
            self.is_block(base),
            base + self.desc(base).size == self.cursor,
        ensures
            self.blocks@.len() > 0,
            self.blocks@.last() == base,
    {
        let i = self.block_index(base);
        let last = self.blocks@.len() - 1;
        if i < last {
            self.lemma_blocks_chain(i, last);
            let bl = self.blocks@[last];
            assert(self.blocks@.contains(bl));
            assert(self.block_wf(bl));
            assert(spec_bucket_size(self.desc(bl).bucket as int) >= 0x40);
            assert(false);
        }
    }

    /// Allocate `req_size` bytes aligned to `alignment` (a power of two).
    ///
    /// The request's class queue is consulted first; on a miss the block is
    /// carved off the bump cursor by the fetch-add whose linearized effect
    /// is `alloc_rel`.  A `None` result is the out-of-memory event: the heap
    /// has no room left for the request (the real engine then hands the
    /// core to the out-of-memory sink and never returns).
    #[verifier::spinoff_prover]
    #[verifier::rlimit(100)]
    pub fn allocate(&mut self, req_size: u64, alignment: u64) -> (r: Option<u64>)
        requires
            old(self).wf(),
            alignment >= 1,
            is_power_of_two(alignment as int),
        ensures
            final(self).wf(),
            alloc_rel(*old(self), *final(self), req_size, alignment, r),
            r is None <==> !alloc_hit(*old(self), req_size as int, alignment as int) && old(
                self,
            ).cursor + spec_alloc_size(req_size as int, alignment as int) >= old(self).heap_end,
            r is Some ==> ({
                let p = r.unwrap();
                let b = final(self).links@[(p - WORD_SIZE) as u64];
                &&& p % alignment == 0
                &&& old(self).heap_start < p
                &&& p + req_size < old(self).heap_end
                &&& final(self).is_live_payload(p)
                &&& final(self).desc(b).size >= req_size + DESCRIPTOR_SIZE + alignment
                &&& p + req_size <= b + final(self).desc(b).size
            }),
    {
        let ghost pre = *self;
        let ghost reqi = req_size as int;
        let ghost ali = alignment as int;
        let bucket = size_class_of(req_size, alignment);
        proof {
            lemma_alloc_size_bounds(reqi, ali);
        }
        let popped = self.pop_from_free_bucket(bucket);
        let ghost mid = *self;
        let (base, alloc_size) = match popped {
            Some(b) => {
                proof {
                    assert(pre.queue_wf(bucket as int));
                    assert(b == pre.queue(bucket as int)[0]);
                    assert(pre.descriptors@.contains_key(b));
                    assert(pre.block_wf(b));
                    assert(pre.desc(b).bucket == bucket as int);
                    if pre.queue(bucket as int).len() > 1 {
                        assert(pre.queue(bucket as int)[1] != b);
                    }
                    assert(mid.desc(b) == pre.desc(b));
                    assert(mid.desc(b).size == spec_bucket_size(bucket as int));
                }
                (b, bucket_size(bucket))
            },
            None => {
                let alloc_size = if bucket < N_CLASSES {
                    bucket_size(bucket)
                } else {
                    match DESCRIPTOR_SIZE.checked_add(alignment) {
                        None => {
                            proof {
                                assert(spec_alloc_size(reqi, ali) > u64::MAX);
                            }
                            return None;
                        },
                        Some(x) => match x.checked_add(req_size) {
                            None => {
                                proof {
                                    assert(spec_alloc_size(reqi, ali) > u64::MAX);
                                }
                                return None;
                            },
                            Some(p) => p,
                        },
                    }
                };
                if alloc_size >= self.heap_end - self.cursor {
                    return None;
                }
                let b = self.cursor;
                self.cursor = self.cursor + alloc_size;
                self.blocks = Ghost(self.blocks@.push(b));
                (b, alloc_size)
            },
        };
        proof {
            assert(alloc_size == spec_alloc_size(reqi, ali));
            if popped is Some {
                assert(mid.descriptors@.contains_key(base));
                assert(mid.block_wf(base));
                assert(base + alloc_size <= mid.cursor);
            }
            assert(DESCRIPTOR_SIZE + alignment <= alloc_size);
            assert(base + alloc_size <= self.heap_end <= u64::MAX);
        }
        let unaligned = base + DESCRIPTOR_SIZE + alignment;
        let payload = unaligned - unaligned % alignment;
        proof {
            lemma_payload_addr_bounds(base as int, ali);
            assert(payload == spec_payload_addr(base as int, ali));
        }
        let d = MemoryDescriptor {
            magic: MM_MAGIC,
            bucket,
            size: alloc_size,
            align: alignment,
            prev: 0,
            next: 0,
            payload_addr: payload,
        };
        self.descriptors.insert(base, d);
        let slot = payload - WORD_SIZE;
        self.links.insert(slot, base);
        proof {
            let post = *self;
            if popped is Some {
                assert forall|c2: int| 0 <= c2 <= N_CLASSES implies !(#[trigger] mid.queue(
                    c2,
                )).contains(base) by {
                    assert(pre.queue_wf(c2));
                    let c = bucket as int;
                    if c2 == c {
                        if mid.queue(c2).contains(base) {
                            let i2 = choose|i2: int|
                                0 <= i2 < mid.queue(c2).len() && mid.queue(c2)[i2] == base;
                            assert(pre.queue(c)[i2 + 1] == base);
                            assert(pre.queue(c)[0] == base);
                        }
                    } else {
                        if mid.queue(c2).contains(base) {
                            let i2 = choose|i2: int|
                                0 <= i2 < mid.queue(c2).len() && mid.queue(c2)[i2] == base;
                            assert(pre.desc(pre.queue(c2)[i2]).bucket == c2);
                            assert(pre.desc(base).bucket == bucket as int);
                        }
                    }
                }
                lemma_alloc_reuse_wf(mid, post, base, d);
            } else {
                lemma_alloc_bump_wf(mid, post, base, d);
            }
            assert(post.wf());
            assert(alloc_rel(pre, post, req_size, alignment, Some(payload)));
            assert(post.is_live_payload(payload));
        }
        Some(payload)
    }

}

/// Rewinding the cursor over the last block preserves the engine invariant.
#[verifier::spinoff_prover]
#[verifier::rlimit(100)]
proof fn lemma_free_top_wf(pre: Heap, post: Heap, base: u64)
    requires
        pre.wf(),
        pre.is_block(base),
        pre.desc(base).magic == MM_MAGIC,
        base + pre.desc(base).size == pre.cursor,
        pre.blocks@.len() > 0,
        pre.blocks@.last() == base,
        post.heap_start == pre.heap_start,
        post.heap_end == pre.heap_end,
        post.cursor == base,
        post.descriptors@ == pre.descriptors@.remove(base),
        post.links@ == pre.links@,
        post.free_buckets@ == pre.free_buckets@,
        post.queues@ == pre.queues@,
        post.blocks@ == pre.blocks@.drop_last(),
        post.wasted@ == pre.wasted@,
    ensures
        post.wf(),
{
    let bn = pre.blocks@.drop_last();
    let last = pre.blocks@.len() - 1;
    assert(pre.block_wf(base));
    assert forall|k: int, l: int|
        0 <= k < l < pre.blocks@.len() implies pre.blocks@[k] < pre.blocks@[l] by {
        pre.lemma_blocks_strict(k, l);
    }
    assert forall|b: u64| post.descriptors@.contains_key(b) implies #[trigger] post.block_wf(b) by {
        assert(pre.descriptors@.contains_key(b));
        assert(pre.block_wf(b));
        let k = pre.block_index(b);
        assert(k < last);
        pre.lemma_blocks_chain(k, last);
    }
    assert forall|x: u64| post.descriptors@.contains_key(x) implies post.blocks@.contains(x) by {
        assert(pre.descriptors@.contains_key(x));
        let k = pre.block_index(x);
        assert(k < last);
        assert(bn[k] == x);
    }
    assert forall|x: u64| post.blocks@.contains(x) implies post.descriptors@.contains_key(x) by {
        let k = choose|k: int| 0 <= k < bn.len() && bn[k] == x;
        assert(pre.blocks@[k] == x);
        assert(pre.blocks@.contains(x));
        assert(x != base);
    }
    assert forall|i2: int|
        0 <= i2 < post.blocks@.len() - 1 implies #[trigger] post.blocks@[i2] + post.desc(
        post.blocks@[i2],
    ).size <= post.blocks@[i2 + 1] by {
        assert(pre.blocks@[i2] + pre.desc(pre.blocks@[i2]).size <= pre.blocks@[i2 + 1]);
        assert(pre.blocks@[i2] != base && pre.blocks@[i2 + 1] != base);
    }
    assert forall|c2: int| 0 <= c2 <= N_CLASSES implies #[trigger] post.queue_wf(c2) by {
        assert(pre.queue_wf(c2));
        let q2 = pre.queue(c2);
        assert forall|i2: int|
            0 <= i2 < q2.len() implies post.descriptors@.contains_key(#[trigger] q2[i2])
            && post.desc(q2[i2]) == pre.desc(q2[i2]) by {
            assert(pre.desc(q2[i2]).magic == 0);
            assert(q2[i2] != base);
        }
    }
    assert(blocks_bytes(pre.blocks@, pre.descriptors@) == blocks_bytes(bn, pre.descriptors@)
        + pre.desc(base).size);
    lemma_blocks_bytes_congruence(bn, pre.descriptors@, post.descriptors@);
}

/// Clearing the magic of a live block preserves the engine invariant, and
/// such a block sits on no free list.
#[verifier::spinoff_prover]
#[verifier::rlimit(100)]
proof fn lemma_clear_magic_wf(pre: Heap, mid: Heap, base: u64)
    requires
        pre.wf(),
        pre.is_block(base),
        pre.desc(base).magic == MM_MAGIC,
        mid.heap_start == pre.heap_start,
        mid.heap_end == pre.heap_end,
        mid.cursor == pre.cursor,
        mid.descriptors@ == pre.descriptors@.insert(
            base,
            (MemoryDescriptor { magic: 0, ..pre.desc(base) }),
        ),
        mid.links@ == pre.links@,
        mid.free_buckets@ == pre.free_buckets@,
        mid.queues@ == pre.queues@,
        mid.blocks@ == pre.blocks@,
        mid.wasted@ == pre.wasted@,
    ensures
        mid.wf(),
        mid.is_block(base),
        mid.desc(base).magic == 0,
        mid.desc(base).bucket == pre.desc(base).bucket,
        forall|c2: int| 0 <= c2 <= N_CLASSES ==> !(#[trigger] mid.queue(c2)).contains(base),
{
    assert(mid.descriptors@.dom() =~= pre.descriptors@.dom());
    assert forall|b: u64| mid.descriptors@.contains_key(b) implies #[trigger] mid.block_wf(b) by {
        assert(pre.descriptors@.contains_key(b));
        assert(pre.block_wf(b));
    }
    assert forall|x: u64| mid.descriptors@.contains_key(x) implies mid.blocks@.contains(x) by {
        assert(pre.descriptors@.contains_key(x));
    }
    assert forall|x: u64| mid.blocks@.contains(x) implies mid.descriptors@.contains_key(x) by {
        assert(pre.blocks@.contains(x));
    }
    assert forall|i2: int|
        0 <= i2 < mid.blocks@.len() - 1 implies #[trigger] mid.blocks@[i2] + mid.desc(
        mid.blocks@[i2],
    ).size <= mid.blocks@[i2 + 1] by {
        assert(pre.blocks@[i2] + pre.desc(pre.blocks@[i2]).size <= pre.blocks@[i2 + 1]);
    }
    assert forall|c2: int| 0 <= c2 <= N_CLASSES implies #[trigger] mid.queue_wf(c2) by {
        assert(pre.queue_wf(c2));
        let q2 = pre.queue(c2);
        assert forall|i2: int|
            0 <= i2 < q2.len() implies mid.descriptors@.contains_key(#[trigger] q2[i2]) && mid.desc(
            q2[i2],
        ) == pre.desc(q2[i2]) by {
            assert(pre.desc(q2[i2]).magic == 0);
            assert(q2[i2] != base);
        }
    }
    assert forall|c2: int| 0 <= c2 <= N_CLASSES implies !(#[trigger] mid.queue(c2)).contains(
        base,
    ) by {
        assert(pre.queue_wf(c2));
        let q2 = pre.queue(c2);
        if mid.queue(c2).contains(base) {
            let i2 = choose|i2: int| 0 <= i2 < q2.len() && q2[i2] == base;
            assert(pre.desc(q2[i2]).magic == 0);
        }
    }
    lemma_blocks_bytes_congruence(mid.blocks@, pre.descriptors@, mid.descriptors@);
}

/// Writing a live descriptor for a block carved fresh off the bump cursor
/// preserves the engine invariant.
#[verifier::spinoff_prover]
#[verifier::rlimit(100)]
proof fn lemma_alloc_bump_wf(mid: Heap, post: Heap, base: u64, newd: MemoryDescriptor)
    requires
        mid.wf(),
        newd.magic == MM_MAGIC,
        0 <= newd.bucket <= N_CLASSES,
        newd.bucket < N_CLASSES ==> newd.size == spec_bucket_size(newd.bucket as int),
        newd.size >= DESCRIPTOR_SIZE,
        newd.align >= 1,
        newd.prev == 0 && newd.next == 0,
        base + DESCRIPTOR_SIZE <= newd.payload_addr,
        newd.payload_addr <= base + newd.size,
        newd.payload_addr % newd.align == 0,
        mid.cursor <= base,
        post.heap_start == mid.heap_start,
        post.heap_end == mid.heap_end,
        post.cursor == base + newd.size,
        post.cursor <= mid.heap_end,
        post.descriptors@ == mid.descriptors@.insert(base, newd),
        post.links@ == mid.links@.insert((newd.payload_addr - WORD_SIZE) as u64, base),
        post.blocks@ == mid.blocks@.push(base),
        post.queues@ == mid.queues@,
        post.free_buckets@ == mid.free_buckets@,
        post.wasted@ == mid.wasted@ + (base - mid.cursor),
    ensures
        post.wf(),
{
    let slot = (newd.payload_addr - WORD_SIZE) as u64;
    assert forall|b: u64| #![trigger mid.descriptors@.contains_key(b)]
        mid.descriptors@.contains_key(b) implies b != base && b + mid.desc(b).size <= base
        && mid.slot(b) != slot by {
        assert(mid.block_wf(b));
        assert(spec_bucket_size(mid.desc(b).bucket as int) >= 0x40);
        assert(mid.slot(b) < b + mid.desc(b).size);
    }
    assert forall|i2: int|
        #![trigger mid.blocks@[i2]]
        0 <= i2 < mid.blocks@.len() implies mid.descriptors@.contains_key(mid.blocks@[i2])
        && mid.blocks@[i2] != base && post.desc(mid.blocks@[i2]) == mid.desc(mid.blocks@[i2]) by {
        assert(mid.blocks@.contains(mid.blocks@[i2]));
        assert(mid.descriptors@.contains_key(mid.blocks@[i2]));
    }
    assert forall|b: u64| post.descriptors@.contains_key(b) implies #[trigger] post.block_wf(b) by {
        if b == base {
            assert(post.desc(base) == newd);
        } else {
            assert(mid.descriptors@.contains_key(b));
            assert(mid.block_wf(b));
        }
    }
    assert forall|x: u64| post.descriptors@.contains_key(x) implies post.blocks@.contains(x) by {
        if x == base {
            assert(post.blocks@[post.blocks@.len() - 1] == base);
        } else {
            assert(mid.descriptors@.contains_key(x));
            let k = mid.block_index(x);
            assert(post.blocks@[k] == x);
        }
    }
    assert forall|x: u64| post.blocks@.contains(x) implies post.descriptors@.contains_key(x) by {
        let k = choose|k: int| 0 <= k < post.blocks@.len() && post.blocks@[k] == x;
        if k < mid.blocks@.len() {
            assert(mid.blocks@[k] == x);
            assert(mid.blocks@.contains(x));
        } else {
            assert(x == base);
        }
    }
    assert forall|i2: int|
        0 <= i2 < post.blocks@.len() - 1 implies #[trigger] post.blocks@[i2] + post.desc(
        post.blocks@[i2],
    ).size <= post.blocks@[i2 + 1] by {
        if i2 < mid.blocks@.len() - 1 {
            assert(post.blocks@[i2] == mid.blocks@[i2]);
            assert(post.blocks@[i2 + 1] == mid.blocks@[i2 + 1]);
            assert(mid.blocks@[i2] + mid.desc(mid.blocks@[i2]).size <= mid.blocks@[i2 + 1]);
            assert(mid.blocks@.contains(mid.blocks@[i2]));
            assert(mid.descriptors@.contains_key(mid.blocks@[i2]));
        } else {
            assert(post.blocks@[i2] == mid.blocks@[i2]);
            assert(post.blocks@[i2 + 1] == base);
            assert(mid.blocks@.contains(mid.blocks@[i2]));
            assert(mid.descriptors@.contains_key(mid.blocks@[i2]));
            assert(mid.block_wf(mid.blocks@[i2]));
        }
    }
    assert forall|c2: int| 0 <= c2 <= N_CLASSES implies #[trigger] post.queue_wf(c2) by {
        assert(mid.queue_wf(c2));
        let q2 = mid.queue(c2);
        assert forall|i2: int|
            0 <= i2 < q2.len() implies post.descriptors@.contains_key(#[trigger] q2[i2])
            && post.desc(q2[i2]) == mid.desc(q2[i2]) by {
            assert(mid.descriptors@.contains_key(q2[i2]));
            assert(q2[i2] != base);
        }
    }
    lemma_blocks_bytes_push(mid.blocks@, post.descriptors@, base);
    lemma_blocks_bytes_congruence(mid.blocks@, mid.descriptors@, post.descriptors@);
}

/// Re-writing a live descriptor into a block taken back off a free list
/// preserves the engine invariant.
#[verifier::spinoff_prover]
#[verifier::rlimit(100)]
proof fn lemma_alloc_reuse_wf(mid: Heap, post: Heap, base: u64, newd: MemoryDescriptor)
    requires
        mid.wf(),
        mid.is_block(base),
        mid.desc(base).magic == 0,
        forall|c2: int| 0 <= c2 <= N_CLASSES ==> !(#[trigger] mid.queue(c2)).contains(base),
        newd.magic == MM_MAGIC,
        newd.bucket == mid.desc(base).bucket,
        newd.size == mid.desc(base).size,
        newd.align >= 1,
        newd.prev == 0 && newd.next == 0,
        base + DESCRIPTOR_SIZE < newd.payload_addr,
        newd.payload_addr <= base + newd.size,
        newd.payload_addr % newd.align == 0,
        post.heap_start == mid.heap_start,
        post.heap_end == mid.heap_end,
        post.cursor == mid.cursor,
        post.descriptors@ == mid.descriptors@.insert(base, newd),
        post.links@ == mid.links@.insert((newd.payload_addr - WORD_SIZE) as u64, base),
        post.blocks@ == mid.blocks@,
        post.queues@ == mid.queues@,
        post.free_buckets@ == mid.free_buckets@,
        post.wasted@ == mid.wasted@,
    ensures
        post.wf(),
{
    let slot = (newd.payload_addr - WORD_SIZE) as u64;
    assert(mid.block_wf(base));
    assert(post.descriptors@.dom() =~= mid.descriptors@.dom());
    assert forall|b: u64|
        mid.descriptors@.contains_key(b) && b != base implies base + mid.desc(base).size <= b || b
            + mid.desc(b).size <= base by {
        mid.lemma_blocks_disjoint(b, base);
    }
    assert forall|b: u64| post.descriptors@.contains_key(b) implies #[trigger] post.block_wf(b) by {
        if b == base {
            assert(post.desc(base) == newd);
        } else {
            assert(mid.descriptors@.contains_key(b));
            assert(mid.block_wf(b));
            if mid.desc(b).magic == MM_MAGIC {
                assert(mid.slot(b) < b + mid.desc(b).size);
                assert(base < slot < base + newd.size);
                assert(mid.slot(b) != slot);
            }
        }
    }
    assert forall|x: u64| post.descriptors@.contains_key(x) implies post.blocks@.contains(x) by {
        assert(mid.descriptors@.contains_key(x));
    }
    assert forall|x: u64| post.blocks@.contains(x) implies post.descriptors@.contains_key(x) by {
        assert(mid.blocks@.contains(x));
    }
    assert forall|i2: int|
        0 <= i2 < post.blocks@.len() - 1 implies #[trigger] post.blocks@[i2] + post.desc(
        post.blocks@[i2],
    ).size <= post.blocks@[i2 + 1] by {
        assert(mid.blocks@[i2] + mid.desc(mid.blocks@[i2]).size <= mid.blocks@[i2 + 1]);
    }
    assert forall|c2: int| 0 <= c2 <= N_CLASSES implies #[trigger] post.queue_wf(c2) by {
        assert(mid.queue_wf(c2));
        let q2 = mid.queue(c2);
        assert(!mid.queue(c2).contains(base));
        assert forall|i2: int|
            0 <= i2 < q2.len() implies post.descriptors@.contains_key(#[trigger] q2[i2])
            && post.desc(q2[i2]) == mid.desc(q2[i2]) by {
            assert(q2[i2] != base) by {
                if q2[i2] == base {
                    assert(mid.queue(c2).contains(base));
                }
            }
        }
    }
    lemma_blocks_bytes_congruence(mid.blocks@, mid.descriptors@, post.descriptors@);
}

/// Live allocations never overlap: two distinct live blocks occupy disjoint
/// address ranges, and each block's payload lies inside its own range, above
/// the base.  So the bytes handed out at one payload are disjoint from those
/// handed out at any other.
pub proof fn lemma_live_payloads_disjoint(h: Heap, b1: u64, b2: u64)
    requires
        h.wf(),
        h.is_live(b1),
        h.is_live(b2),
        b1 != b2,
    ensures
        b1 < h.desc(b1).payload_addr <= b1 + h.desc(b1).size,
        b2 < h.desc(b2).payload_addr <= b2 + h.desc(b2).size,
        b1 + h.desc(b1).size <= b2 || b2 + h.desc(b2).size <= b1,
{
    assert(h.block_wf(b1));
    assert(h.block_wf(b2));
    h.lemma_blocks_disjoint(b1, b2);
}

/// Conservation of the heap: at any instant, the bytes held by blocks (live
/// or queued), the bytes wasted on page alignment, and the untouched bytes
/// above the cursor account exactly for the whole region.
pub proof fn lemma_heap_conservation(h: Heap)
    requires
        h.wf(),
    ensures
        blocks_bytes(h.blocks@, h.descriptors@) + h.wasted@ + (h.heap_end - h.cursor)
            == h.heap_end - h.heap_start,
{
}

/// Top-of-heap rewind: an allocation immediately undone by a free leaves the
/// cursor where it started.  A fresh carve is rewound by the cursor swing; a
/// recycled block goes back to its queue and the cursor was never moved.
/// The one exception is a recycled block that happens to end exactly at the
/// cursor: its free rewinds the cursor below the allocation-time value, so
/// that state is excluded.
#[verifier::spinoff_prover]
#[verifier::rlimit(100)]
pub proof fn lemma_alloc_free_rewinds_cursor(
    h0: Heap,
    h1: Heap,
    h2: Heap,
    req: u64,
    align: u64,
    p: u64,
)
    requires
        h0.wf(),
        align >= 1,
        alloc_rel(h0, h1, req, align, Some(p)),
        free_rel(h1, h2, p),
        alloc_hit(h0, req as int, align as int) ==> h0.queue(
            spec_size_class_of(req as int, align as int),
        )[0] + spec_alloc_size(req as int, align as int) != h0.cursor,
    ensures
        h2.cursor == h0.cursor,
{
    let c = spec_size_class_of(req as int, align as int);
    let hit = alloc_hit(h0, req as int, align as int);
    let base = if hit {
        h0.queue(c)[0]
    } else {
        h0.cursor
    };
    let asize = spec_alloc_size(req as int, align as int);
    let payload = spec_payload_addr(base as int, align as int);
    lemma_alloc_size_bounds(req as int, align as int);
    lemma_payload_addr_bounds(base as int, align as int);
    if hit {
        assert(h0.queue_wf(c));
        assert(h0.descriptors@.contains_key(base));
        assert(h0.block_wf(base));
        assert(h0.desc(base).size == spec_bucket_size(c));
        assert(base + asize <= h0.cursor);
    } else {
        assert(h0.cursor + asize < h0.heap_end);
    }
    assert(DESCRIPTOR_SIZE + align <= asize);
    assert(payload <= base + asize <= u64::MAX);
    assert(p == payload);
    assert(h1.links@[(p - WORD_SIZE) as u64] == base);
    assert(h1.desc(base).size == asize);
    if hit {
        assert(base + asize != h0.cursor);
        assert(h2.cursor == h1.cursor);
    } else {
        assert(base + asize == h1.cursor);
        assert(h2.cursor == base);
    }
}

/// Allocate, free, allocate again: the same address comes back.  The freed
/// block is recovered either by the top-of-heap rewind (the repeat request
/// then carves the identical block afresh) or from its class queue (the
/// repeat request pops it).  Two states are excluded: a class queue already
/// holding another block ahead of this one, and a recycled block at the very
/// top of a full heap, whose free rewinds the cursor but whose repeat
/// request the exhausted bump region can no longer serve.
#[verifier::spinoff_prover]
#[verifier::rlimit(100)]
pub proof fn lemma_free_then_alloc_same_address(
    h0: Heap,
    h1: Heap,
    h2: Heap,
    h3: Heap,
    req: u64,
    align: u64,
    p: u64,
    r: Option<u64>,
)
    requires
        h0.wf(),
        align >= 1,
        alloc_rel(h0, h1, req, align, Some(p)),
        free_rel(h1, h2, p),
        alloc_rel(h2, h3, req, align, r),
        spec_size_class_of(req as int, align as int) < N_CLASSES ==> h0.queue(
            spec_size_class_of(req as int, align as int),
        ).len() <= 1,
        alloc_hit(h0, req as int, align as int) && h0.queue(
            spec_size_class_of(req as int, align as int),
        )[0] + spec_alloc_size(req as int, align as int) == h0.cursor ==> h0.cursor
            < h0.heap_end,
    ensures
        r == Some(p),
{
    let c = spec_size_class_of(req as int, align as int);
    let hit = alloc_hit(h0, req as int, align as int);
    let base = if hit {
        h0.queue(c)[0]
    } else {
        h0.cursor
    };
    let asize = spec_alloc_size(req as int, align as int);
    let payload = spec_payload_addr(base as int, align as int);
    lemma_alloc_size_bounds(req as int, align as int);
    lemma_payload_addr_bounds(base as int, align as int);
    if hit {
        assert(h0.queue_wf(c));
        assert(h0.descriptors@.contains_key(base));
        assert(h0.block_wf(base));
        assert(h0.desc(base).size == spec_bucket_size(c));
        assert(base + asize <= h0.cursor);
    } else {
        assert(h0.cursor + asize < h0.heap_end);
    }
    assert(DESCRIPTOR_SIZE + align <= asize);
    assert(payload <= base + asize <= u64::MAX);
    assert(p == payload);
    assert(h1.links@[(p - WORD_SIZE) as u64] == base);
    assert(h1.desc(base).size == asize);
    assert(h1.desc(base).bucket == c as usize);
    if !hit {
        // Carved off the cursor; the free necessarily rewinds.
        assert(base + asize == h1.cursor);
        assert(h2.cursor == h0.cursor);
        assert(h2.queues@ == h0.queues@);
        assert(!alloc_hit(h2, req as int, align as int));
        assert(h2.cursor + asize < h2.heap_end);
        assert(r == Some(payload as u64));
    } else {
        assert(h0.queue(c).len() == 1);
        assert(h1.queue(c) == h0.queue(c).subrange(1, 1));
        assert(h1.queue(c).len() == 0);
        if base + asize == h1.cursor {
            // The recycled block sat at the top: the free rewinds, and the
            // repeat request carves the same block off the cursor again.
            assert(h1.cursor == h0.cursor);
            assert(h2.cursor == base);
            assert(h2.queue(c).len() == 0);
            assert(!alloc_hit(h2, req as int, align as int));
            assert(h2.cursor + asize == h0.cursor < h0.heap_end == h2.heap_end);
            assert(r == Some(payload as u64));
        } else {
            // The free queues the block; the repeat request pops it.
            assert(h2.queue(c) == h1.queue(c).push(base));
            assert(h2.queue(c)[0] == base);
            assert(alloc_hit(h2, req as int, align as int));
            assert(r == Some(payload as u64));
        }
    }
}

/// Queue FIFO: two blocks of one class freed into an empty queue, in order,
/// come back in the same order — the next allocation of that class pops the
/// first of them and returns its payload.  The oversize class is excluded:
/// its queue is populated but, by design, never consumed.
#[verifier::spinoff_prover]
#[verifier::rlimit(100)]
pub proof fn lemma_queue_fifo(
    h0: Heap,
    h1: Heap,
    h2: Heap,
    h3: Heap,
    p_first: u64,
    p_second: u64,
    req: u64,
    align: u64,
    r: Option<u64>,
)
    requires
        h0.wf(),
        h0.is_live_payload(p_first),
        h1.is_live_payload(p_second),
        free_rel(h0, h1, p_first),
        free_rel(h1, h2, p_second),
        ({
            let b = h0.links@[(p_first - WORD_SIZE) as u64];
            b + h0.desc(b).size != h0.cursor && h0.desc(b).bucket == spec_size_class_of(
                req as int,
                align as int,
            )
        }),
        ({
            let b = h1.links@[(p_second - WORD_SIZE) as u64];
            b + h1.desc(b).size != h1.cursor && h1.desc(b).bucket == spec_size_class_of(
                req as int,
                align as int,
            )
        }),
        spec_size_class_of(req as int, align as int) < N_CLASSES,
        h0.queue(spec_size_class_of(req as int, align as int)).len() == 0,
        alloc_rel(h2, h3, req, align, r),
    ensures
        ({
            let b_first = h0.links@[(p_first - WORD_SIZE) as u64];
            let b_second = h1.links@[(p_second - WORD_SIZE) as u64];
            &&& h2.queue(spec_size_class_of(req as int, align as int)) =~= seq![b_first, b_second]
            &&& r == Some(spec_payload_addr(b_first as int, align as int) as u64)
        }),
{
    let c = spec_size_class_of(req as int, align as int);
    let b_first = h0.links@[(p_first - WORD_SIZE) as u64];
    let b_second = h1.links@[(p_second - WORD_SIZE) as u64];
    assert(h1.queue(c) == h0.queue(c).push(b_first));
    assert(h1.queue(c).len() == 1);
    assert(h2.queue(c) == h1.queue(c).push(b_second));
    assert(h2.queue(c)[0] == b_first && h2.queue(c)[1] == b_second);
    assert(alloc_hit(h2, req as int, align as int));
    assert(r == Some(spec_payload_addr(b_first as int, align as int) as u64));
}

/// A live block is reachable from no free list: ownership by an allocation
/// and membership of a queue exclude one another.
pub proof fn lemma_live_block_never_queued(h: Heap, b: u64, c: int)
    requires
        h.wf(),
        h.is_live(b),
        0 <= c <= N_CLASSES,
    ensures
        !h.queue(c).contains(b),
{
    assert(h.queue_wf(c));
    if h.queue(c).contains(b) {
        let i = choose|i: int| 0 <= i < h.queue(c).len() && h.queue(c)[i] == b;
        assert(h.desc(h.queue(c)[i]).magic == 0);
    }
}

/// A freed block is reachable from exactly one place: wherever it appears
/// on a free list, the queue is the one of its own bucket and the position
/// is unique.
pub proof fn lemma_queued_block_position_unique(
    h: Heap,
    b: u64,
    c1: int,
    i1: int,
    c2: int,
    i2: int,
)
    requires
        h.wf(),
        0 <= c1 <= N_CLASSES,
        0 <= c2 <= N_CLASSES,
        0 <= i1 < h.queue(c1).len(),
        0 <= i2 < h.queue(c2).len(),
        h.queue(c1)[i1] == b,
        h.queue(c2)[i2] == b,
    ensures
        c1 == c2,
        i1 == i2,
        h.is_block(b) && h.desc(b).bucket == c1,
{
    assert(h.queue_wf(c1));
    assert(h.queue_wf(c2));
    assert(h.desc(b).bucket == c1);
    assert(h.desc(b).bucket == c2);
    if i1 < i2 {
        assert(h.queue(c1)[i1] != h.queue(c1)[i2]);
    }
    if i2 < i1 {
        assert(h.queue(c1)[i2] != h.queue(c1)[i1]);
    }
}

/// The payload ranges of two distinct live payloads never overlap: each
/// payload sits inside its own block, above the block's base, and the two
/// blocks occupy disjoint address ranges.
pub proof fn lemma_payload_ranges_disjoint(h: Heap, p1: u64, p2: u64)
    requires
        h.wf(),
        h.is_live_payload(p1),
        h.is_live_payload(p2),
        p1 != p2,
    ensures
        ({
            let b1 = h.links@[(p1 - WORD_SIZE) as u64];
            let b2 = h.links@[(p2 - WORD_SIZE) as u64];
            &&& b1 != b2
            &&& b1 < p1 <= b1 + h.desc(b1).size
            &&& b2 < p2 <= b2 + h.desc(b2).size
            &&& b1 + h.desc(b1).size <= b2 || b2 + h.desc(b2).size <= b1
        }),
{
    let b1 = h.links@[(p1 - WORD_SIZE) as u64];
    let b2 = h.links@[(p2 - WORD_SIZE) as u64];
    assert(b1 != b2) by {
        if b1 == b2 {
            assert(h.desc(b1).payload_addr == p1 && h.desc(b1).payload_addr == p2);
        }
    }
    lemma_live_payloads_disjoint(h, b1, b2);
}

} // verus!
