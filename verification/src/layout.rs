//! Descriptor layout and size-class resolution.
//!
//! A block on the heap is `descriptor | padding | payload`.  The descriptor is
//! a fixed packed record (one 32-bit magic word and seven 64-bit words, 60
//! bytes in all); the padding reserves one alignment's worth of room so that
//! the payload can be shifted forward into alignment without ever overlapping
//! the descriptor or the back-link word.  Allocation sizes are normalized to a
//! fixed ladder of sixteen power-of-two classes from 64 B to 2 MiB; anything
//! larger falls into the oversize class and keeps its exact size.

use vstd::arithmetic::div_mod::{lemma_fundamental_div_mod, lemma_mod_multiples_basic};
use vstd::prelude::*;

verus! {

/// Size in bytes of a machine word (and of the back-link slot).
pub const WORD_SIZE: u64 = 8;

/// Size in bytes of the packed in-band block descriptor: a 32-bit magic plus
/// seven 64-bit fields (bucket, size, align, prev, next, payload address, and
/// the placeholder that keeps the back-link word clear of the live fields).
pub const DESCRIPTOR_SIZE: u64 = 60;

/// Sentinel marking a descriptor that currently manages a live block.
pub const MM_MAGIC: u32 = 0xDEAD_BEEF;

/// Number of fixed power-of-two size classes; index `N_CLASSES` denotes the
/// oversize class.
pub const N_CLASSES: usize = 16;

/// Byte size of size class `i`, for `0 <= i < 16`: the ladder
/// 64 B, 128 B, ..., 1 MiB, 2 MiB.  Out-of-range indices are clamped to the
/// nearest end of the ladder.
pub open spec fn spec_bucket_size(i: int) -> u64 {
    if i <= 0 {
        0x40
    } else if i == 1 {
        0x80
    } else if i == 2 {
        0x100
    } else if i == 3 {
        0x200
    } else if i == 4 {
        0x400
    } else if i == 5 {
        0x800
    } else if i == 6 {
        0x1000
    } else if i == 7 {
        0x2000
    } else if i == 8 {
        0x4000
    } else if i == 9 {
        0x8000
    } else if i == 10 {
        0x1_0000
    } else if i == 11 {
        0x2_0000
    } else if i == 12 {
        0x4_0000
    } else if i == 13 {
        0x8_0000
    } else if i == 14 {
        0x10_0000
    } else {
        0x20_0000
    }
}

/// Executable table of the size-class ladder.
pub fn bucket_size(i: usize) -> (s: u64)
    requires
        i < N_CLASSES,
    ensures
        s == spec_bucket_size(i as int),
{
    if i == 0 {
        0x40
    } else if i == 1 {
        0x80
    } else if i == 2 {
        0x100
    } else if i == 3 {
        0x200
    } else if i == 4 {
        0x400
    } else if i == 5 {
        0x800
    } else if i == 6 {
        0x1000
    } else if i == 7 {
        0x2000
    } else if i == 8 {
        0x4000
    } else if i == 9 {
        0x8000
    } else if i == 10 {
        0x1_0000
    } else if i == 11 {
        0x2_0000
    } else if i == 12 {
        0x4_0000
    } else if i == 13 {
        0x8_0000
    } else if i == 14 {
        0x10_0000
    } else {
        0x20_0000
    }
}

/// Physical bytes a request occupies on the heap: descriptor, one alignment's
/// worth of padding, and the requested payload size.
pub open spec fn spec_phys_size(req_size: int, align: int) -> int {
    DESCRIPTOR_SIZE + align + req_size
}

/// The smallest class whose size is strictly greater than `phys`, or
/// `N_CLASSES` (oversize) when no ladder entry is large enough.  The strict
/// inequality guarantees room for the descriptor, the padding and the payload
/// with no overlap; a request landing exactly on a ladder value is promoted
/// to the next class.
pub open spec fn spec_bucket_of(phys: int) -> int {
    if phys < 0x40 {
        0
    } else if phys < 0x80 {
        1
    } else if phys < 0x100 {
        2
    } else if phys < 0x200 {
        3
    } else if phys < 0x400 {
        4
    } else if phys < 0x800 {
        5
    } else if phys < 0x1000 {
        6
    } else if phys < 0x2000 {
        7
    } else if phys < 0x4000 {
        8
    } else if phys < 0x8000 {
        9
    } else if phys < 0x1_0000 {
        10
    } else if phys < 0x2_0000 {
        11
    } else if phys < 0x4_0000 {
        12
    } else if phys < 0x8_0000 {
        13
    } else if phys < 0x10_0000 {
        14
    } else if phys < 0x20_0000 {
        15
    } else {
        16
    }
}

/// The bucket a request `(req_size, align)` falls into.
pub open spec fn spec_size_class_of(req_size: int, align: int) -> int {
    spec_bucket_of(spec_phys_size(req_size, align))
}

/// Bytes actually carved out of the heap for a request: the class size for a
/// classed request, the exact physical size for an oversize one.
pub open spec fn spec_alloc_size(req_size: int, align: int) -> int {
    if spec_size_class_of(req_size, align) < N_CLASSES {
        spec_bucket_size(spec_size_class_of(req_size, align)) as int
    } else {
        spec_phys_size(req_size, align)
    }
}

/// Address of the first payload byte of a block based at `base`: the first
/// address aligned to `align` at or below `base + DESCRIPTOR_SIZE + align`.
pub open spec fn spec_payload_addr(base: int, align: int) -> int {
    let unaligned = base + DESCRIPTOR_SIZE + align;
    unaligned - unaligned % align
}

/// Whether `x` is a power of two.
pub open spec fn is_power_of_two(x: int) -> bool
    decreases x,
{
    if x <= 0 {
        false
    } else if x == 1 {
        true
    } else {
        x % 2 == 0 && is_power_of_two(x / 2)
    }
}

/// Executable power-of-two test, for callers that must establish the
/// alignment precondition of the allocation entry points at run time.
pub fn power_of_two_check(x: u64) -> (r: bool)
    ensures
        r == is_power_of_two(x as int),
{
    if x == 0 {
        return false;
    }
    let mut v = x;
    while v > 1
        invariant
            v >= 1,
            is_power_of_two(x as int) == is_power_of_two(v as int),
        decreases v,
    {
        if v % 2 == 1 {
            return false;
        }
        v = v / 2;
    }
    true
}

/// Executable bucket search over the ladder.
fn bucket_of_phys(phys: u64) -> (b: usize)
    ensures
        b == spec_bucket_of(phys as int),
{
    if phys < 0x40 {
        0
    } else if phys < 0x80 {
        1
    } else if phys < 0x100 {
        2
    } else if phys < 0x200 {
        3
    } else if phys < 0x400 {
        4
    } else if phys < 0x800 {
        5
    } else if phys < 0x1000 {
        6
    } else if phys < 0x2000 {
        7
    } else if phys < 0x4000 {
        8
    } else if phys < 0x8000 {
        9
    } else if phys < 0x1_0000 {
        10
    } else if phys < 0x2_0000 {
        11
    } else if phys < 0x4_0000 {
        12
    } else if phys < 0x8_0000 {
        13
    } else if phys < 0x10_0000 {
        14
    } else if phys < 0x20_0000 {
        15
    } else {
        16
    }
}

/// The bucket a request falls into.  A physical size too large for the
/// machine word is oversize in any case.
pub fn size_class_of(req_size: u64, alignment: u64) -> (b: usize)
    ensures
        b == spec_size_class_of(req_size as int, alignment as int),
{
    match DESCRIPTOR_SIZE.checked_add(alignment) {
        None => N_CLASSES,
        Some(partial) => match partial.checked_add(req_size) {
            None => N_CLASSES,
            Some(phys) => bucket_of_phys(phys),
        },
    }
}

/// The bucket index never moves down when the request grows: the physical
/// size is monotone in the requested size and in the alignment, and the
/// bucket search is monotone in the physical size.
pub proof fn lemma_size_class_monotone(s1: int, a1: int, s2: int, a2: int)
    requires
        s1 <= s2,
        a1 <= a2,
    ensures
        spec_size_class_of(s1, a1) <= spec_size_class_of(s2, a2),
{
}

/// Bucket-selection round trip: whenever the physical size fits strictly
/// inside the ladder, the selected class is a ladder class and its size is
/// strictly greater than the physical size, so descriptor, padding and
/// payload never overlap.
pub proof fn lemma_bucket_selection(req_size: int, align: int)
    requires
        spec_phys_size(req_size, align) < spec_bucket_size(N_CLASSES - 1),
    ensures
        0 <= spec_size_class_of(req_size, align) < N_CLASSES,
        spec_bucket_size(spec_size_class_of(req_size, align)) > spec_phys_size(req_size, align),
{
}

/// The chosen allocation size always covers the physical size, strictly so
/// for a classed request, and never shrinks below the descriptor itself; of
/// use to every caller placing a payload inside a block.
pub proof fn lemma_alloc_size_bounds(req_size: int, align: int)
    requires
        req_size >= 0,
        align >= 1,
    ensures
        spec_alloc_size(req_size, align) >= spec_phys_size(req_size, align),
        spec_size_class_of(req_size, align) < N_CLASSES ==> spec_alloc_size(req_size, align)
            > spec_phys_size(req_size, align),
        spec_alloc_size(req_size, align) >= DESCRIPTOR_SIZE + 1,
{
}

/// Placement of the payload inside a block: the payload starts aligned,
/// strictly above the descriptor, and no more than one alignment beyond it.
pub proof fn lemma_payload_addr_bounds(base: int, align: int)
    requires
        base >= 0,
        align >= 1,
    ensures
        base + DESCRIPTOR_SIZE < spec_payload_addr(base, align) <= base + DESCRIPTOR_SIZE + align,
        spec_payload_addr(base, align) % align == 0,
{
    let unaligned = base + DESCRIPTOR_SIZE + align;
    let q = unaligned / align;
    lemma_fundamental_div_mod(unaligned, align);
    assert(unaligned - unaligned % align == align * q);
    lemma_mod_multiples_basic(q, align);
    assert((q * align) % align == 0);
    assert(spec_payload_addr(base, align) == q * align);
}

} // verus!
