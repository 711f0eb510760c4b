//! Size-class resolution: the ladder, the bucket search, and its laws on
//! concrete values.

use ruspiro_allocator::layout::{
    bucket_size, power_of_two_check, size_class_of, DESCRIPTOR_SIZE, N_CLASSES,
};

#[test]
fn ladder_values() {
    let expected: [u64; 16] = [
        0x40, 0x80, 0x100, 0x200, 0x400, 0x800, 0x1000, 0x2000, 0x4000, 0x8000, 0x1_0000,
        0x2_0000, 0x4_0000, 0x8_0000, 0x10_0000, 0x20_0000,
    ];
    for (i, want) in expected.iter().enumerate() {
        assert_eq!(bucket_size(i), *want);
    }
}

#[test]
fn descriptor_size_is_sixty_bytes() {
    // One 32-bit magic word plus seven packed 64-bit fields.
    assert_eq!(DESCRIPTOR_SIZE, 60);
}

#[test]
fn small_request_lands_in_a_small_class() {
    // 5 bytes, byte-aligned: 60 + 1 + 5 = 66 physical bytes, which the 64 B
    // class can no longer hold, so the 128 B class takes it.
    assert_eq!(size_class_of(5, 1), 1);
}

#[test]
fn kilobyte_request_is_promoted_past_its_own_size() {
    // 1024 bytes: 60 + 1 + 1024 = 1085 physical bytes; the 1 KiB class is
    // too small and the 2 KiB class (index 5) takes it.
    assert_eq!(size_class_of(1024, 1), 5);
}

#[test]
fn aligned_request_counts_its_padding() {
    // 200 bytes aligned to 8: 60 + 8 + 200 = 268 physical bytes, into the
    // 512 B class (index 3).
    assert_eq!(size_class_of(200, 8), 3);
}

#[test]
fn wider_alignment_inflates_the_physical_size() {
    // 1024 bytes aligned to 16: one alignment's worth of padding joins the
    // descriptor and the payload, 60 + 16 + 1024 = 1100 bytes, still within
    // the 2 KiB class (index 5).
    assert_eq!(size_class_of(1024, 16), 5);
}

#[test]
fn exact_ladder_size_is_promoted() {
    // 60 + 1 + 3 = 64: exactly the smallest ladder value, promoted to the
    // next class because the comparison is strict.
    assert_eq!(size_class_of(3, 1), 1);
    // One byte less stays in the first class.
    assert_eq!(size_class_of(2, 1), 0);
}

#[test]
fn largest_classed_and_first_oversize() {
    // Physical size 0x1F_FFFF is the last to fit the 2 MiB class.
    assert_eq!(size_class_of(0x20_0000 - DESCRIPTOR_SIZE - 2, 1), 15);
    // Physical size 0x20_0000 no longer fits any ladder class.
    assert_eq!(size_class_of(0x20_0000 - DESCRIPTOR_SIZE - 1, 1), N_CLASSES);
}

#[test]
fn oversize_request_gets_the_oversize_class() {
    assert_eq!(size_class_of(16 * 1024 * 1024, 1), N_CLASSES);
    // A request too large for the machine word is oversize in any case.
    assert_eq!(size_class_of(u64::MAX - 10, 1), N_CLASSES);
}

#[test]
fn class_index_is_monotone_in_size_and_alignment() {
    assert!(size_class_of(100, 8) <= size_class_of(200, 8));
    assert!(size_class_of(200, 8) <= size_class_of(200, 16));
    assert!(size_class_of(0, 1) <= size_class_of(5, 1));
    assert!(size_class_of(1024, 1) <= size_class_of(1024, 16));
}

#[test]
fn selected_class_strictly_covers_the_physical_size() {
    for (s, a) in [(5u64, 1u64), (1024, 1), (200, 8), (1024, 16), (0, 1), (100_000, 64)] {
        let c = size_class_of(s, a);
        assert!(c < N_CLASSES);
        assert!(bucket_size(c) > s + DESCRIPTOR_SIZE + a);
    }
}

#[test]
fn power_of_two_test_matches_arithmetic() {
    assert!(power_of_two_check(1));
    assert!(power_of_two_check(2));
    assert!(power_of_two_check(4096));
    assert!(power_of_two_check(1 << 63));
    assert!(!power_of_two_check(0));
    assert!(!power_of_two_check(3));
    assert!(!power_of_two_check(4095));
    assert!(!power_of_two_check(u64::MAX));
}
