//! The arena allocator.

use vhost_bounce::bounce::allocator::{BounceAllocator, BOUNCE_ALLOC_ALIGN};
use vhost_bounce::bounce::BounceError;

#[test]
fn alloc_returns_aligned_offset_within_capacity() {
    let mut a = BounceAllocator::new(1024);
    let off = a.allocate(100).unwrap();
    assert_eq!(off % BOUNCE_ALLOC_ALIGN, 0);
    assert!(off + 100 <= a.capacity());
}

#[test]
fn alloc_zero_len_rejected() {
    let mut a = BounceAllocator::new(1024);
    assert_eq!(a.allocate(0), None);
    assert_eq!(a.free_bytes(), 1024);
}

#[test]
fn alloc_rounds_len_up_to_alignment() {
    let mut a = BounceAllocator::new(1024);
    let _ = a.allocate(1).unwrap();
    assert_eq!(a.free_bytes(), 1024 - BOUNCE_ALLOC_ALIGN);
}

#[test]
fn alloc_exhaustion_returns_none_without_side_effects() {
    let mut a = BounceAllocator::new(256);
    let off = a.allocate(200).unwrap(); // rounds to 256, takes everything
    assert_eq!(a.free_bytes(), 0);
    assert_eq!(a.allocate(1), None);
    assert_eq!(a.free_bytes(), 0);
    a.free(off, 200).unwrap();
    assert_eq!(a.allocate(256), Some(0));
}

#[test]
fn free_then_alloc_reuses_space() {
    let mut a = BounceAllocator::new(1024);
    let x = a.allocate(128).unwrap();
    let _y = a.allocate(128).unwrap();
    a.free(x, 128).unwrap();
    assert_eq!(a.allocate(128), Some(x));
}

#[test]
fn free_coalesces_with_previous_and_next() {
    let mut a = BounceAllocator::new(768);
    let x = a.allocate(256).unwrap();
    let y = a.allocate(256).unwrap();
    let z = a.allocate(256).unwrap();
    assert_eq!((x, y, z), (0, 256, 512));
    // Free the middle, then both neighbors; everything must coalesce
    // back into one extent covering the whole arena.
    a.free(y, 256).unwrap();
    a.free(x, 256).unwrap();
    a.free(z, 256).unwrap();
    assert_eq!(a.free_bytes(), 768);
    assert_eq!(a.allocate(768), Some(0));
}

#[test]
fn alloc_first_fit_is_deterministic() {
    let mut a = BounceAllocator::new(1024);
    let _a0 = a.allocate(256).unwrap(); // @0
    let b = a.allocate(128).unwrap(); // @256
    let _c = a.allocate(256).unwrap(); // @384
    let d = a.allocate(384).unwrap(); // @640
    assert_eq!((b, d), (256, 640));
    a.free(b, 128).unwrap();
    a.free(d, 384).unwrap();
    // Both gaps fit 64 bytes; first-fit must take the lower offset.
    assert_eq!(a.allocate(64), Some(256));
    // 256 bytes only fits in the second gap now.
    assert_eq!(a.allocate(256), Some(640));
}

#[test]
fn free_bytes_accounting_over_interleaved_ops() {
    let mut a = BounceAllocator::new(64 * 1024);
    let mut live: Vec<(u64, u64)> = Vec::new();
    let mut model_free = a.capacity();
    // Deterministic pseudo-random sequence (LCG).
    let mut seed = 0x2545_f491_4f6c_dd1du64;
    for i in 0..500 {
        seed = seed.wrapping_mul(6364136223846793005).wrapping_add(1);
        let len = 1 + (seed >> 33) % 4096;
        let rounded = len.next_multiple_of(BOUNCE_ALLOC_ALIGN);
        if i % 3 != 2 || live.is_empty() {
            if let Some(off) = a.allocate(len) {
                live.push((off, len));
                model_free -= rounded;
            }
        } else {
            let idx = (seed as usize) % live.len();
            let (off, len) = live.swap_remove(idx);
            a.free(off, len).unwrap();
            model_free += len.next_multiple_of(BOUNCE_ALLOC_ALIGN);
        }
        assert_eq!(a.free_bytes(), model_free, "iteration {i}");
    }
    for (off, len) in live.drain(..) {
        a.free(off, len).unwrap();
    }
    assert_eq!(a.free_bytes(), a.capacity());
}

#[test]
fn invalid_free_unallocated_range_rejected() {
    let mut a = BounceAllocator::new(1024);
    // Nothing was ever allocated: the range is free, so freeing it
    // overlaps free space and must be rejected.
    assert!(matches!(
        a.free(0, 64),
        Err(BounceError::InvalidFree { offset: 0, len: 64 })
    ));
    // Out of bounds is also invalid.
    let off = a.allocate(64).unwrap();
    assert!(a.free(1024, 64).is_err());
    assert!(a.free(off, 2048).is_err());
    assert_eq!(a.free_bytes(), 1024 - 64);
}

#[test]
fn invalid_free_overlapping_free_range_rejected() {
    let mut a = BounceAllocator::new(1024);
    let x = a.allocate(128).unwrap();
    let _y = a.allocate(128).unwrap();
    a.free(x, 128).unwrap();
    // x..x+128 is free again; a free spanning it (or part of it)
    // overlaps free space.
    assert!(a.free(x, 256).is_err());
    assert!(a.free(x + 64, 64).is_err());
    assert_eq!(a.free_bytes(), 1024 - 128);
}

#[test]
fn full_drain_restores_initial_state() {
    let mut a = BounceAllocator::new(4096);
    let mut extents = Vec::new();
    for len in [64u64, 100, 1, 512, 640, 4096] {
        if let Some(off) = a.allocate(len) {
            extents.push((off, len));
        }
    }
    assert!(!extents.is_empty());
    for (off, len) in extents.drain(..) {
        a.free(off, len).unwrap();
    }
    assert_eq!(a.free_bytes(), a.capacity());
    assert_eq!(a.allocate(4096), Some(0));
}

#[test]
fn freeing_what_was_allocated_restores_the_arena() {
    let mut a = BounceAllocator::new(1024);
    let keep = a.allocate(200).unwrap();
    for len in [1u64, 64, 65, 500] {
        let before = a.free_bytes();
        let off = a.allocate(len).unwrap();
        a.free(off, len).unwrap();
        assert_eq!(a.free_bytes(), before);
        // The same request gets the same place again.
        assert_eq!(a.allocate(len), Some(off));
        a.free(off, len).unwrap();
    }
    a.free(keep, 200).unwrap();
    assert_eq!(a.allocate(1024), Some(0));
}

#[test]
fn double_free_is_rejected() {
    let mut a = BounceAllocator::new(1024);
    let off = a.allocate(100).unwrap();
    a.free(off, 100).unwrap();
    assert!(matches!(
        a.free(off, 100),
        Err(BounceError::InvalidFree { offset: 0, len: 100 })
    ));
}

#[test]
fn capacity_is_rounded_down_and_may_be_empty() {
    let mut a = BounceAllocator::new(1000);
    assert_eq!(a.capacity(), 960);
    assert_eq!(a.allocate(961), None);
    assert_eq!(a.allocate(960), Some(0));
    let mut none = BounceAllocator::new(63);
    assert_eq!(none.capacity(), 0);
    assert_eq!(none.allocate(1), None);
    assert!(none.free(0, 1).is_err());
}

#[test]
fn requests_beyond_any_arena_are_refused() {
    let mut a = BounceAllocator::new(1024);
    assert_eq!(a.allocate(u64::MAX), None);
    assert!(matches!(
        a.free(0, u64::MAX),
        Err(BounceError::InvalidFree {
            offset: 0,
            len: u64::MAX
        })
    ));
    assert!(a.free(u64::MAX - 63, 64).is_err());
    assert!(a.free(32, 64).is_err());
    assert!(a.free(0, 0).is_err());
}

#[test]
fn one_page_buffers_always_fit_the_default_arena() {
    // Eight slots, four pages of arena each: with every slot busy with a
    // buffer of at most a page, in whatever pattern, another one fits.
    let mut a = BounceAllocator::new(4 * 8 * 4096);
    let mut live: Vec<(u64, u64)> = Vec::new();
    let mut seed = 7u64;
    for _ in 0..2000 {
        seed = seed.wrapping_mul(6364136223846793005).wrapping_add(1);
        let len = 1 + (seed >> 33) % 4096;
        if live.len() == 8 {
            let (off, len) = live.swap_remove((seed >> 20) as usize % 8);
            a.free(off, len).unwrap();
        }
        let off = a.allocate(len).unwrap();
        live.push((off, len));
        let extra = a.allocate(4096).unwrap();
        a.free(extra, 4096).unwrap();
    }
}
