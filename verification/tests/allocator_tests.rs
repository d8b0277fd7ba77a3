//! Allocator behavior: reuse after free, zeroing on free, reserved
//! ranges never being handed out, and allocation queries.

use guestlink::mem::{Mem, MutPtr, MutVoidPtr, Ptr, NULL_PAGE_SIZE};

fn test_mem() -> Mem {
    Mem::with_size(0x100_0000)
}

#[test]
fn alloc_free_alloc_reuses_the_address_and_zeroes() {
    let mut mem = test_mem();
    let p = mem.allocate(0x40);
    assert!(!p.is_null());
    let data: MutPtr<u64> = p.cast();
    mem.write(data, 0xffff_ffff_ffff_ffff);
    mem.free(p);
    // immediately after free, all bytes read back as zero
    for i in 0..0x40u32 {
        let b: MutPtr<u8> = Ptr::from_bits(p.to_bits() + i);
        assert_eq!(mem.read(b), 0);
    }
    // an otherwise-idle allocator reuses the freed address
    let q = mem.allocate(0x40);
    assert_eq!(q.to_bits(), p.to_bits());
}

#[test]
fn allocations_do_not_overlap() {
    let mut mem = test_mem();
    let mut spans: Vec<(u32, u32)> = Vec::new();
    for size in [8u32, 24, 16, 100, 4] {
        let p = mem.allocate(size);
        let base = p.to_bits();
        assert!(base >= NULL_PAGE_SIZE);
        for &(b, s) in &spans {
            assert!(base + size <= b || b + s <= base);
        }
        spans.push((base, size));
    }
}

#[test]
fn reserve_excludes_the_range_from_allocation() {
    let mut mem = test_mem();
    let r_base = 0x0010_0000;
    let r_size = 0x0002_0000;
    mem.reserve(r_base, r_size);
    for _ in 0..64 {
        let p = mem.allocate(0x1_0000);
        let base = p.to_bits();
        assert!(
            base + 0x1_0000 <= r_base || r_base + r_size <= base,
            "allocation {base:#x} overlaps the reserved range"
        );
    }
}

#[test]
fn reserve_splits_around_the_middle() {
    let mut mem = test_mem();
    // reserve a slice that leaves free space on both sides
    mem.reserve(0x80_0000, 0x1000);
    let before = mem.allocate(0x10);
    let after = mem.allocate(0x10);
    assert!(!before.is_null() && !after.is_null());
}

#[test]
fn can_fit_reports_capacity() {
    let mut mem = test_mem();
    assert!(mem.can_fit(0xff_f000));
    assert!(!mem.can_fit(0xff_f001));
    let whole: MutVoidPtr = mem.allocate(0xff_f000);
    assert!(!whole.is_null());
    assert!(!mem.can_fit(1));
    mem.free(whole);
    assert!(mem.can_fit(0xff_f000));
}

#[test]
fn allocator_tracks_live_bases() {
    let mut mem = test_mem();
    let p = mem.allocate(0x20);
    assert!(mem.allocator.is_live(p.to_bits()));
    assert!(!mem.allocator.is_live(p.to_bits() + 1));
    mem.free(p);
    assert!(!mem.allocator.is_live(p.to_bits()));
}

#[test]
fn freed_space_can_serve_smaller_allocations() {
    let mut mem = test_mem();
    let p = mem.allocate(0x100);
    let q = mem.allocate(0x100);
    mem.free(p);
    let small = mem.allocate(0x10);
    // the freed chunk sits at the front of the free list, so first-fit
    // carves the smaller allocation out of it
    assert_eq!(small.to_bits(), p.to_bits());
    assert!(q.to_bits() != small.to_bits());
}
