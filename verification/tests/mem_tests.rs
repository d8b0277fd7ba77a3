//! Guest-memory behavior: pointer identity and arithmetic, read/write
//! round trips at arbitrary alignment, byte views, and C strings.

use guestlink::mem::{
    guest_size_of, ConstPtr, Mem, MutPtr, MutVoidPtr, Ptr, NULL_PAGE_SIZE,
};

/// A 16MiB guest span: full fidelity without asking the test host to
/// reserve the whole 32-bit range.
fn test_mem() -> Mem {
    Mem::with_size(0x100_0000)
}

#[test]
fn cast_preserves_address_bits() {
    let p: MutPtr<u32> = Ptr::from_bits(0x1234_5678);
    let q: MutPtr<u8> = p.cast();
    assert_eq!(q.to_bits(), 0x1234_5678);
    let r: ConstPtr<u64> = q.cast::<u64>().cast_const();
    assert_eq!(r.to_bits(), 0x1234_5678);
    assert_eq!(r.cast_mut().to_bits(), 0x1234_5678);
}

#[test]
fn null_and_is_null() {
    let p: MutVoidPtr = Ptr::null();
    assert_eq!(p.to_bits(), 0);
    assert!(p.is_null());
    assert!(!MutVoidPtr::from_bits(4).is_null());
}

#[test]
fn pointer_equality_is_by_address() {
    let a: MutPtr<u16> = Ptr::from_bits(0x8000);
    let b: MutPtr<u16> = Ptr::from_bits(0x8000);
    let c: MutPtr<u16> = Ptr::from_bits(0x8002);
    assert!(a == b);
    assert!(a != c);
}

#[test]
fn pointer_arithmetic_scales_by_pointee_size() {
    let p: MutPtr<u32> = Ptr::from_bits(0x2000);
    assert_eq!(p.add(3).to_bits(), 0x2000 + 12);
    assert_eq!(p.add(3).sub(2).to_bits(), 0x2000 + 4);
    let q: MutPtr<u8> = Ptr::from_bits(0x2000);
    assert_eq!(q.add(3).to_bits(), 0x2003);
}

#[test]
fn guest_sizes() {
    assert_eq!(guest_size_of::<u8>(), 1);
    assert_eq!(guest_size_of::<u16>(), 2);
    assert_eq!(guest_size_of::<u32>(), 4);
    assert_eq!(guest_size_of::<u64>(), 8);
    assert_eq!(guest_size_of::<MutPtr<u64>>(), 4);
}

#[test]
fn write_then_read_is_bit_identical_at_any_alignment() {
    let mut mem = test_mem();
    // deliberately misaligned addresses
    let p8: MutPtr<u8> = Ptr::from_bits(0x1001);
    mem.write(p8, 0xabu8);
    assert_eq!(mem.read(p8), 0xab);

    let p16: MutPtr<u16> = Ptr::from_bits(0x1003);
    mem.write(p16, 0xbeef);
    assert_eq!(mem.read(p16), 0xbeef);

    let p32: MutPtr<u32> = Ptr::from_bits(0x1005);
    mem.write(p32, 0xdead_beef);
    assert_eq!(mem.read(p32), 0xdead_beef);

    let p64: MutPtr<u64> = Ptr::from_bits(0x1009);
    mem.write(p64, 0x0123_4567_89ab_cdef);
    assert_eq!(mem.read(p64), 0x0123_4567_89ab_cdef);

    let pp: MutPtr<MutPtr<u32>> = Ptr::from_bits(0x1011);
    mem.write(pp, Ptr::from_bits(0xcafe_f00d));
    assert_eq!(mem.read(pp).to_bits(), 0xcafe_f00d);
}

#[test]
fn signed_write_then_read_is_bit_identical() {
    let mut mem = test_mem();
    let p8: MutPtr<i8> = Ptr::from_bits(0x1801);
    mem.write(p8, -5i8);
    assert_eq!(mem.read(p8), -5);
    let p16: MutPtr<i16> = Ptr::from_bits(0x1803);
    mem.write(p16, -30000i16);
    assert_eq!(mem.read(p16), -30000);
    let p32: MutPtr<i32> = Ptr::from_bits(0x1805);
    mem.write(p32, -2_000_000_000i32);
    assert_eq!(mem.read(p32), -2_000_000_000);
    let p64: MutPtr<i64> = Ptr::from_bits(0x1809);
    mem.write(p64, -9_000_000_000_000_000_000i64);
    assert_eq!(mem.read(p64), -9_000_000_000_000_000_000);
    // negative values really are stored two's-complement
    assert_eq!(mem.read::<u8, true>(Ptr::from_bits(0x1801)), 0xfb);
}

#[test]
fn values_are_stored_little_endian() {
    let mut mem = test_mem();
    let p: MutPtr<u32> = Ptr::from_bits(0x2000);
    mem.write(p, 0x0102_0304);
    assert_eq!(mem.read::<u8, true>(Ptr::from_bits(0x2000)), 0x04);
    assert_eq!(mem.read::<u8, true>(Ptr::from_bits(0x2001)), 0x03);
    assert_eq!(mem.read::<u8, true>(Ptr::from_bits(0x2002)), 0x02);
    assert_eq!(mem.read::<u8, true>(Ptr::from_bits(0x2003)), 0x01);
}

#[test]
fn fresh_memory_reads_zero() {
    let mem = test_mem();
    assert_eq!(mem.read::<u64, true>(Ptr::from_bits(NULL_PAGE_SIZE)), 0);
    assert_eq!(mem.read::<u32, true>(Ptr::from_bits(0xff_0000)), 0);
}

#[test]
fn bytes_at_and_write_bytes() {
    let mut mem = test_mem();
    let p: MutPtr<u8> = Ptr::from_bits(0x3000);
    mem.write_bytes(p, &[1, 2, 3, 4, 5]);
    let view = mem.bytes_at(p, 5);
    assert_eq!(view, &[1, 2, 3, 4, 5]);
    // a byte view over an array of u32 elements covers count * 4 bytes
    let words = mem.ptr_at::<u32, true>(p.cast(), 1);
    assert_eq!(words, &[1, 2, 3, 4]);
}

#[test]
fn check_access_guards_null_page_and_bounds() {
    let mem = test_mem();
    assert!(!mem.check_access(0, 1));
    assert!(!mem.check_access(NULL_PAGE_SIZE - 1, 1));
    assert!(!mem.check_access(NULL_PAGE_SIZE - 1, 4096));
    assert!(mem.check_access(NULL_PAGE_SIZE, 1));
    assert!(!mem.check_access(0xff_ffff, 2));
    assert!(mem.check_access(0xff_fffe, 2));
    assert!(!mem.check_access(0x100_0000, 1));
}

#[test]
fn cstr_round_trip() {
    let mut mem = test_mem();
    let p = mem.alloc_and_write_cstr(b"banana");
    assert_eq!(mem.cstr_at(p), b"banana");
    assert_eq!(mem.cstr_at_utf8(p), "banana");
    // the terminator is excluded but present
    let end: MutPtr<u8> = Ptr::from_bits(p.to_bits() + 6);
    assert_eq!(mem.read(end), 0);
}

#[test]
fn cstr_at_empty_string() {
    let mut mem = test_mem();
    let p = mem.alloc_and_write_cstr(b"");
    assert_eq!(mem.cstr_at(p), b"");
    assert_eq!(mem.cstr_at_utf8(p), "");
}

#[test]
fn alloc_and_write_value() {
    let mut mem = test_mem();
    let p = mem.alloc_and_write(0x1122_3344u32);
    assert_eq!(mem.read(p), 0x1122_3344);
}
