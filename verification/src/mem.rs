//! The virtual memory of the emulated application: a flat 32-bit guest
//! address space with bounds-checked accessors and a chunk allocator.
//!
//! No endianness conversion is done for reads and writes: every value is
//! stored little-endian, which is what the emulated platform uses.

pub mod allocator;

use vstd::prelude::*;

verus! {

use vstd::string::StringSliceAdditionalSpecFns;

/// Equivalent of `usize` for guest memory.
pub type GuestUSize = u32;

/// Equivalent of `isize` for guest memory.
pub type GuestISize = i32;

/// The first 4KiB of guest address space are never handed out, so null
/// pointer dereferences can be caught.
pub const NULL_PAGE_SIZE: u32 = 0x1000;

/// The emulated platform's main-thread stack size of 1MiB.
pub const MAIN_THREAD_STACK_SIZE: u32 = 1024 * 1024;

/// Address of the lowest byte (not the base) of the main thread's stack,
/// placed at the very top of the full 32-bit address space.
pub const MAIN_THREAD_STACK_LOW_END: u32 = 0xFFF0_0000;

/// The emulated platform's secondary-thread stack size of 512KiB.
pub const SECONDARY_THREAD_STACK_SIZE: u32 = 512 * 1024;

/// Pointee type used for untyped pointers, standing in for C's `void`.
#[derive(Clone, Copy)]
pub struct Void;

/// Pointer type for guest memory, or the "guest pointer" type.
///
/// The `MUT` type parameter determines whether this is mutable or not:
/// use the [ConstPtr], [MutPtr], [ConstVoidPtr] or [MutVoidPtr] aliases
/// rather than writing it out.
///
/// Identity is defined purely by the address value; the pointee type only
/// scales arithmetic and selects which accesses are allowed.
pub struct Ptr<T, const MUT: bool>(pub u32, pub core::marker::PhantomData<T>);

impl<T, const MUT: bool> Clone for Ptr<T, MUT> {
    fn clone(&self) -> (r: Self)
        ensures
            r == *self,
    {
        Ptr(self.0, core::marker::PhantomData)
    }
}

impl<T, const MUT: bool> Copy for Ptr<T, MUT> {}

/// Constant guest pointer type (like Rust's `*const T`).
pub type ConstPtr<T> = Ptr<T, false>;
/// Mutable guest pointer type (like Rust's `*mut T`).
pub type MutPtr<T> = Ptr<T, true>;
/// Constant guest pointer-to-void type (like C's `const void *`).
pub type ConstVoidPtr = ConstPtr<Void>;
/// Mutable guest pointer-to-void type (like C's `void *`).
pub type MutVoidPtr = MutPtr<Void>;

impl<T, const MUT: bool> Ptr<T, MUT> {
    /// The address held in this pointer.
    pub open spec fn addr(self) -> u32 {
        self.0
    }

    pub fn null() -> (r: Self)
        ensures
            r.addr() == 0,
    {
        Ptr(0, core::marker::PhantomData)
    }

    pub fn to_bits(self) -> (r: GuestUSize)
        ensures
            r == self.addr(),
    {
        self.0
    }

    pub fn from_bits(bits: GuestUSize) -> (r: Self)
        ensures
            r.addr() == bits,
    {
        Ptr(bits, core::marker::PhantomData)
    }

    /// Reinterpret the pointee type. The address bits are preserved exactly
    /// and nothing else changes; no validation is performed.
    pub fn cast<U>(self) -> (r: Ptr<U, MUT>)
        ensures
            r.addr() == self.addr(),
    {
        Ptr(self.0, core::marker::PhantomData)
    }

    pub fn is_null(self) -> (r: bool)
        ensures
            r == (self.addr() == 0),
    {
        self.0 == 0
    }
}

impl<T> ConstPtr<T> {
    /// The explicit, auditable const-to-mutable conversion.
    pub fn cast_mut(self) -> (r: MutPtr<T>)
        ensures
            r.addr() == self.addr(),
    {
        Ptr(self.0, core::marker::PhantomData)
    }
}

impl<T> MutPtr<T> {
    /// Mutable pointers convert to read-only freely.
    pub fn cast_const(self) -> (r: ConstPtr<T>)
        ensures
            r.addr() == self.addr(),
    {
        Ptr(self.0, core::marker::PhantomData)
    }
}

impl<T, const MUT: bool> PartialEq for Ptr<T, MUT> {
    fn eq(&self, other: &Self) -> (r: bool) {
        self.0 == other.0
    }
}

impl<T, const MUT: bool> Eq for Ptr<T, MUT> {}

impl<T, const MUT: bool> vstd::std_specs::cmp::PartialEqSpecImpl for Ptr<T, MUT> {
    open spec fn obeys_eq_spec() -> bool {
        true
    }

    open spec fn eq_spec(&self, other: &Self) -> bool {
        self.0 == other.0
    }
}

/// Marker trait for types that can be safely written to guest memory,
/// saying how a value lays itself out as little-endian bytes.
///
/// Especially for structs, be careful that the layout matches the guest
/// ABI; only plain scalar types and guest pointers implement this here.
pub trait SafeWrite: Sized {
    /// How many bytes a value of this type occupies in guest memory.
    spec fn guest_size() -> u32;

    /// The little-endian byte image of this value.
    spec fn to_bytes(self) -> Seq<u8>;

    proof fn size_properties(self)
        ensures
            Self::guest_size() > 0,
            self.to_bytes().len() == Self::guest_size(),
    ;

    fn size() -> (s: u32)
        ensures
            s == Self::guest_size(),
    ;

    fn to_le_vec(self) -> (v: Vec<u8>)
        ensures
            v@ == self.to_bytes(),
    ;
}

/// Marker trait for types that can be safely read back from guest memory:
/// types for which every possible bit pattern is a legal value, so that
/// reading arbitrary guest bytes cannot construct an invalid host value.
pub trait SafeRead: SafeWrite {
    /// The value a little-endian byte image decodes to.
    spec fn from_bytes(bytes: Seq<u8>) -> Self;

    fn from_le_slice(bytes: &[u8]) -> (r: Self)
        requires
            bytes@.len() == Self::guest_size(),
        ensures
            r == Self::from_bytes(bytes@),
    ;

    /// Decoding an encoded value gives the value back, bit-identically.
    proof fn bytes_roundtrip(self)
        ensures
            Self::from_bytes(self.to_bytes()) == self,
    ;
}

/// [core::mem::size_of], but returning a [GuestUSize] and speaking of the
/// guest layout.
pub fn guest_size_of<T: SafeWrite>() -> (s: GuestUSize)
    ensures
        s == T::guest_size(),
{
    T::size()
}

impl<T: SafeWrite, const MUT: bool> Ptr<T, MUT> {
    /// C-like pointer arithmetic: move forward by `count` elements, i.e.
    /// `count` times the pointee size in bytes. Overflow is excluded by the
    /// contract rather than wrapping.
    pub fn add(self, count: GuestUSize) -> (r: Self)
        requires
            self.addr() + count * T::guest_size() <= u32::MAX,
        ensures
            r.addr() == self.addr() + count * T::guest_size(),
    {
        let size = T::size();
        Ptr(self.0 + count * size, core::marker::PhantomData)
    }

    /// C-like pointer arithmetic: move backward by `count` elements.
    /// Underflow is excluded by the contract rather than wrapping.
    pub fn sub(self, count: GuestUSize) -> (r: Self)
        requires
            count * T::guest_size() <= self.addr(),
        ensures
            r.addr() == self.addr() - count * T::guest_size(),
    {
        let size = T::size();
        Ptr(self.0 - count * size, core::marker::PhantomData)
    }
}

impl SafeWrite for u8 {
    open spec fn guest_size() -> u32 {
        1
    }

    open spec fn to_bytes(self) -> Seq<u8> {
        seq![self]
    }

    proof fn size_properties(self) {
    }

    fn size() -> u32 {
        1
    }

    fn to_le_vec(self) -> (v: Vec<u8>) {
        let mut v: Vec<u8> = Vec::new();
        v.push(self);
        proof {
            assert(v@ =~= self.to_bytes());
        }
        v
    }
}

impl SafeRead for u8 {
    open spec fn from_bytes(bytes: Seq<u8>) -> Self {
        bytes[0]
    }

    fn from_le_slice(bytes: &[u8]) -> Self {
        *vstd::slice::slice_index_get(bytes, 0)
    }

    proof fn bytes_roundtrip(self) {
    }
}

impl SafeWrite for u16 {
    open spec fn guest_size() -> u32 {
        2
    }

    open spec fn to_bytes(self) -> Seq<u8> {
        vstd::bytes::spec_u16_to_le_bytes(self)
    }

    proof fn size_properties(self) {
        vstd::bytes::lemma_auto_spec_u16_to_from_le_bytes();
    }

    fn size() -> u32 {
        2
    }

    fn to_le_vec(self) -> (v: Vec<u8>) {
        vstd::bytes::u16_to_le_bytes(self)
    }
}

impl SafeRead for u16 {

    open spec fn from_bytes(bytes: Seq<u8>) -> Self {
        vstd::bytes::spec_u16_from_le_bytes(bytes)
    }

    fn from_le_slice(bytes: &[u8]) -> Self {
        vstd::bytes::u16_from_le_bytes(bytes)
    }

    proof fn bytes_roundtrip(self) {
        vstd::bytes::lemma_auto_spec_u16_to_from_le_bytes();
        assert(vstd::bytes::spec_u16_to_le_bytes(self).len() == 2);
        assert(vstd::bytes::spec_u16_from_le_bytes(vstd::bytes::spec_u16_to_le_bytes(self)) == self);
    }
}

impl SafeWrite for u32 {
    open spec fn guest_size() -> u32 {
        4
    }

    open spec fn to_bytes(self) -> Seq<u8> {
        vstd::bytes::spec_u32_to_le_bytes(self)
    }

    proof fn size_properties(self) {
        vstd::bytes::lemma_auto_spec_u32_to_from_le_bytes();
    }

    fn size() -> u32 {
        4
    }

    fn to_le_vec(self) -> (v: Vec<u8>) {
        vstd::bytes::u32_to_le_bytes(self)
    }
}

impl SafeRead for u32 {
    open spec fn from_bytes(bytes: Seq<u8>) -> Self {
        vstd::bytes::spec_u32_from_le_bytes(bytes)
    }

    fn from_le_slice(bytes: &[u8]) -> Self {
        vstd::bytes::u32_from_le_bytes(bytes)
    }

    proof fn bytes_roundtrip(self) {
        vstd::bytes::lemma_auto_spec_u32_to_from_le_bytes();
        assert(vstd::bytes::spec_u32_to_le_bytes(self).len() == 4);
        assert(vstd::bytes::spec_u32_from_le_bytes(vstd::bytes::spec_u32_to_le_bytes(self)) == self);
    }
}

impl SafeWrite for u64 {
    open spec fn guest_size() -> u32 {
        8
    }

    open spec fn to_bytes(self) -> Seq<u8> {
        vstd::bytes::spec_u64_to_le_bytes(self)
    }

    proof fn size_properties(self) {
        vstd::bytes::lemma_auto_spec_u64_to_from_le_bytes();
    }

    fn size() -> u32 {
        8
    }

    fn to_le_vec(self) -> (v: Vec<u8>) {
        vstd::bytes::u64_to_le_bytes(self)
    }
}

impl SafeRead for u64 {
    open spec fn from_bytes(bytes: Seq<u8>) -> Self {
        vstd::bytes::spec_u64_from_le_bytes(bytes)
    }

    fn from_le_slice(bytes: &[u8]) -> Self {
        vstd::bytes::u64_from_le_bytes(bytes)
    }

    proof fn bytes_roundtrip(self) {
        vstd::bytes::lemma_auto_spec_u64_to_from_le_bytes();
        assert(vstd::bytes::spec_u64_from_le_bytes(vstd::bytes::spec_u64_to_le_bytes(self)) == self);
    }
}

/// The two's-complement bit image of a signed value, as the unsigned
/// value with the same bits.
pub open spec fn i8_to_bits(x: i8) -> u8 {
    if x >= 0 {
        x as u8
    } else {
        (x + 0x100) as u8
    }
}

pub open spec fn i8_from_bits(u: u8) -> i8 {
    if u < 0x80 {
        u as i8
    } else {
        (u - 0x100) as i8
    }
}

pub open spec fn i16_to_bits(x: i16) -> u16 {
    if x >= 0 {
        x as u16
    } else {
        (x + 0x1_0000) as u16
    }
}

pub open spec fn i16_from_bits(u: u16) -> i16 {
    if u < 0x8000 {
        u as i16
    } else {
        (u - 0x1_0000) as i16
    }
}

pub open spec fn i32_to_bits(x: i32) -> u32 {
    if x >= 0 {
        x as u32
    } else {
        (x + 0x1_0000_0000) as u32
    }
}

pub open spec fn i32_from_bits(u: u32) -> i32 {
    if u < 0x8000_0000 {
        u as i32
    } else {
        (u - 0x1_0000_0000) as i32
    }
}

pub open spec fn i64_to_bits(x: i64) -> u64 {
    if x >= 0 {
        x as u64
    } else {
        (x + 0x1_0000_0000_0000_0000) as u64
    }
}

pub open spec fn i64_from_bits(u: u64) -> i64 {
    if u < 0x8000_0000_0000_0000 {
        u as i64
    } else {
        (u - 0x1_0000_0000_0000_0000) as i64
    }
}

fn encode_i8(x: i8) -> (r: u8)
    ensures
        r == i8_to_bits(x),
{
    if x >= 0 {
        x as u8
    } else {
        ((x as i16) + 0x100) as u8
    }
}

fn decode_i8(u: u8) -> (r: i8)
    ensures
        r == i8_from_bits(u),
{
    if u < 0x80 {
        u as i8
    } else {
        ((u as i16) - 0x100) as i8
    }
}

fn encode_i16(x: i16) -> (r: u16)
    ensures
        r == i16_to_bits(x),
{
    if x >= 0 {
        x as u16
    } else {
        ((x as i32) + 0x1_0000) as u16
    }
}

fn decode_i16(u: u16) -> (r: i16)
    ensures
        r == i16_from_bits(u),
{
    if u < 0x8000 {
        u as i16
    } else {
        ((u as i32) - 0x1_0000) as i16
    }
}

fn encode_i32(x: i32) -> (r: u32)
    ensures
        r == i32_to_bits(x),
{
    if x >= 0 {
        x as u32
    } else {
        ((x as i64) + 0x1_0000_0000) as u32
    }
}

fn decode_i32(u: u32) -> (r: i32)
    ensures
        r == i32_from_bits(u),
{
    if u < 0x8000_0000 {
        u as i32
    } else {
        ((u as i64) - 0x1_0000_0000) as i32
    }
}

fn encode_i64(x: i64) -> (r: u64)
    ensures
        r == i64_to_bits(x),
{
    if x >= 0 {
        x as u64
    } else {
        ((x as i128) + 0x1_0000_0000_0000_0000) as u64
    }
}

fn decode_i64(u: u64) -> (r: i64)
    ensures
        r == i64_from_bits(u),
{
    if u < 0x8000_0000_0000_0000 {
        u as i64
    } else {
        ((u as i128) - 0x1_0000_0000_0000_0000) as i64
    }
}

impl SafeWrite for i8 {
    open spec fn guest_size() -> u32 {
        1
    }

    open spec fn to_bytes(self) -> Seq<u8> {
        seq![i8_to_bits(self)]
    }

    proof fn size_properties(self) {
    }

    fn size() -> u32 {
        1
    }

    fn to_le_vec(self) -> (v: Vec<u8>) {
        let mut v: Vec<u8> = Vec::new();
        v.push(encode_i8(self));
        proof {
            assert(v@ =~= self.to_bytes());
        }
        v
    }
}

impl SafeRead for i8 {
    open spec fn from_bytes(bytes: Seq<u8>) -> Self {
        i8_from_bits(bytes[0])
    }

    fn from_le_slice(bytes: &[u8]) -> Self {
        decode_i8(*vstd::slice::slice_index_get(bytes, 0))
    }

    proof fn bytes_roundtrip(self) {
    }
}

impl SafeWrite for i16 {
    open spec fn guest_size() -> u32 {
        2
    }

    open spec fn to_bytes(self) -> Seq<u8> {
        vstd::bytes::spec_u16_to_le_bytes(i16_to_bits(self))
    }

    proof fn size_properties(self) {
        vstd::bytes::lemma_auto_spec_u16_to_from_le_bytes();
        assert(vstd::bytes::spec_u16_to_le_bytes(i16_to_bits(self)).len() == 2);
    }

    fn size() -> u32 {
        2
    }

    fn to_le_vec(self) -> (v: Vec<u8>) {
        vstd::bytes::u16_to_le_bytes(encode_i16(self))
    }
}

impl SafeRead for i16 {
    open spec fn from_bytes(bytes: Seq<u8>) -> Self {
        i16_from_bits(vstd::bytes::spec_u16_from_le_bytes(bytes))
    }

    fn from_le_slice(bytes: &[u8]) -> Self {
        decode_i16(vstd::bytes::u16_from_le_bytes(bytes))
    }

    proof fn bytes_roundtrip(self) {
        vstd::bytes::lemma_auto_spec_u16_to_from_le_bytes();
        let u = i16_to_bits(self);
        assert(vstd::bytes::spec_u16_to_le_bytes(u).len() == 2);
        assert(vstd::bytes::spec_u16_from_le_bytes(vstd::bytes::spec_u16_to_le_bytes(u)) == u);
    }
}

impl SafeWrite for i32 {
    open spec fn guest_size() -> u32 {
        4
    }

    open spec fn to_bytes(self) -> Seq<u8> {
        vstd::bytes::spec_u32_to_le_bytes(i32_to_bits(self))
    }

    proof fn size_properties(self) {
        vstd::bytes::lemma_auto_spec_u32_to_from_le_bytes();
        assert(vstd::bytes::spec_u32_to_le_bytes(i32_to_bits(self)).len() == 4);
    }

    fn size() -> u32 {
        4
    }

    fn to_le_vec(self) -> (v: Vec<u8>) {
        vstd::bytes::u32_to_le_bytes(encode_i32(self))
    }
}

impl SafeRead for i32 {
    open spec fn from_bytes(bytes: Seq<u8>) -> Self {
        i32_from_bits(vstd::bytes::spec_u32_from_le_bytes(bytes))
    }

    fn from_le_slice(bytes: &[u8]) -> Self {
        decode_i32(vstd::bytes::u32_from_le_bytes(bytes))
    }

    proof fn bytes_roundtrip(self) {
        vstd::bytes::lemma_auto_spec_u32_to_from_le_bytes();
        let u = i32_to_bits(self);
        assert(vstd::bytes::spec_u32_to_le_bytes(u).len() == 4);
        assert(vstd::bytes::spec_u32_from_le_bytes(vstd::bytes::spec_u32_to_le_bytes(u)) == u);
    }
}

impl SafeWrite for i64 {
    open spec fn guest_size() -> u32 {
        8
    }

    open spec fn to_bytes(self) -> Seq<u8> {
        vstd::bytes::spec_u64_to_le_bytes(i64_to_bits(self))
    }

    proof fn size_properties(self) {
        vstd::bytes::lemma_auto_spec_u64_to_from_le_bytes();
    }

    fn size() -> u32 {
        8
    }

    fn to_le_vec(self) -> (v: Vec<u8>) {
        vstd::bytes::u64_to_le_bytes(encode_i64(self))
    }
}

impl SafeRead for i64 {
    open spec fn from_bytes(bytes: Seq<u8>) -> Self {
        i64_from_bits(vstd::bytes::spec_u64_from_le_bytes(bytes))
    }

    fn from_le_slice(bytes: &[u8]) -> Self {
        decode_i64(vstd::bytes::u64_from_le_bytes(bytes))
    }

    proof fn bytes_roundtrip(self) {
        vstd::bytes::lemma_auto_spec_u64_to_from_le_bytes();
        let u = i64_to_bits(self);
        assert(vstd::bytes::spec_u64_from_le_bytes(vstd::bytes::spec_u64_to_le_bytes(u)) == u);
    }
}

impl<T, const MUT: bool> SafeWrite for Ptr<T, MUT> {
    open spec fn guest_size() -> u32 {
        4
    }

    open spec fn to_bytes(self) -> Seq<u8> {
        vstd::bytes::spec_u32_to_le_bytes(self.0)
    }

    proof fn size_properties(self) {
        vstd::bytes::lemma_auto_spec_u32_to_from_le_bytes();
    }

    fn size() -> u32 {
        4
    }

    fn to_le_vec(self) -> (v: Vec<u8>) {
        vstd::bytes::u32_to_le_bytes(self.0)
    }
}

impl<T, const MUT: bool> SafeRead for Ptr<T, MUT> {
    open spec fn from_bytes(bytes: Seq<u8>) -> Self {
        Ptr(vstd::bytes::spec_u32_from_le_bytes(bytes), core::marker::PhantomData)
    }

    fn from_le_slice(bytes: &[u8]) -> Self {
        Ptr(vstd::bytes::u32_from_le_bytes(bytes), core::marker::PhantomData)
    }

    proof fn bytes_roundtrip(self) {
        vstd::bytes::lemma_auto_spec_u32_to_from_le_bytes();
        assert(vstd::bytes::spec_u32_to_le_bytes(self.0).len() == 4);
        assert(vstd::bytes::spec_u32_from_le_bytes(vstd::bytes::spec_u32_to_le_bytes(self.0)) == self.0);
        assert(Self::from_bytes(self.to_bytes()) =~= self);
    }
}

/// Number of bytes in the full guest address space: the whole 32-bit
/// range, which is what a real emulated process reserves.
pub const GUEST_MEMORY_SIZE: u64 = 0x1_0000_0000;

/// Relies on std::vec::from_elem (the `vec![elem; n]` form) to produce the
/// zero-filled backing for the guest address space. For the full 32-bit
/// span this assumes the host has a 64-bit address space — the length
/// cannot even be written as a `usize` on a 32-bit host — and that the
/// host OS backs the zeroed range with lazily-committed pages.
#[verifier::external_body]
fn guest_backing(n: u64) -> (v: Vec<u8>)
    requires
        n <= GUEST_MEMORY_SIZE,
    ensures
        v@ == Seq::new(n as nat, |i: int| 0u8),
{
    vec![0u8; n as usize]
}

/// Whether the guest memory backed by `b` may be touched at
/// `[addr, addr + size)`: the range must lie above the null page and
/// within the addressable span. Anything else is a null-page or bounds
/// fault.
pub open spec fn access_ok(b: Seq<u8>, addr: u32, size: int) -> bool {
    &&& addr >= NULL_PAGE_SIZE
    &&& addr + size <= b.len()
}

/// `new_b` is `old_b` with the bytes at `[a, a + data.len())` replaced by
/// `data` and every other byte unchanged.
pub open spec fn range_updated(old_b: Seq<u8>, new_b: Seq<u8>, a: int, data: Seq<u8>) -> bool {
    &&& new_b.len() == old_b.len()
    &&& (forall|i: int| 0 <= i < data.len() ==> #[trigger] new_b[a + i] == data[i])
    &&& (forall|i: int| 0 <= i < old_b.len() && !(a <= i < a + data.len()) ==> #[trigger] new_b[i] == old_b[i])
}

/// The bytes at `[a, a + len)` are a C string of length `len`: no nul
/// within it, and a nul terminator right after it.
pub open spec fn is_cstr_at(b: Seq<u8>, a: int, len: int) -> bool {
    &&& 0 <= len
    &&& a + len < b.len()
    &&& (forall|j: int| 0 <= j < len ==> #[trigger] b[a + j] != 0)
    &&& b[a + len] == 0
}

/// The type that owns the guest memory and provides accessors for it.
///
/// The backing vector is 4GiB so that it covers the entire 32-bit virtual
/// address space; the host OS is expected to commit its zero pages lazily,
/// and an emulated device only ever uses a small fraction of the range.
pub struct Mem {
    pub bytes: Vec<u8>,
    pub allocator: allocator::Allocator,
}

impl Mem {
    /// The backing range covers the addressable span, the allocator's
    /// bookkeeping is intact, and the allocator never tracks space beyond
    /// the backing.
    pub open spec fn wf(self) -> bool {
        &&& NULL_PAGE_SIZE < self.bytes@.len() <= GUEST_MEMORY_SIZE
        &&& self.allocator.wf()
        &&& allocator::chunks_bounded(self.allocator@.free, self.bytes@.len() as int)
        &&& allocator::chunks_bounded(self.allocator@.used, self.bytes@.len() as int)
    }

    /// Whether an allocation of `size` bytes would currently succeed.
    pub fn can_fit(&self, size: GuestUSize) -> (b: bool)
        ensures
            b == self.allocator.can_alloc(size),
    {
        self.allocator.can_fit(size)
    }

    /// Report whether an access of `size` bytes at `addr` would be in
    /// bounds and above the null page.
    pub fn check_access(&self, addr: u32, size: u32) -> (b: bool)
        ensures
            b == access_ok(self.bytes@, addr, size as int),
    {
        addr >= NULL_PAGE_SIZE && (addr as u64) + (size as u64) <= self.bytes.len() as u64
    }

    /// A fresh guest address space of `size` bytes: all zero, everything
    /// above the null page free. The full 32-bit span (see [Mem::new]) is
    /// the real emulated layout; a smaller span serves hosts that cannot
    /// commit to reserving it.
    pub fn with_size(size: u64) -> (r: Mem)
        requires
            NULL_PAGE_SIZE < size <= GUEST_MEMORY_SIZE,
        ensures
            r.wf(),
            r.bytes@ == Seq::new(size as nat, |i: int| 0u8),
            r.allocator@.used == Seq::<allocator::Chunk>::empty(),
            r.allocator@.reserved == Seq::<allocator::Chunk>::empty(),
            r.allocator@.free == seq![allocator::Chunk {
                base: NULL_PAGE_SIZE,
                size: (size - NULL_PAGE_SIZE) as u32,
            }],
    {
        let bytes = guest_backing(size);
        let allocator = allocator::Allocator::new(size);
        proof {
            assert(allocator@.free =~= seq![allocator::Chunk {
                base: NULL_PAGE_SIZE,
                size: (size - NULL_PAGE_SIZE) as u32,
            }]);
            assert(allocator@.used =~= Seq::<allocator::Chunk>::empty());
            assert(allocator@.reserved =~= Seq::<allocator::Chunk>::empty());
        }
        Mem { bytes, allocator }
    }

    /// A fresh guest address space covering the entire 32-bit range: all
    /// zero bytes, everything above the null page free.
    pub fn new() -> (r: Mem)
        ensures
            r.wf(),
            r.bytes@ == Seq::new(GUEST_MEMORY_SIZE as nat, |i: int| 0u8),
            r.allocator@.used == Seq::<allocator::Chunk>::empty(),
            r.allocator@.reserved == Seq::<allocator::Chunk>::empty(),
    {
        Self::with_size(GUEST_MEMORY_SIZE)
    }

    /// Get a slice for reading `count` bytes. This is the basic primitive
    /// for read-only memory access; the contract excludes null-page and
    /// out-of-bounds accesses, which are fatal.
    pub fn bytes_at<const MUT: bool>(&self, ptr: Ptr<u8, MUT>, count: GuestUSize) -> (r: &[u8])
        requires
            self.wf(),
            access_ok(self.bytes@, ptr.addr(), count as int),
        ensures
            r@ == self.bytes@.subrange(ptr.addr() as int, ptr.addr() + count),
    {
        let n = self.bytes.len();
        let start = ptr.to_bits() as usize;
        vstd::slice::slice_subrange(self.bytes.as_slice(), start, start + count as usize)
    }

    /// Overwrite the `data.len()` bytes at `ptr` with `data`. This is the
    /// basic primitive for memory mutation; the contract excludes
    /// null-page and out-of-bounds accesses, which are fatal.
    pub fn write_bytes(&mut self, ptr: MutPtr<u8>, data: &[u8])
        requires
            old(self).wf(),
            access_ok(old(self).bytes@, ptr.addr(), data@.len() as int),
        ensures
            final(self).wf(),
            final(self).allocator == old(self).allocator,
            range_updated(old(self).bytes@, final(self).bytes@, ptr.addr() as int, data@),
    {
        let ghost b0 = self.bytes@;
        let base = ptr.to_bits() as usize;
        let n = data.len();
        let total = self.bytes.len();
        let mut k: usize = 0;
        while k < n
            invariant
                0 <= k <= n,
                n == data@.len(),
                base == ptr.addr(),
                base + n <= b0.len(),
                total == b0.len(),
                self.bytes@.len() == b0.len(),
                self.allocator == old(self).allocator,
                old(self).bytes@ == b0,
                old(self).allocator.wf(),
                forall|i: int| 0 <= i < k ==> #[trigger] self.bytes@[base + i] == data@[i],
                forall|i: int| 0 <= i < b0.len() && !(base <= i < base + k) ==> #[trigger] self.bytes@[i] == b0[i],
            decreases n - k,
        {
            let byte = *vstd::slice::slice_index_get(data, k);
            self.bytes.set(base + k, byte);
            k += 1;
        }
    }

    /// Read a value from memory. This is the preferred way to read memory
    /// in most cases. The address does not have to be aligned.
    pub fn read<T: SafeRead, const MUT: bool>(&self, ptr: Ptr<T, MUT>) -> (r: T)
        requires
            self.wf(),
            access_ok(self.bytes@, ptr.addr(), T::guest_size() as int),
        ensures
            r == T::from_bytes(self.bytes@.subrange(ptr.addr() as int, ptr.addr() + T::guest_size())),
    {
        let size = T::size();
        let slice = self.bytes_at(ptr.cast::<u8>(), size);
        T::from_le_slice(slice)
    }

    /// Write a value to memory. This is the preferred way to write memory
    /// in most cases. The address does not have to be aligned.
    pub fn write<T: SafeWrite>(&mut self, ptr: MutPtr<T>, value: T)
        requires
            old(self).wf(),
            access_ok(old(self).bytes@, ptr.addr(), T::guest_size() as int),
        ensures
            final(self).wf(),
            final(self).allocator == old(self).allocator,
            range_updated(old(self).bytes@, final(self).bytes@, ptr.addr() as int, value.to_bytes()),
    {
        proof {
            value.size_properties();
        }
        let v = value.to_le_vec();
        self.write_bytes(ptr.cast::<u8>(), v.as_slice());
    }

    /// Get a byte view of an array of `count` elements of type `T`,
    /// bounds-checked against `count` times the element size.
    pub fn ptr_at<T: SafeRead, const MUT: bool>(&self, ptr: Ptr<T, MUT>, count: GuestUSize) -> (r: &[u8])
        requires
            self.wf(),
            count * T::guest_size() <= u32::MAX,
            access_ok(self.bytes@, ptr.addr(), count * T::guest_size()),
        ensures
            r@ == self.bytes@.subrange(ptr.addr() as int, ptr.addr() + count * T::guest_size()),
    {
        let size = count * T::size();
        self.bytes_at(ptr.cast::<u8>(), size)
    }

    /// Allocate `size` bytes. The result is never null; callers must make
    /// sure beforehand (see [Self::can_fit]) that space exists, since
    /// running out of guest memory is not recoverable.
    pub fn allocate(&mut self, size: GuestUSize) -> (ptr: MutVoidPtr)
        requires
            old(self).wf(),
            size > 0,
            old(self).allocator.can_alloc(size),
        ensures
            final(self).wf(),
            final(self).bytes@ == old(self).bytes@,
            allocator::spec_alloc(old(self).allocator@, size) == Some((final(self).allocator@, ptr.addr())),
            access_ok(final(self).bytes@, ptr.addr(), size as int),
            ptr.addr() != 0,
    {
        proof {
            allocator::lemma_spec_alloc_properties(self.allocator@, size);
            allocator::lemma_spec_alloc_bounded(self.allocator@, size, self.bytes@.len() as int);
        }
        let base = self.allocator.allocate(size);
        Ptr(base, core::marker::PhantomData)
    }

    /// Free an allocation made with one of the `alloc` methods on this
    /// type, zeroing its bytes so stale data cannot leak into a future
    /// allocation. Freeing anything that is not a live allocation base is
    /// a fatal allocator fault, which the contract excludes.
    pub fn free(&mut self, ptr: MutVoidPtr)
        requires
            old(self).wf(),
            old(self).allocator.is_live_base(ptr.addr()),
        ensures
            final(self).wf(),
            ({
                let (a2, size) = allocator::spec_free(old(self).allocator@, ptr.addr())->Some_0;
                &&& allocator::spec_free(old(self).allocator@, ptr.addr()) is Some
                &&& final(self).allocator@ == a2
                &&& range_updated(old(self).bytes@, final(self).bytes@, ptr.addr() as int,
                    Seq::new(size as nat, |i: int| 0u8))
            }),
    {
        proof {
            allocator::lemma_spec_free_properties(self.allocator@, ptr.addr());
            allocator::lemma_spec_free_bounded(self.allocator@, ptr.addr(), self.bytes@.len() as int);
        }
        let ghost b0 = self.bytes@;
        let base = ptr.to_bits() as usize;
        let size = self.allocator.free(ptr.to_bits());
        let ghost a2 = self.allocator@;
        let n = size as usize;
        let total = self.bytes.len();
        let mut k: usize = 0;
        while k < n
            invariant
                0 <= k <= n,
                base + n <= b0.len(),
                total == b0.len(),
                self.bytes@.len() == b0.len(),
                self.allocator@ == a2,
                self.allocator.wf(),
                allocator::chunks_bounded(a2.free, b0.len() as int),
                allocator::chunks_bounded(a2.used, b0.len() as int),
                forall|i: int| 0 <= i < k ==> #[trigger] self.bytes@[base + i] == 0,
                forall|i: int| 0 <= i < b0.len() && !(base <= i < base + k) ==> #[trigger] self.bytes@[i] == b0[i],
            decreases n - k,
        {
            self.bytes.set(base + k, 0);
            k += 1;
        }
        proof {
            assert(range_updated(b0, self.bytes@, base as int, Seq::new(size as nat, |i: int| 0u8)));
        }
    }

    /// Allocate memory large enough for a value of type `T` and write the
    /// value to it. Equivalent to allocation followed by [Self::write].
    pub fn alloc_and_write<T: SafeWrite>(&mut self, value: T) -> (ptr: MutPtr<T>)
        requires
            old(self).wf(),
            old(self).allocator.can_alloc(T::guest_size()),
        ensures
            final(self).wf(),
            ({
                let (a2, base) = allocator::spec_alloc(old(self).allocator@, T::guest_size())->Some_0;
                &&& allocator::spec_alloc(old(self).allocator@, T::guest_size()) is Some
                &&& final(self).allocator@ == a2
                &&& ptr.addr() == base
                &&& access_ok(final(self).bytes@, base, T::guest_size() as int)
                &&& range_updated(old(self).bytes@, final(self).bytes@, base as int, value.to_bytes())
            }),
    {
        proof {
            value.size_properties();
        }
        let size = guest_size_of::<T>();
        let ptr = self.allocate(size).cast::<T>();
        self.write(ptr, value);
        ptr
    }

    /// Allocate and write a C string, adding the nul terminator.
    pub fn alloc_and_write_cstr(&mut self, str_bytes: &[u8]) -> (ptr: MutPtr<u8>)
        requires
            old(self).wf(),
            str_bytes@.len() < u32::MAX,
            old(self).allocator.can_alloc((str_bytes@.len() + 1) as u32),
        ensures
            final(self).wf(),
            ({
                let size = (str_bytes@.len() + 1) as u32;
                let (a2, base) = allocator::spec_alloc(old(self).allocator@, size)->Some_0;
                &&& allocator::spec_alloc(old(self).allocator@, size) is Some
                &&& final(self).allocator@ == a2
                &&& ptr.addr() == base
                &&& range_updated(old(self).bytes@, final(self).bytes@, base as int, str_bytes@.push(0))
                &&& is_cstr_at(final(self).bytes@, base as int, str_bytes@.len() as int) || !(forall|j: int|
                    0 <= j < str_bytes@.len() ==> str_bytes@[j] != 0)
            }),
    {
        let len = str_bytes.len() as u32;
        let ptr: MutPtr<u8> = self.allocate(len + 1).cast::<u8>();
        let ghost mid = self.bytes@;
        self.write_bytes(ptr, str_bytes);
        let ghost after_copy = self.bytes@;
        let p2 = ptr.add(len);
        self.write::<u8>(p2, 0);
        proof {
            let base = ptr.addr() as int;
            let data = str_bytes@.push(0);
            assert(p2.addr() == base + len);
            assert(self.bytes@[p2.addr() as int + 0] == 0u8.to_bytes()[0]);
            assert(self.bytes@[base + len] == 0);
            assert forall|i: int| 0 <= i < data.len() implies self.bytes@[base + i] == data[i] by {
                if i < str_bytes@.len() {
                    assert(after_copy[base + i] == str_bytes@[i]);
                    assert(self.bytes@[base + i] == after_copy[base + i]);
                }
            }
            assert forall|i: int| 0 <= i < mid.len() && !(base <= i < base + data.len())
                implies #[trigger] self.bytes@[i] == mid[i] by {
                assert(after_copy[i] == mid[i]);
                assert(self.bytes@[i] == after_copy[i]);
            }
        }
        ptr
    }

    /// Get a C string (nul-terminated) as a slice, not including the
    /// terminator. The scan is unbounded: a string without a terminator
    /// before the end of the address space is a fatal bounds fault, which
    /// the contract excludes.
    pub fn cstr_at<const MUT: bool>(&self, ptr: Ptr<u8, MUT>) -> (r: &[u8])
        requires
            self.wf(),
            ptr.addr() >= NULL_PAGE_SIZE,
            exists|l: int| is_cstr_at(self.bytes@, ptr.addr() as int, l),
        ensures
            is_cstr_at(self.bytes@, ptr.addr() as int, r@.len() as int),
            r@ == self.bytes@.subrange(ptr.addr() as int, ptr.addr() + r@.len()),
    {
        let ghost b = self.bytes@;
        let ghost addr = ptr.addr() as int;
        let ghost l0 = choose|l: int| is_cstr_at(b, addr, l);
        let mut len: GuestUSize = 0;
        loop
            invariant
                self.wf(),
                self.bytes@ == b,
                addr == ptr.addr(),
                addr >= NULL_PAGE_SIZE,
                is_cstr_at(b, addr, l0),
                0 <= len <= l0,
                forall|j: int| 0 <= j < len ==> #[trigger] b[addr + j] != 0,
            ensures
                len == l0,
            decreases l0 - len,
        {
            let byte: u8 = self.read(ptr.add(len));
            if byte == 0 {
                proof {
                    if len < l0 {
                        assert(b[addr + len] != 0);
                    }
                }
                break;
            }
            proof {
                if len == l0 {
                    assert(b[addr + l0] == 0);
                }
            }
            len += 1;
        }
        self.bytes_at(ptr, len)
    }

    /// Get a C string (nul-terminated) as a string slice. A string that is
    /// not UTF-8 is a fatal fault, which the contract excludes.
    pub fn cstr_at_utf8<const MUT: bool>(&self, ptr: Ptr<u8, MUT>) -> (r: &str)
        requires
            self.wf(),
            ptr.addr() >= NULL_PAGE_SIZE,
            exists|l: int| is_cstr_at(self.bytes@, ptr.addr() as int, l)
                && vstd::utf8::valid_utf8(self.bytes@.subrange(ptr.addr() as int, ptr.addr() + l)),
        ensures
            is_cstr_at(self.bytes@, ptr.addr() as int, r.spec_bytes().len() as int),
            r.spec_bytes() == self.bytes@.subrange(ptr.addr() as int, ptr.addr() + r.spec_bytes().len()),
    {
        proof {
            let l = choose|l: int| is_cstr_at(self.bytes@, ptr.addr() as int, l)
                && vstd::utf8::valid_utf8(self.bytes@.subrange(ptr.addr() as int, ptr.addr() + l));
            assert(is_cstr_at(self.bytes@, ptr.addr() as int, l));
        }
        let bytes = self.cstr_at(ptr);
        proof {
            let addr = ptr.addr() as int;
            let l = choose|l: int| is_cstr_at(self.bytes@, addr, l)
                && vstd::utf8::valid_utf8(self.bytes@.subrange(addr, addr + l));
            lemma_cstr_len_unique(self.bytes@, addr, l, bytes@.len() as int);
            assert(vstd::utf8::valid_utf8(bytes@));
        }
        match utf8_from(bytes) {
            Some(s) => s,
            None => {
                proof {
                    assert(false);
                }
                ""
            },
        }
    }

    /// Permanently mark a region of address space as unusable to the
    /// memory allocator. The region must still be wholly free, and must be
    /// reserved before it is ever touched by allocation.
    pub fn reserve(&mut self, base: VAddr, size: GuestUSize)
        requires
            old(self).wf(),
            size > 0,
            allocator::find_containing(old(self).allocator@.free, allocator::Chunk { base, size }) is Some,
        ensures
            final(self).wf(),
            final(self).bytes@ == old(self).bytes@,
            allocator::spec_reserve(old(self).allocator@, allocator::Chunk { base, size })
                == Some(final(self).allocator@),
    {
        proof {
            allocator::lemma_spec_reserve_properties(self.allocator@, allocator::Chunk { base, size });
            allocator::lemma_spec_reserve_bounded(
                self.allocator@,
                allocator::Chunk { base, size },
                self.bytes@.len() as int,
            );
        }
        let chunk = allocator::Chunk::new(base, size);
        self.allocator.reserve(chunk);
    }
}

/// The 32-bit word stored little-endian at address `a`.
pub open spec fn word_at(b: Seq<u8>, a: int) -> u32 {
    vstd::bytes::spec_u32_from_le_bytes(b.subrange(a, a + 4))
}

/// `b` with the 32-bit word at address `a` replaced by `v`, stored
/// little-endian, and every other byte unchanged.
pub open spec fn spec_write_word(b: Seq<u8>, a: int, v: u32) -> Seq<u8> {
    Seq::new(b.len(), |i: int| if a <= i < a + 4 {
        vstd::bytes::spec_u32_to_le_bytes(v)[i - a]
    } else {
        b[i]
    })
}

/// What [Mem::write] of a `u32` does, said as [spec_write_word].
pub proof fn lemma_write_u32_is_write_word(old_b: Seq<u8>, new_b: Seq<u8>, a: int, v: u32)
    requires
        0 <= a,
        a + 4 <= old_b.len(),
        range_updated(old_b, new_b, a, vstd::bytes::spec_u32_to_le_bytes(v)),
    ensures
        new_b == spec_write_word(old_b, a, v),
{
    vstd::bytes::lemma_auto_spec_u32_to_from_le_bytes();
    assert(vstd::bytes::spec_u32_to_le_bytes(v).len() == 4);
    assert forall|i: int| 0 <= i < new_b.len() implies new_b[i] == spec_write_word(old_b, a, v)[i] by {
        if a <= i < a + 4 {
            assert(new_b[a + (i - a)] == vstd::bytes::spec_u32_to_le_bytes(v)[i - a]);
        }
    }
    assert(new_b =~= spec_write_word(old_b, a, v));
}

/// Writing a word puts that word at its address and moves no other byte.
pub proof fn lemma_write_word_properties(b: Seq<u8>, a: int, v: u32)
    requires
        0 <= a,
        a + 4 <= b.len(),
    ensures
        spec_write_word(b, a, v).len() == b.len(),
        word_at(spec_write_word(b, a, v), a) == v,
        forall|i: int| 0 <= i < b.len() && !(a <= i < a + 4) ==> #[trigger] spec_write_word(b, a, v)[i] == b[i],
{
    vstd::bytes::lemma_auto_spec_u32_to_from_le_bytes();
    assert(vstd::bytes::spec_u32_to_le_bytes(v).len() == 4);
    assert(spec_write_word(b, a, v).subrange(a, a + 4) =~= vstd::bytes::spec_u32_to_le_bytes(v));
}

/// A word whose bytes a write did not touch reads back unchanged.
pub proof fn lemma_word_at_untouched(b: Seq<u8>, wa: int, v: u32, a: int)
    requires
        0 <= a,
        a + 4 <= b.len(),
        a + 4 <= wa || wa + 4 <= a,
    ensures
        word_at(spec_write_word(b, wa, v), a) == word_at(b, a),
{
    assert(spec_write_word(b, wa, v).subrange(a, a + 4) =~= b.subrange(a, a + 4));
}

/// Any access at an address below the null page is rejected, for every
/// access size: null-pointer dereferences cannot touch guest memory.
pub proof fn lemma_null_page_guard(b: Seq<u8>, addr: u32, size: int)
    requires
        addr < NULL_PAGE_SIZE,
    ensures
        !access_ok(b, addr, size),
{
}

/// For every plain-data type and every valid address, writing a value and
/// reading it back gives a bit-identical value, whatever the address's
/// alignment: the hypotheses are exactly what [Mem::write] ensures, and
/// the conclusion is exactly what [Mem::read] then returns.
pub proof fn lemma_write_then_read<T: SafeRead>(m0: Mem, m1: Mem, addr: u32, value: T)
    requires
        access_ok(m0.bytes@, addr, T::guest_size() as int),
        range_updated(m0.bytes@, m1.bytes@, addr as int, value.to_bytes()),
    ensures
        T::from_bytes(m1.bytes@.subrange(addr as int, addr + T::guest_size())) == value,
{
    value.size_properties();
    let data = value.to_bytes();
    assert forall|i: int| 0 <= i < data.len() implies m1.bytes@.subrange(
        addr as int,
        addr + T::guest_size(),
    )[i] == data[i] by {
        assert(m1.bytes@[addr as int + i] == data[i]);
    }
    assert(m1.bytes@.subrange(addr as int, addr + T::guest_size()) =~= data);
    value.bytes_roundtrip();
}

/// A C string has exactly one length at a given address: the distance to
/// the first nul byte.
pub proof fn lemma_cstr_len_unique(b: Seq<u8>, a: int, l1: int, l2: int)
    requires
        is_cstr_at(b, a, l1),
        is_cstr_at(b, a, l2),
    ensures
        l1 == l2,
{
    if l1 < l2 {
        assert(b[a + l1] != 0);
    }
    if l2 < l1 {
        assert(b[a + l2] != 0);
    }
}

/// Relies on core::str::from_utf8: it returns `Ok` exactly on well-formed
/// UTF-8 input, and the resulting string slice views the same bytes.
#[verifier::external_body]
fn utf8_from(bytes: &[u8]) -> (r: Option<&str>)
    ensures
        r is Some <==> vstd::utf8::valid_utf8(bytes@),
        r is Some ==> r->Some_0.spec_bytes() == bytes@,
{
    core::str::from_utf8(bytes).ok()
}

/// Internal name for an untyped virtual address.
pub type VAddr = GuestUSize;

} // verus!
