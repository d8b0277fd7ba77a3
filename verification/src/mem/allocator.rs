//! The memory allocator used by guest memory: a first-fit chunk allocator
//! working purely on integer offsets within the guest address space.
//!
//! Live chunks never overlap, and ranges handed to [Allocator::reserve] are
//! permanently excluded from allocation.

use vstd::prelude::*;

verus! {

use crate::mem::{GuestUSize, NULL_PAGE_SIZE};

/// One span of guest address space: a base offset and a byte count.
#[derive(Clone, Copy, PartialEq, Eq, Structural)]
pub struct Chunk {
    pub base: u32,
    pub size: u32,
}

/// Total number of addressable bytes: the whole 32-bit address space.
pub const ADDRESS_SPACE_END: u64 = 0x1_0000_0000;

impl Chunk {
    pub fn new(base: u32, size: u32) -> (c: Chunk)
        ensures
            c.base == base,
            c.size == size,
    {
        Chunk { base, size }
    }

    /// A chunk the allocator may track: non-empty, above the null page,
    /// within the 32-bit address space.
    pub open spec fn wf(self) -> bool {
        &&& self.base >= NULL_PAGE_SIZE
        &&& self.size > 0
        &&& self.base + self.size <= ADDRESS_SPACE_END
    }

    pub open spec fn end(self) -> int {
        self.base + self.size
    }
}

/// Two chunks cover no common byte.
pub open spec fn disjoint(a: Chunk, b: Chunk) -> bool {
    a.end() <= b.base || b.end() <= a.base
}

pub open spec fn all_wf(cs: Seq<Chunk>) -> bool {
    forall|i: int| 0 <= i < cs.len() ==> (#[trigger] cs[i]).wf()
}

pub open spec fn pairwise_disjoint(cs: Seq<Chunk>) -> bool {
    forall|i: int, j: int|
        0 <= i < cs.len() && 0 <= j < cs.len() && i != j ==> disjoint(#[trigger] cs[i], #[trigger] cs[j])
}

pub open spec fn each_disjoint_from(cs: Seq<Chunk>, ds: Seq<Chunk>) -> bool {
    forall|i: int, j: int|
        0 <= i < cs.len() && 0 <= j < ds.len() ==> disjoint(#[trigger] cs[i], #[trigger] ds[j])
}

/// The allocator's abstract state: the free list, the live allocations,
/// and the ranges permanently reserved away.
pub ghost struct AllocModel {
    pub free: Seq<Chunk>,
    pub used: Seq<Chunk>,
    pub reserved: Seq<Chunk>,
}

pub open spec fn model_wf(m: AllocModel) -> bool {
    &&& all_wf(m.free)
    &&& all_wf(m.used)
    &&& all_wf(m.reserved)
    &&& pairwise_disjoint(m.free)
    &&& pairwise_disjoint(m.used)
    &&& each_disjoint_from(m.free, m.used)
    &&& each_disjoint_from(m.free, m.reserved)
    &&& each_disjoint_from(m.used, m.reserved)
}

/// Index of the first free chunk that can hold `size` bytes.
pub open spec fn find_fit(free: Seq<Chunk>, size: u32) -> Option<int>
    decreases free.len(),
{
    if free.len() == 0 {
        None
    } else if free[0].size >= size {
        Some(0)
    } else {
        match find_fit(free.drop_first(), size) {
            Some(i) => Some(i + 1),
            None => None,
        }
    }
}

/// Index of the first free chunk wholly containing `c`.
pub open spec fn find_containing(free: Seq<Chunk>, c: Chunk) -> Option<int>
    decreases free.len(),
{
    if free.len() == 0 {
        None
    } else if free[0].base <= c.base && c.end() <= free[0].end() {
        Some(0)
    } else {
        match find_containing(free.drop_first(), c) {
            Some(i) => Some(i + 1),
            None => None,
        }
    }
}

/// What `alloc` does: carve `size` bytes out of the front of the first
/// fitting free chunk and record them as used. `None` means exhaustion.
pub open spec fn spec_alloc(m: AllocModel, size: u32) -> Option<(AllocModel, u32)> {
    match find_fit(m.free, size) {
        None => None,
        Some(i) => {
            let c = m.free[i];
            let taken = Chunk { base: c.base, size };
            let new_free = if c.size == size {
                m.free.remove(i)
            } else {
                m.free.update(i, Chunk { base: (c.base + size) as u32, size: (c.size - size) as u32 })
            };
            Some((AllocModel { free: new_free, used: m.used.push(taken), reserved: m.reserved }, c.base))
        },
    }
}

/// Index of the live allocation starting exactly at `base`.
pub open spec fn find_used(used: Seq<Chunk>, base: u32) -> Option<int>
    decreases used.len(),
{
    if used.len() == 0 {
        None
    } else if used[0].base == base {
        Some(0)
    } else {
        match find_used(used.drop_first(), base) {
            Some(i) => Some(i + 1),
            None => None,
        }
    }
}

/// What `free` does: move the allocation starting at `base` back to the
/// front of the free list, reporting its size. `None` means `base` is not
/// a live allocation base, which is a fatal allocator fault.
pub open spec fn spec_free(m: AllocModel, base: u32) -> Option<(AllocModel, u32)> {
    match find_used(m.used, base) {
        None => None,
        Some(i) => {
            let c = m.used[i];
            Some((AllocModel { free: m.free.insert(0, c), used: m.used.remove(i), reserved: m.reserved }, c.size))
        },
    }
}

/// What `reserve` does: split the chunk `c` out of the free chunk wholly
/// containing it and record it as reserved forever. `None` means no free
/// chunk contains the range.
pub open spec fn spec_reserve(m: AllocModel, c: Chunk) -> Option<AllocModel> {
    match find_containing(m.free, c) {
        None => None,
        Some(i) => {
            let f = m.free[i];
            let with_left = if f.base < c.base {
                m.free.remove(i).insert(0, Chunk { base: f.base, size: (c.base - f.base) as u32 })
            } else {
                m.free.remove(i)
            };
            let with_right = if c.end() < f.end() {
                with_left.insert(0, Chunk { base: (c.base + c.size) as u32, size: (f.end() - c.end()) as u32 })
            } else {
                with_left
            };
            Some(AllocModel { free: with_right, used: m.used, reserved: m.reserved.push(c) })
        },
    }
}

/// The chunk/free-list allocator. It tracks free and live chunks as plain
/// vectors; the reserved ranges are ghost, since nothing ever reads them
/// back at run time.
pub struct Allocator {
    pub free_chunks: Vec<Chunk>,
    pub used_chunks: Vec<Chunk>,
    pub reserved: Ghost<Seq<Chunk>>,
}

impl View for Allocator {
    type V = AllocModel;

    open spec fn view(&self) -> AllocModel {
        AllocModel { free: self.free_chunks@, used: self.used_chunks@, reserved: self.reserved@ }
    }
}

impl Allocator {
    pub open spec fn wf(self) -> bool {
        model_wf(self@)
    }

    /// Whether an `alloc` of `size` bytes can currently be satisfied.
    pub open spec fn can_alloc(self, size: u32) -> bool {
        find_fit(self@.free, size) is Some
    }

    /// Whether `base` is the base of a live allocation.
    pub open spec fn is_live_base(self, base: u32) -> bool {
        find_used(self@.used, base) is Some
    }

    /// A fresh allocator over the address range up to `top`: everything
    /// between the null page and `top` is one free chunk.
    pub fn new(top: u64) -> (a: Allocator)
        requires
            NULL_PAGE_SIZE < top <= ADDRESS_SPACE_END,
        ensures
            a.wf(),
            a@.free =~= seq![Chunk { base: NULL_PAGE_SIZE, size: (top - NULL_PAGE_SIZE) as u32 }],
            a@.used =~= Seq::<Chunk>::empty(),
            a@.reserved =~= Seq::<Chunk>::empty(),
            chunks_bounded(a@.free, top as int),
            chunks_bounded(a@.used, top as int),
    {
        let mut free_chunks: Vec<Chunk> = Vec::new();
        free_chunks.push(Chunk { base: NULL_PAGE_SIZE, size: (top - NULL_PAGE_SIZE as u64) as u32 });
        Allocator { free_chunks, used_chunks: Vec::new(), reserved: Ghost(Seq::empty()) }
    }

    /// Report whether an `alloc` of `size` bytes would succeed.
    pub fn can_fit(&self, size: GuestUSize) -> (b: bool)
        ensures
            b == self.can_alloc(size),
    {
        let n = self.free_chunks.len();
        let mut k: usize = 0;
        while k < n
            invariant
                n == self.free_chunks@.len(),
                0 <= k <= n,
                forall|j: int| 0 <= j < k ==> self.free_chunks@[j].size < size,
            decreases n - k,
        {
            if self.free_chunks[k].size >= size {
                proof {
                    lemma_find_fit_characterization(self@.free, size);
                }
                return true;
            }
            k += 1;
        }
        proof {
            lemma_find_fit_characterization(self@.free, size);
        }
        false
    }

    /// Report whether `base` is the base of a live allocation, i.e. whether
    /// `free(base)` would be legal.
    pub fn is_live(&self, base: u32) -> (b: bool)
        ensures
            b == self.is_live_base(base),
    {
        let n = self.used_chunks.len();
        let mut k: usize = 0;
        while k < n
            invariant
                n == self.used_chunks@.len(),
                0 <= k <= n,
                forall|j: int| 0 <= j < k ==> self.used_chunks@[j].base != base,
            decreases n - k,
        {
            if self.used_chunks[k].base == base {
                proof {
                    lemma_find_used_characterization(self@.used, base);
                }
                return true;
            }
            k += 1;
        }
        proof {
            lemma_find_used_characterization(self@.used, base);
        }
        false
    }

    /// Allocate `size` bytes, first-fit. The allocator either succeeds or
    /// the caller must not have called it (check [Self::can_fit] first).
    pub fn allocate(&mut self, size: GuestUSize) -> (base: u32)
        requires
            old(self).wf(),
            size > 0,
            old(self).can_alloc(size),
        ensures
            final(self).wf(),
            spec_alloc(old(self)@, size) == Some((final(self)@, base)),
    {
        let ghost m = old(self)@;
        proof {
            lemma_find_fit_characterization(m.free, size);
        }
        let n = self.free_chunks.len();
        let mut k: usize = 0;
        while k < n
            invariant
                m == old(self)@,
                self@ == m,
                model_wf(m),
                size > 0,
                find_fit(m.free, size) is Some,
                n == m.free.len(),
                0 <= k <= n,
                forall|j: int| 0 <= j < k ==> (#[trigger] m.free[j]).size < size,
            decreases n - k,
        {
            let c = self.free_chunks[k];
            if c.size >= size {
                proof {
                    lemma_find_fit_characterization(m.free, size);
                    let i = find_fit(m.free, size)->Some_0;
                    if i < k {
                        assert(m.free[i].size < size);
                    }
                    if k < i {
                        assert(m.free[k as int].size < size);
                    }
                    assert(i == k);
                    assert(all_wf(m.free) && m.free[k as int].wf());
                }
                if c.size == size {
                    self.free_chunks.remove(k);
                } else {
                    self.free_chunks.set(k, Chunk { base: c.base + size, size: c.size - size });
                }
                self.used_chunks.push(Chunk { base: c.base, size });
                proof {
                    lemma_spec_alloc_properties(m, size);
                }
                return c.base;
            }
            k += 1;
        }
        proof {
            lemma_find_fit_characterization(m.free, size);
            assert(false);
        }
        0
    }

    /// Free the live allocation starting at `base`, reporting its size.
    /// Calling this with anything that is not a live allocation base is an
    /// allocator fault, which the contract rules out.
    pub fn free(&mut self, base: u32) -> (size: u32)
        requires
            old(self).wf(),
            old(self).is_live_base(base),
        ensures
            final(self).wf(),
            spec_free(old(self)@, base) == Some((final(self)@, size)),
    {
        let ghost m = old(self)@;
        proof {
            lemma_find_used_characterization(m.used, base);
        }
        let n = self.used_chunks.len();
        let mut k: usize = 0;
        while k < n
            invariant
                m == old(self)@,
                self@ == m,
                model_wf(m),
                find_used(m.used, base) is Some,
                n == m.used.len(),
                0 <= k <= n,
                forall|j: int| 0 <= j < k ==> (#[trigger] m.used[j]).base != base,
            decreases n - k,
        {
            let c = self.used_chunks[k];
            if c.base == base {
                proof {
                    lemma_find_used_characterization(m.used, base);
                    let i = find_used(m.used, base)->Some_0;
                    if i < k {
                        assert(m.used[i].base != base);
                    }
                    if k < i {
                        assert(m.used[k as int].base != base);
                    }
                    assert(i == k);
                }
                self.used_chunks.remove(k);
                self.free_chunks.insert(0, c);
                proof {
                    lemma_spec_free_properties(m, base);
                }
                return c.size;
            }
            k += 1;
        }
        proof {
            lemma_find_used_characterization(m.used, base);
            assert(false);
        }
        0
    }

    /// Permanently exclude the chunk `c` from future allocation. The range
    /// must still be wholly free; reserving must happen before the range is
    /// ever touched by `alloc`.
    pub fn reserve(&mut self, c: Chunk)
        requires
            old(self).wf(),
            c.size > 0,
            find_containing(old(self)@.free, c) is Some,
        ensures
            final(self).wf(),
            spec_reserve(old(self)@, c) == Some(final(self)@),
    {
        let ghost m = old(self)@;
        proof {
            lemma_find_containing_characterization(m.free, c);
        }
        let n = self.free_chunks.len();
        let mut k: usize = 0;
        while k < n
            invariant
                m == old(self)@,
                self@ == m,
                model_wf(m),
                c.size > 0,
                find_containing(m.free, c) is Some,
                n == m.free.len(),
                0 <= k <= n,
                forall|j: int| 0 <= j < k ==> !chunk_contains(#[trigger] m.free[j], c),
            decreases n - k,
        {
            let f = self.free_chunks[k];
            let c_end: u64 = (c.base as u64) + (c.size as u64);
            let f_end: u64 = (f.base as u64) + (f.size as u64);
            if f.base <= c.base && c_end <= f_end {
                proof {
                    assert(chunk_contains(f, c));
                    lemma_find_containing_characterization(m.free, c);
                    let i = find_containing(m.free, c)->Some_0;
                    if i < k {
                        assert(!chunk_contains(m.free[i], c));
                    }
                    if k < i {
                        assert(!chunk_contains(m.free[k as int], c));
                    }
                    assert(i == k);
                    assert(all_wf(m.free) && m.free[k as int].wf());
                }
                self.free_chunks.remove(k);
                if f.base < c.base {
                    self.free_chunks.insert(0, Chunk { base: f.base, size: c.base - f.base });
                }
                if c_end < f_end {
                    self.free_chunks.insert(0, Chunk { base: c.base + c.size, size: (f_end - c_end) as u32 });
                }
                self.reserved = Ghost(m.reserved.push(c));
                proof {
                    lemma_spec_reserve_properties(m, c);
                    assert(self@.free =~= spec_reserve(m, c)->Some_0.free);
                }
                return;
            }
            k += 1;
        }
        proof {
            lemma_find_containing_characterization(m.free, c);
            assert(false);
        }
    }
}

/// Whether chunk `outer` wholly contains chunk `inner`.
pub open spec fn chunk_contains(outer: Chunk, inner: Chunk) -> bool {
    outer.base <= inner.base && inner.end() <= outer.end()
}

pub proof fn lemma_find_fit_characterization(s: Seq<Chunk>, size: u32)
    ensures
        match find_fit(s, size) {
            Some(i) => {
                &&& 0 <= i < s.len()
                &&& s[i].size >= size
                &&& forall|j: int| 0 <= j < i ==> s[j].size < size
            },
            None => forall|j: int| 0 <= j < s.len() ==> s[j].size < size,
        },
    decreases s.len(),
{
    if s.len() > 0 && s[0].size < size {
        let t = s.drop_first();
        lemma_find_fit_characterization(t, size);
        assert forall|j: int| 0 <= j < t.len() implies #[trigger] t[j] == s[j + 1] by {}
        match find_fit(t, size) {
            Some(i) => {
                assert forall|j: int| 0 <= j < i + 1 implies s[j].size < size by {
                    if j > 0 {
                        assert(t[j - 1].size < size);
                    }
                }
            },
            None => {
                assert forall|j: int| 0 <= j < s.len() implies s[j].size < size by {
                    if j > 0 {
                        assert(t[j - 1].size < size);
                    }
                }
            },
        }
    }
}

pub proof fn lemma_find_used_characterization(s: Seq<Chunk>, base: u32)
    ensures
        match find_used(s, base) {
            Some(i) => {
                &&& 0 <= i < s.len()
                &&& s[i].base == base
                &&& forall|j: int| 0 <= j < i ==> s[j].base != base
            },
            None => forall|j: int| 0 <= j < s.len() ==> s[j].base != base,
        },
    decreases s.len(),
{
    if s.len() > 0 && s[0].base != base {
        let t = s.drop_first();
        lemma_find_used_characterization(t, base);
        assert forall|j: int| 0 <= j < t.len() implies #[trigger] t[j] == s[j + 1] by {}
        match find_used(t, base) {
            Some(i) => {
                assert forall|j: int| 0 <= j < i + 1 implies s[j].base != base by {
                    if j > 0 {
                        assert(t[j - 1].base != base);
                    }
                }
            },
            None => {
                assert forall|j: int| 0 <= j < s.len() implies s[j].base != base by {
                    if j > 0 {
                        assert(t[j - 1].base != base);
                    }
                }
            },
        }
    }
}

pub proof fn lemma_find_containing_characterization(s: Seq<Chunk>, c: Chunk)
    ensures
        match find_containing(s, c) {
            Some(i) => {
                &&& 0 <= i < s.len()
                &&& chunk_contains(s[i], c)
                &&& forall|j: int| 0 <= j < i ==> !chunk_contains(#[trigger] s[j], c)
            },
            None => forall|j: int| 0 <= j < s.len() ==> !chunk_contains(#[trigger] s[j], c),
        },
    decreases s.len(),
{
    if s.len() > 0 && !chunk_contains(s[0], c) {
        let t = s.drop_first();
        lemma_find_containing_characterization(t, c);
        assert forall|j: int| 0 <= j < t.len() implies #[trigger] t[j] == s[j + 1] by {}
        match find_containing(t, c) {
            Some(i) => {
                assert forall|j: int| 0 <= j < i + 1 implies !chunk_contains(#[trigger] s[j], c) by {
                    if j > 0 {
                        assert(!chunk_contains(t[j - 1], c));
                    }
                }
            },
            None => {
                assert forall|j: int| 0 <= j < s.len() implies !chunk_contains(#[trigger] s[j], c) by {
                    if j > 0 {
                        assert(!chunk_contains(t[j - 1], c));
                    }
                }
            },
        }
    }
}

/// Every chunk ends at or before `len`: the allocator never tracks space
/// beyond the backing range.
pub open spec fn chunks_bounded(cs: Seq<Chunk>, len: int) -> bool {
    forall|i: int| 0 <= i < cs.len() ==> (#[trigger] cs[i]).end() <= len
}

/// Allocation keeps every chunk within the backing range: the new
/// allocation is carved out of a free chunk that was already within it.
pub proof fn lemma_spec_alloc_bounded(m: AllocModel, size: u32, len: int)
    requires
        model_wf(m),
        size > 0,
        spec_alloc(m, size) is Some,
        chunks_bounded(m.free, len),
        chunks_bounded(m.used, len),
    ensures
        ({
            let (m2, base) = spec_alloc(m, size)->Some_0;
            &&& chunks_bounded(m2.free, len)
            &&& chunks_bounded(m2.used, len)
            &&& base + size <= len
        }),
{
    lemma_find_fit_characterization(m.free, size);
    let i = find_fit(m.free, size)->Some_0;
    let c = m.free[i];
    let (m2, base) = spec_alloc(m, size)->Some_0;
    assert(c.end() <= len);
    assert forall|a: int| 0 <= a < m2.free.len() implies (#[trigger] m2.free[a]).end() <= len by {
        if c.size == size {
            if a < i {
                assert(m2.free[a] == m.free[a]);
            } else {
                assert(m2.free[a] == m.free[a + 1]);
            }
        } else {
            if a != i {
                assert(m2.free[a] == m.free[a]);
            }
        }
    }
    assert forall|a: int| 0 <= a < m2.used.len() implies (#[trigger] m2.used[a]).end() <= len by {
        if a < m.used.len() {
            assert(m2.used[a] == m.used[a]);
        }
    }
}

/// Freeing keeps every chunk within the backing range.
pub proof fn lemma_spec_free_bounded(m: AllocModel, base: u32, len: int)
    requires
        model_wf(m),
        spec_free(m, base) is Some,
        chunks_bounded(m.free, len),
        chunks_bounded(m.used, len),
    ensures
        ({
            let (m2, size) = spec_free(m, base)->Some_0;
            &&& chunks_bounded(m2.free, len)
            &&& chunks_bounded(m2.used, len)
            &&& base + size <= len
        }),
{
    lemma_find_used_characterization(m.used, base);
    let j = find_used(m.used, base)->Some_0;
    let c = m.used[j];
    let (m2, size) = spec_free(m, base)->Some_0;
    m.free.insert_ensures(0, c);
    m.used.remove_ensures(j);
    assert forall|a: int| 0 <= a < m2.free.len() implies (#[trigger] m2.free[a]).end() <= len by {
        if a == 0 {
            assert(m2.free[0] == c);
        } else {
            assert(m2.free[a] == m.free[a - 1]);
        }
    }
    assert forall|a: int| 0 <= a < m2.used.len() implies (#[trigger] m2.used[a]).end() <= len by {
        if a < j {
            assert(m2.used[a] == m.used[a]);
        } else {
            assert(m2.used[a] == m.used[a + 1]);
        }
    }
}

/// Reserving keeps every chunk within the backing range: the split parts
/// lie inside the free chunk that contained the reserved range.
pub proof fn lemma_spec_reserve_bounded(m: AllocModel, c: Chunk, len: int)
    requires
        model_wf(m),
        c.size > 0,
        spec_reserve(m, c) is Some,
        chunks_bounded(m.free, len),
        chunks_bounded(m.used, len),
    ensures
        ({
            let m2 = spec_reserve(m, c)->Some_0;
            &&& chunks_bounded(m2.free, len)
            &&& chunks_bounded(m2.used, len)
        }),
{
    lemma_find_containing_characterization(m.free, c);
    let i = find_containing(m.free, c)->Some_0;
    let f = m.free[i];
    let m2 = spec_reserve(m, c)->Some_0;
    let removed = m.free.remove(i);
    m.free.remove_ensures(i);
    let has_left = f.base < c.base;
    let has_right = c.end() < f.end();
    let left = Chunk { base: f.base, size: (c.base - f.base) as u32 };
    let right = Chunk { base: (c.base + c.size) as u32, size: (f.end() - c.end()) as u32 };
    let with_left = if has_left {
        removed.insert(0, left)
    } else {
        removed
    };
    if has_left {
        removed.insert_ensures(0, left);
    }
    if has_right {
        with_left.insert_ensures(0, right);
    }
    assert(f.end() <= len);
    assert forall|a: int| 0 <= a < removed.len() implies (#[trigger] removed[a]).end() <= len by {
        if a < i {
            assert(removed[a] == m.free[a]);
        } else {
            assert(removed[a] == m.free[a + 1]);
        }
    }
    assert forall|a: int| 0 <= a < m2.free.len() implies (#[trigger] m2.free[a]).end() <= len by {
        let n_split: int = (if has_left { 1int } else { 0int }) + (if has_right { 1int } else { 0int });
        if a >= n_split {
            if has_right && has_left {
                assert(m2.free[a] == with_left[a - 1]);
                assert(with_left[a - 1] == removed[a - 2]);
            } else if has_right {
                assert(m2.free[a] == with_left[a - 1]);
            } else if has_left {
                assert(m2.free[a] == removed[a - 1]);
            }
        } else {
            if has_right && a == 0 {
                assert(m2.free[0] == right);
            } else {
                assert(m2.free[a] == left) by {
                    if has_right {
                        assert(m2.free[1] == with_left[0]);
                    }
                }
            }
        }
    }
}

/// Index into the original sequence for position `a0` of the sequence with
/// index `i` removed.
pub open spec fn skip_index(a0: int, i: int) -> int {
    if a0 < i {
        a0
    } else {
        a0 + 1
    }
}

/// A chunk wholly inside `outer` covers no byte of anything `outer` is
/// disjoint from.
pub proof fn lemma_within_disjoint(inner: Chunk, outer: Chunk, other: Chunk)
    requires
        chunk_contains(outer, inner),
        disjoint(outer, other),
    ensures
        disjoint(inner, other),
{
}

/// Everything `alloc` guarantees: the allocator stays well-formed, the new
/// allocation is recorded, and it is disjoint from every live allocation
/// and every reserved range that existed before.
pub proof fn lemma_spec_alloc_properties(m: AllocModel, size: u32)
    requires
        model_wf(m),
        size > 0,
        spec_alloc(m, size) is Some,
    ensures
        ({
            let (m2, base) = spec_alloc(m, size)->Some_0;
            let taken = Chunk { base, size };
            &&& model_wf(m2)
            &&& taken.wf()
            &&& m2.used == m.used.push(taken)
            &&& m2.reserved == m.reserved
            &&& forall|j: int| 0 <= j < m.used.len() ==> disjoint(taken, #[trigger] m.used[j])
            &&& forall|j: int| 0 <= j < m.reserved.len() ==> disjoint(taken, #[trigger] m.reserved[j])
        }),
{
    lemma_find_fit_characterization(m.free, size);
    let i = find_fit(m.free, size)->Some_0;
    let c = m.free[i];
    let (m2, base) = spec_alloc(m, size)->Some_0;
    let taken = Chunk { base, size };
    let u2 = m2.used;
    assert(chunk_contains(c, taken));
    assert forall|j: int| 0 <= j < m.used.len() implies disjoint(taken, #[trigger] m.used[j]) by {
        lemma_within_disjoint(taken, c, m.used[j]);
    }
    assert forall|j: int| 0 <= j < m.reserved.len() implies disjoint(taken, #[trigger] m.reserved[j]) by {
        lemma_within_disjoint(taken, c, m.reserved[j]);
    }
    assert(all_wf(u2)) by {
        assert forall|b: int| 0 <= b < u2.len() implies (#[trigger] u2[b]).wf() by {
            if b < m.used.len() {
                assert(u2[b] == m.used[b]);
            } else {
                assert(u2[b] == taken);
            }
        }
    }
    assert(pairwise_disjoint(u2)) by {
        assert forall|a: int, b: int|
            0 <= a < u2.len() && 0 <= b < u2.len() && a != b implies disjoint(
            #[trigger] u2[a],
            #[trigger] u2[b],
        ) by {
            if a < m.used.len() && b < m.used.len() {
                assert(disjoint(m.used[a], m.used[b]));
            } else if a < m.used.len() {
                assert(u2[b] == taken && disjoint(taken, m.used[a]));
            } else {
                assert(u2[a] == taken && disjoint(taken, m.used[b]));
            }
        }
    }
    assert(each_disjoint_from(u2, m2.reserved)) by {
        assert forall|a: int, b: int|
            0 <= a < u2.len() && 0 <= b < m2.reserved.len() implies disjoint(
            #[trigger] u2[a],
            #[trigger] m2.reserved[b],
        ) by {
            if a < m.used.len() {
                assert(disjoint(m.used[a], m.reserved[b]));
            } else {
                assert(u2[a] == taken);
            }
        }
    }
    if c.size == size {
        let f2 = m.free.remove(i);
        m.free.remove_ensures(i);
        assert forall|a: int| 0 <= a < f2.len() implies #[trigger] f2[a] == m.free[skip_index(a, i)]
            && skip_index(a, i) != i && 0 <= skip_index(a, i) < m.free.len() by {
            if a < i {
                assert(f2[a] == m.free[a]);
            } else {
                assert(f2[a] == m.free[a + 1]);
            }
        }
        assert(all_wf(f2));
        assert(pairwise_disjoint(f2)) by {
            assert forall|a: int, b: int|
                0 <= a < f2.len() && 0 <= b < f2.len() && a != b implies disjoint(
                #[trigger] f2[a],
                #[trigger] f2[b],
            ) by {
                assert(disjoint(m.free[skip_index(a, i)], m.free[skip_index(b, i)]));
            }
        }
        assert(each_disjoint_from(f2, u2)) by {
            assert forall|a: int, b: int|
                0 <= a < f2.len() && 0 <= b < u2.len() implies disjoint(#[trigger] f2[a], #[trigger] u2[b]) by {
                if b < m.used.len() {
                    assert(disjoint(m.free[skip_index(a, i)], m.used[b]));
                } else {
                    assert(u2[b] == taken);
                    assert(disjoint(m.free[skip_index(a, i)], m.free[i]));
                    lemma_within_disjoint(taken, c, m.free[skip_index(a, i)]);
                }
            }
        }
        assert(each_disjoint_from(f2, m2.reserved)) by {
            assert forall|a: int, b: int|
                0 <= a < f2.len() && 0 <= b < m2.reserved.len() implies disjoint(
                #[trigger] f2[a],
                #[trigger] m2.reserved[b],
            ) by {
                assert(disjoint(m.free[skip_index(a, i)], m.reserved[b]));
            }
        }
    } else {
        let rest = Chunk { base: (c.base + size) as u32, size: (c.size - size) as u32 };
        let f2 = m.free.update(i, rest);
        assert(chunk_contains(c, rest));
        assert(disjoint(taken, rest));
        assert forall|a: int| 0 <= a < f2.len() && a != i implies #[trigger] f2[a] == m.free[a] by {}
        assert(all_wf(f2)) by {
            assert forall|a: int| 0 <= a < f2.len() implies (#[trigger] f2[a]).wf() by {}
        }
        assert(pairwise_disjoint(f2)) by {
            assert forall|a: int, b: int|
                0 <= a < f2.len() && 0 <= b < f2.len() && a != b implies disjoint(
                #[trigger] f2[a],
                #[trigger] f2[b],
            ) by {
                assert(disjoint(m.free[a], m.free[b]));
                if a == i {
                    lemma_within_disjoint(rest, c, m.free[b]);
                }
                if b == i {
                    lemma_within_disjoint(rest, c, m.free[a]);
                }
            }
        }
        assert(each_disjoint_from(f2, u2)) by {
            assert forall|a: int, b: int|
                0 <= a < f2.len() && 0 <= b < u2.len() implies disjoint(#[trigger] f2[a], #[trigger] u2[b]) by {
                if b < m.used.len() {
                    assert(disjoint(m.free[a], m.used[b]));
                    if a == i {
                        lemma_within_disjoint(rest, c, m.used[b]);
                    }
                } else {
                    assert(u2[b] == taken);
                    if a == i {
                        assert(disjoint(taken, rest));
                    } else {
                        assert(disjoint(m.free[a], m.free[i]));
                        lemma_within_disjoint(taken, c, m.free[a]);
                    }
                }
            }
        }
        assert(each_disjoint_from(f2, m2.reserved)) by {
            assert forall|a: int, b: int|
                0 <= a < f2.len() && 0 <= b < m2.reserved.len() implies disjoint(
                #[trigger] f2[a],
                #[trigger] m2.reserved[b],
            ) by {
                assert(disjoint(m.free[a], m.reserved[b]));
                if a == i {
                    lemma_within_disjoint(rest, c, m.reserved[b]);
                }
            }
        }
    }
}

/// Allocating, freeing the allocation, then allocating the same size again
/// reuses the same base address: the freed chunk returns to the front of
/// the free list, where first-fit search sees it first.
pub proof fn lemma_alloc_free_alloc_reuses(m0: AllocModel, n: u32)
    requires
        model_wf(m0),
        n > 0,
        spec_alloc(m0, n) is Some,
    ensures
        ({
            let (m1, p) = spec_alloc(m0, n)->Some_0;
            &&& spec_free(m1, p) is Some
            &&& spec_free(m1, p)->Some_0.1 == n
            &&& spec_alloc(spec_free(m1, p)->Some_0.0, n) is Some
            &&& spec_alloc(spec_free(m1, p)->Some_0.0, n)->Some_0.1 == p
        }),
{
    lemma_spec_alloc_properties(m0, n);
    let (m1, p) = spec_alloc(m0, n)->Some_0;
    let taken = Chunk { base: p, size: n };
    // no other live allocation starts at `p`: they are all disjoint from
    // the new chunk, and disjoint non-empty chunks have different bases
    assert forall|j: int| 0 <= j < m0.used.len() implies (#[trigger] m0.used[j]).base != p by {
        assert(disjoint(taken, m0.used[j]));
        assert(m0.used[j].wf());
    }
    lemma_find_used_characterization(m1.used, p);
    let last = m0.used.len() as int;
    assert(m1.used[last] == taken);
    match find_used(m1.used, p) {
        None => {
            assert(m1.used[last].base != p);
        },
        Some(i) => {
            assert(i == last) by {
                if i < last {
                    assert(m1.used[i] == m0.used[i]);
                }
            }
        },
    }
    let (m2, sz) = spec_free(m1, p)->Some_0;
    assert(m2.free == m1.free.insert(0, taken));
    m1.free.insert_ensures(0, taken);
    assert(m2.free[0] == taken);
    assert(m2.free.len() > 0 && m2.free[0].size >= n);
    assert(find_fit(m2.free, n) == Some(0int));
    assert(spec_alloc(m2, n)->Some_0.1 == taken.base);
}

/// Two allocations in a row, without the first being freed in between,
/// give two different addresses: the second is carved out of space that
/// is disjoint from every live allocation, the first included.
pub proof fn lemma_consecutive_allocations_distinct(m0: AllocModel, n1: u32, n2: u32)
    requires
        model_wf(m0),
        n1 > 0,
        n2 > 0,
        spec_alloc(m0, n1) is Some,
        spec_alloc(spec_alloc(m0, n1)->Some_0.0, n2) is Some,
    ensures
        spec_alloc(m0, n1)->Some_0.1 != spec_alloc(spec_alloc(m0, n1)->Some_0.0, n2)->Some_0.1,
{
    lemma_spec_alloc_properties(m0, n1);
    let (m1, p1) = spec_alloc(m0, n1)->Some_0;
    lemma_spec_alloc_properties(m1, n2);
    let (m2, p2) = spec_alloc(m1, n2)->Some_0;
    let last = m0.used.len() as int;
    assert(m1.used[last] == Chunk { base: p1, size: n1 });
    assert(disjoint(Chunk { base: p2, size: n2 }, m1.used[last]));
}

/// A reserved range is never handed out: every later allocation, in any
/// well-formed state that still records the range as reserved, is disjoint
/// from it. Allocating, freeing and reserving never drop a reserved range.
pub proof fn lemma_reserved_never_allocated(m: AllocModel, size: u32, j: int)
    requires
        model_wf(m),
        size > 0,
        spec_alloc(m, size) is Some,
        0 <= j < m.reserved.len(),
    ensures
        ({
            let (m1, p) = spec_alloc(m, size)->Some_0;
            &&& disjoint(Chunk { base: p, size }, m.reserved[j])
            &&& m1.reserved == m.reserved
        }),
{
    lemma_spec_alloc_properties(m, size);
}

/// A range once reserved stays reserved forever: allocating and freeing
/// never touch the reserved set, and reserving only adds to it. Together
/// with [lemma_reserved_never_allocated] this gives the guarantee that no
/// sequence of allocations ever yields an address range overlapping a
/// reserved one.
pub proof fn lemma_reserved_persists(m: AllocModel, size: u32, base: u32, c: Chunk)
    ensures
        spec_alloc(m, size) is Some ==> spec_alloc(m, size)->Some_0.0.reserved == m.reserved,
        spec_free(m, base) is Some ==> spec_free(m, base)->Some_0.0.reserved == m.reserved,
        spec_reserve(m, c) is Some ==> spec_reserve(m, c)->Some_0.reserved == m.reserved.push(c),
{
}

/// Everything `free` guarantees: the allocator stays well-formed, the freed
/// chunk was live with base `base`, and it returns to the front of the free
/// list.
pub proof fn lemma_spec_free_properties(m: AllocModel, base: u32)
    requires
        model_wf(m),
        spec_free(m, base) is Some,
    ensures
        ({
            let (m2, size) = spec_free(m, base)->Some_0;
            let j = find_used(m.used, base)->Some_0;
            let c = m.used[j];
            &&& model_wf(m2)
            &&& 0 <= j < m.used.len()
            &&& c.base == base
            &&& c.size == size
            &&& c.wf()
            &&& m2.free == m.free.insert(0, c)
            &&& m2.used == m.used.remove(j)
            &&& m2.reserved == m.reserved
        }),
{
    lemma_find_used_characterization(m.used, base);
    let (m2, size) = spec_free(m, base)->Some_0;
    let j = find_used(m.used, base)->Some_0;
    let c = m.used[j];
    let f2 = m.free.insert(0, c);
    let u2 = m.used.remove(j);
    m.free.insert_ensures(0, c);
    m.used.remove_ensures(j);
    assert forall|a: int| 0 <= a < u2.len() implies #[trigger] u2[a] == m.used[skip_index(a, j)]
        && skip_index(a, j) != j && 0 <= skip_index(a, j) < m.used.len() by {
        if a < j {
            assert(u2[a] == m.used[a]);
        } else {
            assert(u2[a] == m.used[a + 1]);
        }
    }
    assert forall|a: int| 1 <= a < f2.len() implies #[trigger] f2[a] == m.free[a - 1] by {}
    assert(f2[0] == c);
    assert(all_wf(f2)) by {
        assert forall|a: int| 0 <= a < f2.len() implies (#[trigger] f2[a]).wf() by {}
    }
    assert(pairwise_disjoint(f2)) by {
        assert forall|a: int, b: int|
            0 <= a < f2.len() && 0 <= b < f2.len() && a != b implies disjoint(#[trigger] f2[a], #[trigger] f2[b]) by {
            if a == 0 {
                assert(disjoint(m.free[b - 1], m.used[j]));
            } else if b == 0 {
                assert(disjoint(m.free[a - 1], m.used[j]));
            } else {
                assert(disjoint(m.free[a - 1], m.free[b - 1]));
            }
        }
    }
    assert(all_wf(u2));
    assert(pairwise_disjoint(u2)) by {
        assert forall|a: int, b: int|
            0 <= a < u2.len() && 0 <= b < u2.len() && a != b implies disjoint(#[trigger] u2[a], #[trigger] u2[b]) by {
            assert(disjoint(m.used[skip_index(a, j)], m.used[skip_index(b, j)]));
        }
    }
    assert(each_disjoint_from(f2, u2)) by {
        assert forall|a: int, b: int|
            0 <= a < f2.len() && 0 <= b < u2.len() implies disjoint(#[trigger] f2[a], #[trigger] u2[b]) by {
            if a == 0 {
                assert(disjoint(m.used[j], m.used[skip_index(b, j)]));
            } else {
                assert(disjoint(m.free[a - 1], m.used[skip_index(b, j)]));
            }
        }
    }
    assert(each_disjoint_from(f2, m2.reserved)) by {
        assert forall|a: int, b: int|
            0 <= a < f2.len() && 0 <= b < m2.reserved.len() implies disjoint(
            #[trigger] f2[a],
            #[trigger] m2.reserved[b],
        ) by {
            if a == 0 {
                assert(disjoint(m.used[j], m.reserved[b]));
            } else {
                assert(disjoint(m.free[a - 1], m.reserved[b]));
            }
        }
    }
    assert(each_disjoint_from(u2, m2.reserved)) by {
        assert forall|a: int, b: int|
            0 <= a < u2.len() && 0 <= b < m2.reserved.len() implies disjoint(
            #[trigger] u2[a],
            #[trigger] m2.reserved[b],
        ) by {
            assert(disjoint(m.used[skip_index(a, j)], m.reserved[b]));
        }
    }
}

/// Everything `reserve` guarantees: the allocator stays well-formed and the
/// chunk joins the reserved ranges, never to be handed out again.
#[verifier::rlimit(60)]
pub proof fn lemma_spec_reserve_properties(m: AllocModel, c: Chunk)
    requires
        model_wf(m),
        c.size > 0,
        spec_reserve(m, c) is Some,
    ensures
        ({
            let m2 = spec_reserve(m, c)->Some_0;
            &&& model_wf(m2)
            &&& m2.used == m.used
            &&& m2.reserved == m.reserved.push(c)
            &&& c.wf()
        }),
{
    lemma_find_containing_characterization(m.free, c);
    let m2 = spec_reserve(m, c)->Some_0;
    let i = find_containing(m.free, c)->Some_0;
    let f = m.free[i];
    assert(c.wf());
    let removed = m.free.remove(i);
    m.free.remove_ensures(i);
    let has_left = f.base < c.base;
    let has_right = c.end() < f.end();
    let left = Chunk { base: f.base, size: (c.base - f.base) as u32 };
    let right = Chunk { base: (c.base + c.size) as u32, size: (f.end() - c.end()) as u32 };
    let with_left = if has_left {
        removed.insert(0, left)
    } else {
        removed
    };
    let with_right = if has_right {
        with_left.insert(0, right)
    } else {
        with_left
    };
    if has_left {
        removed.insert_ensures(0, left);
    }
    if has_right {
        with_left.insert_ensures(0, right);
    }
    assert(m2.free == with_right);
    let n_split: int = (if has_left { 1int } else { 0int }) + (if has_right { 1int } else { 0int });
    assert forall|a: int| 0 <= a < removed.len() implies #[trigger] removed[a] == m.free[skip_index(a, i)]
        && skip_index(a, i) != i && 0 <= skip_index(a, i) < m.free.len() by {
        if a < i {
            assert(removed[a] == m.free[a]);
        } else {
            assert(removed[a] == m.free[a + 1]);
        }
    }
    // layout of the new free list: the right part (if any) first, then the
    // left part (if any), then every old free chunk other than f
    assert(with_right.len() == removed.len() + n_split);
    assert forall|a: int| n_split <= a < with_right.len() implies #[trigger] with_right[a] == removed[a - n_split] by {
        if has_right && has_left {
            assert(with_right[a] == with_left[a - 1]);
            assert(with_left[a - 1] == removed[a - 2]);
        } else if has_right {
            assert(with_right[a] == with_left[a - 1]);
        } else if has_left {
            assert(with_right[a] == removed[a - 1]);
        }
    }
    if has_left {
        assert(with_right[n_split - 1] == left) by {
            if has_right {
                assert(with_right[1] == with_left[0]);
            }
        }
        assert(chunk_contains(f, left));
        assert(left.wf());
    }
    if has_right {
        assert(with_right[0] == right);
        assert(chunk_contains(f, right));
        assert(right.wf());
    }
    if has_left {
        assert(disjoint(left, c));
    }
    if has_right {
        assert(disjoint(right, c));
    }
    if has_left && has_right {
        assert(disjoint(left, right));
    }
    assert(all_wf(with_right)) by {
        assert forall|a: int| 0 <= a < with_right.len() implies (#[trigger] with_right[a]).wf() by {
            if a >= n_split {
                assert(with_right[a] == m.free[skip_index(a - n_split, i)]);
            }
        }
    }
    assert(pairwise_disjoint(with_right)) by {
        assert forall|a: int, b: int|
            0 <= a < with_right.len() && 0 <= b < with_right.len() && a != b implies disjoint(
            #[trigger] with_right[a],
            #[trigger] with_right[b],
        ) by {
            if a < n_split && b < n_split {
                assert(has_left && has_right);
                assert(disjoint(left, right));
            } else if a < n_split {
                let b0 = skip_index(b - n_split, i);
                assert(with_right[b] == m.free[b0]);
                assert(disjoint(m.free[i], m.free[b0]));
                lemma_within_disjoint(with_right[a], f, m.free[b0]);
            } else if b < n_split {
                let a0 = skip_index(a - n_split, i);
                assert(with_right[a] == m.free[a0]);
                assert(disjoint(m.free[i], m.free[a0]));
                lemma_within_disjoint(with_right[b], f, m.free[a0]);
            } else {
                let a0 = skip_index(a - n_split, i);
                let b0 = skip_index(b - n_split, i);
                assert(with_right[a] == m.free[a0] && with_right[b] == m.free[b0]);
                assert(disjoint(m.free[a0], m.free[b0]));
            }
        }
    }
    assert(each_disjoint_from(with_right, m.used)) by {
        assert forall|a: int, b: int|
            0 <= a < with_right.len() && 0 <= b < m.used.len() implies disjoint(
            #[trigger] with_right[a],
            #[trigger] m.used[b],
        ) by {
            assert(disjoint(m.free[i], m.used[b]));
            if a < n_split {
                lemma_within_disjoint(with_right[a], f, m.used[b]);
            } else {
                assert(with_right[a] == m.free[skip_index(a - n_split, i)]);
                assert(disjoint(m.free[skip_index(a - n_split, i)], m.used[b]));
            }
        }
    }
    assert(each_disjoint_from(with_right, m2.reserved)) by {
        assert forall|a: int, b: int|
            0 <= a < with_right.len() && 0 <= b < m2.reserved.len() implies disjoint(
            #[trigger] with_right[a],
            #[trigger] m2.reserved[b],
        ) by {
            if b < m.reserved.len() {
                if a < n_split {
                    assert(disjoint(m.free[i], m.reserved[b]));
                    lemma_within_disjoint(with_right[a], f, m.reserved[b]);
                } else {
                    assert(with_right[a] == m.free[skip_index(a - n_split, i)]);
                    assert(disjoint(m.free[skip_index(a - n_split, i)], m.reserved[b]));
                }
            } else {
                assert(m2.reserved[b] == c);
                if a < n_split {
                    if has_right && a == 0 {
                        assert(with_right[0] == right && disjoint(right, c));
                    } else {
                        assert(with_right[a] == left && disjoint(left, c));
                    }
                } else {
                    let a0 = skip_index(a - n_split, i);
                    assert(with_right[a] == m.free[a0]);
                    assert(disjoint(m.free[a0], m.free[i]));
                    lemma_within_disjoint(c, f, m.free[a0]);
                }
            }
        }
    }
    assert(each_disjoint_from(m.used, m2.reserved)) by {
        assert forall|a: int, b: int|
            0 <= a < m.used.len() && 0 <= b < m2.reserved.len() implies disjoint(
            #[trigger] m.used[a],
            #[trigger] m2.reserved[b],
        ) by {
            if b < m.reserved.len() {
                assert(disjoint(m.used[a], m.reserved[b]));
            } else {
                assert(m2.reserved[b] == c);
                assert(disjoint(m.used[a], m.free[i]));
                lemma_within_disjoint(c, f, m.used[a]);
            }
        }
    }
}

} // verus!
