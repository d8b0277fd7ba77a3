//! The dynamic linker's view of the CPU interpreter: a capability for
//! requesting instruction-cache invalidation after code has been patched.
//!
//! Self-modifying code is a first-class concern here: every in-place patch
//! to guest code must be followed by an invalidation request covering
//! exactly the patched byte range, before that range is executed again.
//! This type records the requested ranges; the embedding interpreter
//! drains them and invalidates its caches.

use vstd::prelude::*;

verus! {

/// The cache-invalidation capability the linker holds. Each entry is a
/// requested `(base address, byte count)` range, in request order.
pub struct Cpu {
    pub invalidations: Vec<(u32, u32)>,
}

impl Cpu {
    pub fn new() -> (r: Cpu)
        ensures
            r.invalidations@ == Seq::<(u32, u32)>::empty(),
    {
        Cpu { invalidations: Vec::new() }
    }

    /// Request invalidation of the instruction cache over exactly the
    /// given byte range.
    pub fn invalidate_cache_range(&mut self, base: u32, size: u32)
        ensures
            final(self).invalidations@ == old(self).invalidations@.push((base, size)),
    {
        self.invalidations.push((base, size));
    }

    /// Hand the accumulated invalidation requests to the interpreter,
    /// leaving the log empty.
    pub fn take_invalidations(&mut self) -> (r: Vec<(u32, u32)>)
        ensures
            r@ == old(self).invalidations@,
            final(self).invalidations@ == Seq::<(u32, u32)>::empty(),
    {
        let mut taken: Vec<(u32, u32)> = Vec::new();
        core::mem::swap(&mut taken, &mut self.invalidations);
        taken
    }
}

} // verus!
