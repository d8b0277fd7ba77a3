//! Guest function handles: addresses tagged with the instruction-set mode
//! bit, as used for calls between guest and host.

use vstd::prelude::*;

verus! {

/// A guest function entry point. The lowest address bit selects the
/// compact ("thumb") instruction-set mode and is not part of the address
/// proper.
#[derive(Clone, Copy, Debug, PartialEq, Eq, Structural)]
pub struct GuestFunction {
    pub addr_with_thumb_bit: u32,
}

impl GuestFunction {
    pub open spec fn spec_is_thumb(self) -> bool {
        self.addr_with_thumb_bit & 1 == 1
    }

    pub open spec fn spec_addr(self) -> u32 {
        self.addr_with_thumb_bit & 0xFFFF_FFFEu32
    }

    pub fn from_addr_with_thumb_bit(addr: u32) -> (r: GuestFunction)
        ensures
            r.addr_with_thumb_bit == addr,
    {
        GuestFunction { addr_with_thumb_bit: addr }
    }

    pub fn is_thumb(self) -> (r: bool)
        ensures
            r == self.spec_is_thumb(),
    {
        self.addr_with_thumb_bit & 1 == 1
    }

    pub fn addr_with_thumb_bit(self) -> (r: u32)
        ensures
            r == self.addr_with_thumb_bit,
    {
        self.addr_with_thumb_bit
    }

    pub fn addr_without_thumb_bit(self) -> (r: u32)
        ensures
            r == self.spec_addr(),
    {
        self.addr_with_thumb_bit & 0xFFFF_FFFE
    }
}

} // verus!
