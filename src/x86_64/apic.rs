//! The local APIC in xAPIC mode: its registers are memory mapped, 16 bytes
//! apart, from a fixed physical address.

use vstd::prelude::*;

use crate::hhdm::Hhdm;
use crate::types::{PhysAddr, VirtAddr};

verus! {

/// Physical address of the xAPIC register page.
pub const XAPIC_BASE_ADDRESS: u64 = 0xfee0_0000;

/// Distance in bytes between two xAPIC registers.
pub const REGISTER_STRIDE: usize = 16;

/// The local APIC reached through its memory-mapped registers.
#[derive(Debug, Clone, Copy)]
pub struct XApic {
    base: VirtAddr,
}

impl XApic {
    /// Where the register page starts, as a virtual address.
    pub closed spec fn base(&self) -> int {
        self.base.0 as int
    }

    /// Physical address of the register page.
    pub fn physical_address() -> (r: PhysAddr)
        ensures
            r.0 == XAPIC_BASE_ADDRESS,
    {
        PhysAddr(XAPIC_BASE_ADDRESS)
    }

    /// The xAPIC whose register page is mapped at `addr`.
    pub fn with_address(addr: VirtAddr) -> (r: XApic)
        ensures
            r.base() == addr.0,
    {
        XApic { base: addr }
    }

    /// The xAPIC reached through the direct map.
    pub fn with_higher_half(hhdm: &Hhdm) -> (r: XApic)
        requires
            XAPIC_BASE_ADDRESS + hhdm.offset() <= usize::MAX,
            hhdm.offset() >= 0,
        ensures
            r.base() == XAPIC_BASE_ADDRESS + hhdm.offset(),
    {
        let base = hhdm.to_virtual(XApic::physical_address()).as_nonnull();
        XApic { base }
    }

    /// Address of register `index`.
    pub fn register_address(&self, index: u32) -> (r: usize)
        requires
            self.base() + REGISTER_STRIDE * index <= usize::MAX,
        ensures
            r == self.base() + REGISTER_STRIDE * index,
    {
        self.base.0 + REGISTER_STRIDE * (index as usize)
    }
}

} // verus!
