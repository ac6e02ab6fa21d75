//! The direct map: all physical memory is mapped at a fixed offset in the
//! higher half, so a physical address has a virtual alias found by adding
//! that offset.

use vstd::prelude::*;

use crate::types::{PhysAddr, VirtAddr};

verus! {

/// The direct map, given by its offset.
#[derive(Debug, Clone, Copy)]
pub struct Hhdm {
    base: u64,
}

/// A non-null address inside the direct map.
#[derive(Debug, Clone, Copy, PartialEq, Eq)]
pub struct HigherHalf {
    addr: usize,
}

impl Hhdm {
    /// The offset at which physical memory is mapped.
    pub closed spec fn offset(&self) -> int {
        self.base as int
    }

    /// The direct map at the offset that the boot loader reported.
    pub fn with_limine(offset: u64) -> (r: Hhdm)
        ensures
            r.offset() == offset,
    {
        Hhdm { base: offset }
    }

    /// The virtual alias of `phys`.
    pub fn to_virtual(&self, phys: PhysAddr) -> (r: HigherHalf)
        requires
            0 < phys.0 + self.offset() <= usize::MAX,
        ensures
            r.addr() == phys.0 + self.offset(),
    {
        HigherHalf { addr: (phys.0 + self.base) as usize }
    }

    /// The physical address that the alias `addr` stands for.
    pub fn to_physical(&self, addr: HigherHalf) -> (r: PhysAddr)
        requires
            addr.addr() >= self.offset(),
        ensures
            r.0 == addr.addr() - self.offset(),
    {
        PhysAddr(addr.addr as u64 - self.base)
    }
}

impl HigherHalf {
    /// The address.
    pub closed spec fn addr(&self) -> int {
        self.addr as int
    }

    /// The address, as a pointer to it would carry it.
    pub fn as_ptr(&self) -> (r: usize)
        ensures
            r == self.addr(),
    {
        self.addr
    }

    /// The address as a virtual address.
    pub fn as_nonnull(&self) -> (r: VirtAddr)
        ensures
            r.0 == self.addr(),
    {
        VirtAddr(self.addr)
    }
}

} // verus!
