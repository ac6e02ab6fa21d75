//! Physical and virtual address units with page-sized stepping.

use vstd::prelude::*;

verus! {

/// Size in bytes of one page and of one frame.
pub const PAGE_SIZE: u64 = 4096;

/// A physical memory address.
#[derive(Debug, Clone, Copy, PartialEq, Eq, PartialOrd, Ord, Hash, Structural)]
pub struct PhysAddr(pub u64);

/// A physical frame, named by its page-aligned base address.
#[derive(Debug, Clone, Copy, PartialEq, Eq, PartialOrd, Ord, Hash, Structural)]
pub struct Frame(pub PhysAddr);

/// A virtual memory address.
#[derive(Debug, Clone, Copy, PartialEq, Eq, PartialOrd, Ord, Hash, Structural)]
pub struct VirtAddr(pub usize);

/// A virtual page, named by its page-aligned base address.
#[derive(Debug, Clone, Copy, PartialEq, Eq, PartialOrd, Ord, Hash, Structural)]
pub struct Page(pub VirtAddr);

impl Frame {
    /// The base address of the frame as a mathematical integer.
    pub open spec fn addr(self) -> int {
        self.0.0 as int
    }

    /// Number of whole frames from `start` up to `end`, or `None` when `end`
    /// lies below `start`.
    pub fn steps_between(start: &Frame, end: &Frame) -> (r: Option<usize>)
        ensures
            end.addr() >= start.addr() ==> r == Some(((end.addr() - start.addr()) / 4096) as usize),
            end.addr() < start.addr() ==> r.is_none(),
    {
        if end.0.0 >= start.0.0 {
            Some(((end.0.0 - start.0.0) / PAGE_SIZE) as usize)
        } else {
            None
        }
    }

    /// The frame `count` frames above `start`, or `None` on overflow.
    pub fn forward_checked(start: Frame, count: usize) -> (r: Option<Frame>)
        ensures
            r.is_some() <==> count * 4096 <= usize::MAX && start.addr() + count * 4096 <= u64::MAX,
            r.is_some() ==> r.unwrap().addr() == start.addr() + count * 4096,
    {
        match count.checked_mul(4096) {
            Some(offset) => match start.0.0.checked_add(offset as u64) {
                Some(addr) => Some(Frame(PhysAddr(addr))),
                None => None,
            },
            None => None,
        }
    }

    /// The frame `count` frames below `start`, or `None` on underflow.
    pub fn backward_checked(start: Frame, count: usize) -> (r: Option<Frame>)
        ensures
            r.is_some() <==> count * 4096 <= usize::MAX && start.addr() - count * 4096 >= 0,
            r.is_some() ==> r.unwrap().addr() == start.addr() - count * 4096,
    {
        match count.checked_mul(4096) {
            Some(offset) => match start.0.0.checked_sub(offset as u64) {
                Some(addr) => Some(Frame(PhysAddr(addr))),
                None => None,
            },
            None => None,
        }
    }
}

impl VirtAddr {
    /// The null address.
    pub fn zero() -> (r: VirtAddr)
        ensures
            r.0 == 0,
    {
        VirtAddr(0)
    }

    /// The address as an integer.
    pub fn addr(&self) -> (r: usize)
        ensures
            r == self.0,
    {
        self.0
    }

    /// The address in the form a pointer to it would carry.
    pub fn as_ptr(&self) -> (r: usize)
        ensures
            r == self.0,
    {
        self.0
    }
}

impl Page {
    /// The base address of the page as a mathematical integer.
    pub open spec fn addr(self) -> int {
        self.0.0 as int
    }

    /// Number of whole pages from `start` up to `end`, or `None` when `end`
    /// lies below `start`.
    pub fn steps_between(start: &Page, end: &Page) -> (r: Option<usize>)
        ensures
            end.addr() >= start.addr() ==> r == Some(((end.addr() - start.addr()) / 4096) as usize),
            end.addr() < start.addr() ==> r.is_none(),
    {
        if end.0.0 >= start.0.0 {
            Some((end.0.0 - start.0.0) / 4096)
        } else {
            None
        }
    }

    /// The page `count` pages above `start`, or `None` on overflow.
    pub fn forward_checked(start: Page, count: usize) -> (r: Option<Page>)
        ensures
            r.is_some() <==> count * 4096 <= usize::MAX && start.addr() + count * 4096 <= usize::MAX,
            r.is_some() ==> r.unwrap().addr() == start.addr() + count * 4096,
    {
        match count.checked_mul(4096) {
            Some(offset) => match start.0.0.checked_add(offset) {
                Some(addr) => Some(Page(VirtAddr(addr))),
                None => None,
            },
            None => None,
        }
    }

    /// The page `count` pages below `start`, or `None` on underflow.
    pub fn backward_checked(start: Page, count: usize) -> (r: Option<Page>)
        ensures
            r.is_some() <==> count * 4096 <= usize::MAX && start.addr() - count * 4096 >= 0,
            r.is_some() ==> r.unwrap().addr() == start.addr() - count * 4096,
    {
        match count.checked_mul(4096) {
            Some(offset) => match start.0.0.checked_sub(offset) {
                Some(addr) => Some(Page(VirtAddr(addr))),
                None => None,
            },
            None => None,
        }
    }
}

} // verus!
