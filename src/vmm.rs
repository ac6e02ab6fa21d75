//! Virtual region allocation: monotonic bump reservation of page ranges
//! inside a fixed window.

use core::ops::Range;

use vstd::prelude::*;

use crate::types::{Page, VirtAddr};

verus! {

/// Failure to reserve virtual pages.
#[derive(Debug, Clone, Copy, PartialEq, Eq, Structural)]
pub enum VirtAllocError {
    VirtualAddressSpaceExhausted,
}

/// A source of fresh virtual page ranges.
pub trait VirtualRegionAllocator {
    /// Reserves `pages` consecutive pages.
    fn allocate_region(&mut self, pages: usize) -> (r: Result<Range<Page>, VirtAllocError>)
        requires
            pages >= 1,
        ensures
            r.is_ok() ==> r.unwrap().end.addr() == r.unwrap().start.addr() + pages * 4096,
    ;
}

/// Takes back page ranges that a `VirtualRegionAllocator` handed out.
pub trait VirtualRegionDeallocator {
    /// Gives `region` back; the caller no longer uses any of its pages.
    fn deallocate_region(&mut self, region: Range<Page>);
}

/// Hands out disjoint page ranges from the window `full` by advancing a
/// cursor; ranges are never given back.
#[derive(Debug)]
pub struct BumpAllocator {
    full: Range<Page>,
    pos: Page,
}

impl BumpAllocator {
    /// Address of the first page not yet handed out.
    pub closed spec fn cursor(&self) -> int {
        self.pos.addr()
    }

    /// Lower end of the window.
    pub closed spec fn base(&self) -> int {
        self.full.start.addr()
    }

    /// Upper end (exclusive) of the window.
    pub closed spec fn limit(&self) -> int {
        self.full.end.addr()
    }

    /// The cursor lies inside the window.
    pub open spec fn wf(&self) -> bool {
        self.base() <= self.cursor() <= self.limit()
    }

    /// The window and the cursor are addresses.
    pub proof fn lemma_bounds(&self)
        ensures
            0 <= self.base() <= usize::MAX,
            0 <= self.cursor() <= usize::MAX,
            0 <= self.limit() <= usize::MAX,
    {
    }

    /// The range `[start, end)` that a reservation of `n` pages hands out,
    /// if it fits below the limit.
    pub open spec fn region_after(&self, n: int) -> Option<(int, int)> {
        if self.cursor() + n * 4096 <= self.limit() {
            Some((self.cursor(), self.cursor() + n * 4096))
        } else {
            None
        }
    }

    /// Creates an allocator over the window `full`, with the cursor at its start.
    pub fn new(full: Range<Page>) -> (r: BumpAllocator)
        requires
            full.start.addr() <= full.end.addr(),
        ensures
            r.wf(),
            r.base() == full.start.addr(),
            r.cursor() == full.start.addr(),
            r.limit() == full.end.addr(),
    {
        let start = full.start;
        BumpAllocator { full, pos: start }
    }

    /// Reserves `pages` pages: hands out `[cursor, cursor + pages * 4096)` and
    /// advances the cursor, or fails and leaves the cursor where it was when
    /// the range would pass the end of the window.
    pub fn allocate_region(&mut self, pages: usize) -> (r: Result<Range<Page>, VirtAllocError>)
        requires
            pages >= 1,
        ensures
            old(self).wf() ==> final(self).wf(),
            final(self).base() == old(self).base(),
            final(self).limit() == old(self).limit(),
            r.is_ok() <==> old(self).region_after(pages as int).is_some(),
            r.is_ok() ==> {
                let (s, e) = old(self).region_after(pages as int).unwrap();
                &&& r.unwrap().start.addr() == s
                &&& r.unwrap().end.addr() == e
                &&& final(self).cursor() == e
            },
            r.is_err() ==> final(self).cursor() == old(self).cursor(),
            r.is_err() ==> *final(self) == *old(self),
    {
        let region = reserve_from(self.pos, self.full.end, pages);
        if let Ok(range) = &region {
            self.pos = range.end;
        }
        region
    }
}

impl VirtualRegionAllocator for BumpAllocator {
    fn allocate_region(&mut self, pages: usize) -> (r: Result<Range<Page>, VirtAllocError>) {
        BumpAllocator::allocate_region(self, pages)
    }
}

/// The bump policy shared by every region allocator: `pages` pages from
/// `pos` on, if they end at or below `limit`.
pub fn reserve_from(pos: Page, limit: Page, pages: usize) -> (r: Result<Range<Page>, VirtAllocError>)
    ensures
        r.is_ok() <==> pos.addr() + pages * 4096 <= limit.addr(),
        r.is_ok() ==> r.unwrap().start == pos && r.unwrap().end.addr() == pos.addr() + pages * 4096,
{
    let end = match Page::forward_checked(pos, pages) {
        Some(end) => end,
        None => return Err(VirtAllocError::VirtualAddressSpaceExhausted),
    };
    if limit.0.0 < end.0.0 {
        return Err(VirtAllocError::VirtualAddressSpaceExhausted);
    }
    Ok(pos..end)
}

/// The allocator state after `k` successful reservations of `n` pages each,
/// as far as the cursor is concerned.
pub open spec fn cursor_after(start: int, n: int, k: nat) -> int
    decreases k,
{
    if k == 0 {
        start
    } else {
        cursor_after(start, n, (k - 1) as nat) + n * 4096
    }
}

/// Repeated reservations of `n` pages hand out strictly increasing,
/// adjacent and so non-overlapping ranges: the `k`-th one (counting from
/// zero) is `[cursor + k * n * 4096, cursor + (k + 1) * n * 4096)`, and it
/// succeeds exactly when that range still ends at or below the window's limit.
pub proof fn lemma_repeated_regions(a: BumpAllocator, n: int, k: nat)
    requires
        n >= 1,
    ensures
        cursor_after(a.cursor(), n, k) == a.cursor() + k * n * 4096,
        cursor_after(a.cursor(), n, k + 1) == cursor_after(a.cursor(), n, k) + n * 4096,
        cursor_after(a.cursor(), n, k) < cursor_after(a.cursor(), n, k + 1),
    decreases k,
{
    if k > 0 {
        let j = (k - 1) as nat;
        lemma_repeated_regions(a, n, j);
        assert(j * n * 4096 + n * 4096 == k * n * 4096) by (nonlinear_arith)
            requires j + 1 == k;
        assert(cursor_after(a.cursor(), n, k) == cursor_after(a.cursor(), n, j) + n * 4096);
    } else {
        assert(k * n * 4096 == 0) by (nonlinear_arith)
            requires k == 0;
    }
}

/// Two successive reservations from one allocator are adjacent: the second
/// starts where the first ended, so neither overlaps the other; a reservation
/// that does not fit changes nothing.
pub proof fn lemma_successive_regions(a: BumpAllocator, b: BumpAllocator, n: int, m: int)
    requires
        n >= 1,
        m >= 1,
        a.region_after(n).is_some(),
        b.base() == a.base(),
        b.limit() == a.limit(),
        b.cursor() == a.region_after(n).unwrap().1,
    ensures
        a.region_after(n).unwrap().0 < a.region_after(n).unwrap().1,
        b.region_after(m).is_some() ==> {
            &&& b.region_after(m).unwrap().0 == a.region_after(n).unwrap().1
            &&& b.region_after(m).unwrap().0 < b.region_after(m).unwrap().1
        },
        b.region_after(m).is_none() <==> a.cursor() + (n + m) * 4096 > a.limit(),
{
}

} // verus!
