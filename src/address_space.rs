//! The kernel address space: fresh backed memory and mappings of given
//! physical ranges, built from the frame allocator, the region allocator and
//! the page-table mapper.

use core::ops::Range;

use vstd::prelude::*;

use self::x86_64::{
    entry_present, entry_word, lemma_entry_word, frames_disjoint, lemma_tables_grown_trans, page_number, tables_grown_from, MapError, PageFlags, PageMapper, DISABLE_CACHE, PRESENT, USER,
    WRITABLE,
};
use crate::pmm::{MAX_PHYS_ADDR, memmap_frames, memmap_well_formed, valid_frame_addr, Global, MemmapEntry, PhysAllocError};
use crate::types::{Frame, Page, PhysAddr, VirtAddr};
use crate::vmm::{BumpAllocator, VirtAllocError};

pub mod x86_64;

verus! {

/// Start of the kernel's virtual window: the bottom of the upper canonical
/// half.
pub const KERNEL_WINDOW_START: u64 = 0xffff_8000_0000_0000;

/// Largest size of the kernel's virtual window: the upper canonical half.
pub const WINDOW_MAX: u64 = 0x8000_0000_0000;

/// Failure of an address-space operation, passed up from the layer that
/// failed.
#[derive(Debug, Clone, Copy, PartialEq, Eq, Structural)]
pub enum AllocError {
    PhysAllocError(PhysAllocError),
    VirtAllocError(VirtAllocError),
}

/// Failure of a mapping of given frames.
#[derive(Debug, Clone, Copy, PartialEq, Eq, Structural)]
pub enum MapFramesError {
    PhysAllocError(PhysAllocError),
    VirtAllocError(VirtAllocError),
}

/// How the pages of a mapping of given frames may be used.
#[derive(Debug, Clone, Copy, Default, PartialEq, Eq, Structural)]
pub struct MapOptions {
    pub user: bool,
    pub writable: bool,
    pub disable_cache: bool,
}

/// The kernel address space has not been set up yet.
#[derive(Debug, Clone, Copy, PartialEq, Eq, Structural)]
pub struct KernelAddrSpaceNotInitializedError;

/// Page flags that `options` ask for, always with the present bit.
pub open spec fn option_flags(options: MapOptions) -> u64 {
    PRESENT | (if options.writable { WRITABLE } else { 0 }) | (if options.user { USER } else { 0 }) | (
    if options.disable_cache {
        DISABLE_CACHE
    } else {
        0
    })
}

/// The page flags for a mapping with `options`.
fn map_flags(options: &MapOptions) -> (r: PageFlags)
    ensures
        r.bits == option_flags(*options),
        r.bits & PRESENT == PRESENT,
{
    let writable = if options.writable { WRITABLE } else { 0 };
    let user = if options.user { USER } else { 0 };
    let disable_cache = if options.disable_cache { DISABLE_CACHE } else { 0 };
    let bits = PRESENT | writable | user | disable_cache;
    assert(bits & 1 == 1) by (bit_vector)
        requires bits == 1u64 | writable | user | disable_cache;
    PageFlags { bits }
}

/// Addresses in different pages, less than the window size apart, differ
/// in the bits that select their page.
proof fn lemma_page_numbers_differ(a: u64, b: u64)
    requires
        a / 4096 != b / 4096,
        a < b + WINDOW_MAX,
        b < a + WINDOW_MAX,
    ensures
        page_number(a) != page_number(b),
{
    assert((a >> 12u64) & 0xf_ffff_ffff == (a / 4096) % 0x10_0000_0000) by (bit_vector);
    assert((b >> 12u64) & 0xf_ffff_ffff == (b / 4096) % 0x10_0000_0000) by (bit_vector);
}

/// Addresses in one page share the bits that select it.
proof fn lemma_page_numbers_same(a: u64, b: u64)
    requires
        a / 4096 == b / 4096,
    ensures
        page_number(a) == page_number(b),
{
    assert((a >> 12u64) & 0xf_ffff_ffff == (a / 4096) % 0x10_0000_0000) by (bit_vector);
    assert((b >> 12u64) & 0xf_ffff_ffff == (b / 4096) % 0x10_0000_0000) by (bit_vector);
}

/// Whether one of the frames in `d` has address `x`.
pub open spec fn holds_frame(d: Seq<u64>, x: int) -> bool {
    exists|j: int| 0 <= j < d.len() && #[trigger] d[j] as int == x
}

/// Whether `va` lies in the same page as one of the `n` pages from `s` on.
pub open spec fn in_pages(va: u64, s: int, n: int) -> bool {
    exists|k: int| 0 <= k < n && page_number(va) == #[trigger] page_number((s + 4096 * k) as u64)
}

/// The pages of `[s, e)` before the `k`-th map, in order, to the frames
/// from `first` on, and the others are not mapped.
pub open spec fn mapped_prefix(sp: KernelAddrSpace, first: int, s: int, e: int, k: int) -> bool {
    &&& forall|a: u64| s <= a < s + k * 4096 ==> #[trigger] sp.mapped(a) == Some((first + (a - s) / 4096 * 4096) as u64)
    &&& forall|a: u64| s + k * 4096 <= a < e ==> #[trigger] sp.mapped(a).is_none()
}

/// What an allocation of `pages` pages does to the address space `pre`,
/// leaving `post` and returning `r`.
pub open spec fn allocate_outcome(pre: KernelAddrSpace, post: KernelAddrSpace, pages: int, r: Result<VirtAddr, AllocError>) -> bool {
    &&& post.base() == pre.base()
    &&& post.limit() == pre.limit()
    &&& r == Err::<VirtAddr, AllocError>(AllocError::VirtAllocError(VirtAllocError::VirtualAddressSpaceExhausted))
        <==> pre.cursor() + pages * 4096 > pre.limit()
    &&& r == Err::<VirtAddr, AllocError>(AllocError::VirtAllocError(VirtAllocError::VirtualAddressSpaceExhausted))
        ==> {
        &&& post == pre
        &&& post.cursor() == pre.cursor()
        &&& post.pending() == pre.pending()
        &&& forall|vb: u64| #[trigger] post.mapped(vb) == pre.mapped(vb)
    }
    &&& pre.cursor() + pages * 4096 <= pre.limit() && pre.free_count() >= 4 * pages ==> r.is_ok()
    &&& (r.is_ok() || r == Err::<VirtAddr, AllocError>(AllocError::PhysAllocError(PhysAllocError))) ==> forall|vb: u64|
        !in_pages(vb, pre.cursor(), pages) ==> #[trigger] post.mapped(vb) == pre.mapped(vb)
    &&& r == Err::<VirtAddr, AllocError>(AllocError::PhysAllocError(PhysAllocError)) ==> {
        &&& forall|vb: u64|
            pre.base() <= vb < pre.limit() ==> #[trigger] post.mapped(vb)
                == pre.mapped(vb)
        &&& post.cursor() == pre.cursor() + pages * 4096
        &&& post.free_count() + (post.table_count() - pre.table_count())
            == pre.free_count()
        &&& post.free_count() <= pages
    }
    &&& r.is_ok() ==> {
        let s = pre.cursor();
        let e = pre.cursor() + pages * 4096;
        &&& r.unwrap().0 == s
        &&& post.cursor() == e
        &&& post.free_count() + pages + (post.table_count() - pre.table_count())
            == pre.free_count()
        &&& forall|a: u64|
            s <= a < e ==> #[trigger] post.mapped(a).is_some() && pre.pending().contains(
                post.mapped(a).unwrap() as int,
            ) && !post.pending().contains(post.mapped(a).unwrap() as int)
        &&& forall|a: u64, b: u64|
            s <= a < e && s <= b < e && a / 4096 != b / 4096 ==> #[trigger] post.mapped(a)
                != #[trigger] post.mapped(b)
        &&& forall|a: u64|
            s <= a < e ==> #[trigger] post.leaf_entry(a) == Some(
                entry_word(PRESENT | WRITABLE, post.mapped(a).unwrap()),
            )
        &&& forall|a: u64|
            pre.base() <= a < pre.limit() && !(s <= a < e) ==> #[trigger] post.mapped(a)
                == pre.mapped(a)
    }
}

/// What a mapping of `frames` does to the address space `pre`, leaving
/// `post` and returning `r`.
pub open spec fn map_frames_outcome(
    pre: KernelAddrSpace,
    post: KernelAddrSpace,
    frames: Range<Frame>,
    options: MapOptions,
    r: Result<VirtAddr, AllocError>,
) -> bool {
    &&& post.base() == pre.base()
    &&& post.limit() == pre.limit()
    &&& ({
        let n = (frames.end.addr() - frames.start.addr()) / 4096;
        let s = pre.cursor();
        let e = pre.cursor() + n * 4096;
        &&& n == 0 ==> {
            &&& r == Ok::<VirtAddr, AllocError>(VirtAddr(1))
            &&& post == pre
            &&& post.cursor() == pre.cursor()
            &&& post.pending() == pre.pending()
            &&& post.table_count() == pre.table_count()
            &&& forall|vb: u64| #[trigger] post.mapped(vb) == pre.mapped(vb)
        }
        &&& n > 0 ==> {
            &&& (r == Err::<VirtAddr, AllocError>(
                AllocError::VirtAllocError(VirtAllocError::VirtualAddressSpaceExhausted),
            )) == (e > pre.limit())
            &&& e > pre.limit() ==> {
                &&& post == pre
                &&& post.cursor() == pre.cursor()
                &&& post.pending() == pre.pending()
                &&& forall|vb: u64| #[trigger] post.mapped(vb) == pre.mapped(vb)
            }
            &&& e <= pre.limit() && pre.free_count() >= 3 * n ==> r.is_ok()
            &&& e <= pre.limit() ==> {
                &&& post.cursor() == e
                &&& forall|a: u64|
                    pre.base() <= a < pre.limit() && !(s <= a < e) ==> #[trigger] post.mapped(a)
                        == pre.mapped(a)
                &&& forall|vb: u64| !in_pages(vb, s, n) ==> #[trigger] post.mapped(vb) == pre.mapped(vb)
                &&& tables_grown_from(
                    pre.tables().table_frames(),
                    post.tables().table_frames(),
                    pre.pending(),
                    post.pending(),
                )
            }
            &&& r.is_ok() ==> {
                &&& r.unwrap().0 == s
                &&& forall|a: u64|
                    s <= a < e ==> #[trigger] post.mapped(a) == Some(
                        (frames.start.addr() + (a - s) / 4096 * 4096) as u64,
                    )
                &&& forall|a: u64|
                    s <= a < e ==> #[trigger] post.leaf_entry(a) == Some(
                        entry_word(option_flags(options), (frames.start.addr() + (a - s) / 4096 * 4096) as u64),
                    )
            }
            &&& (r matches Err(AllocError::PhysAllocError(_))) ==> {
                &&& post.free_count() == 0
                &&& exists|k: int| 0 <= k < n && #[trigger] mapped_prefix(post, frames.start.addr(), s, e, k)
            }
        }
    })
}

/// Every frame pending before a step of an allocation is, after it, still
/// pending, or backs a page, or holds a table.
proof fn lemma_step_accounted(
    pre: Seq<int>,
    pend: Seq<int>,
    pend1: Seq<int>,
    pend2: Seq<int>,
    f: u64,
    added: int,
    tabs: Seq<u64>,
    tabs2: Seq<u64>,
    data: Seq<u64>,
)
    requires
        forall|x: int| #[trigger] pre.contains(x) ==> pend.contains(x) || holds_frame(data, x) || holds_frame(tabs, x),
        pend.len() > 0,
        pend[0] == f as int,
        pend1 == pend.drop_first(),
        0 <= added <= pend1.len(),
        pend2 == pend1.skip(added),
        tabs2.len() == tabs.len() + added,
        tabs2.subrange(0, tabs.len() as int) == tabs,
        forall|x: int| 0 <= x < added ==> #[trigger] tabs2[tabs.len() + x] as int == pend1[x],
    ensures
        forall|x: int|
            #[trigger] pre.contains(x) ==> pend2.contains(x) || holds_frame(data.push(f), x) || holds_frame(tabs2, x),
{
    let d2 = data.push(f);
    assert forall|x: int| #[trigger] pre.contains(x) implies pend2.contains(x) || holds_frame(d2, x) || holds_frame(tabs2, x) by {
        if pend.contains(x) {
            let y = choose|y: int| 0 <= y < pend.len() && pend[y] == x;
            if y == 0 {
                assert(d2[data.len() as int] as int == x);
            } else if y - 1 < added {
                assert(tabs2[tabs.len() + (y - 1)] as int == pend1[y - 1]);
            } else {
                assert(pend2[y - 1 - added] == x);
            }
        } else if holds_frame(data, x) {
            let j = choose|j: int| 0 <= j < data.len() && #[trigger] data[j] as int == x;
            assert(d2[j] as int == x);
        } else {
            let t = choose|t: int| 0 <= t < tabs.len() && #[trigger] tabs[t] as int == x;
            assert(tabs2.subrange(0, tabs.len() as int)[t] == tabs[t]);
        }
    }
}

/// After a failed allocation gives its frames back, the pending frames are
/// those pending before, less the frames that now hold tables.
proof fn lemma_failure_pending(pre: Seq<int>, post: Seq<int>, tables: Seq<u64>, data: Seq<u64>, returned: Seq<int>)
    requires
        forall|x: int| #[trigger] pre.contains(x) ==> returned.contains(x) || holds_frame(data, x) || holds_frame(tables, x),
        forall|x: int| #[trigger] returned.contains(x) ==> pre.contains(x),
        forall|j: int| 0 <= j < data.len() ==> pre.contains(#[trigger] data[j] as int),
        forall|x: int| #[trigger] post.contains(x) <==> returned.contains(x) || holds_frame(data, x),
        frames_disjoint(post, tables),
    ensures
        forall|x: int| #[trigger] post.contains(x) <==> pre.contains(x) && !holds_frame(tables, x),
{
    assert forall|x: int| #[trigger] post.contains(x) <==> pre.contains(x) && !holds_frame(tables, x) by {
        if post.contains(x) {
            if holds_frame(data, x) {
                let j = choose|j: int| 0 <= j < data.len() && #[trigger] data[j] as int == x;
                assert(pre.contains(data[j] as int));
            }
            if holds_frame(tables, x) {
                let t = choose|t: int| 0 <= t < tables.len() && #[trigger] tables[t] as int == x;
                let y = choose|y: int| 0 <= y < post.len() && post[y] == x;
                assert(post[y] != tables[t] as int);
            }
        }
    }
}

/// The kernel's address space: a bump allocator over its virtual window,
/// the physical frame allocator and the page tables.
pub struct KernelAddrSpace {
    vmm: BumpAllocator,
    pmm: Global,
    mapper: PageMapper,
}

impl KernelAddrSpace {
    /// The frame that the page holding `va` maps to, if any.
    pub closed spec fn mapped(&self, va: u64) -> Option<u64> {
        self.mapper.mapped(va)
    }

    /// The last-level entry word on the walk for `va`, if the walk gets
    /// that far.
    pub closed spec fn leaf_entry(&self, va: u64) -> Option<u64> {
        self.mapper.walk_entry(va, 0)
    }

    /// Frames the physical allocator can still hand out, in order.
    pub closed spec fn pending(&self) -> Seq<int> {
        self.pmm.pending()
    }

    /// Number of frames the physical allocator can still hand out.
    pub open spec fn free_count(&self) -> nat {
        self.pending().len()
    }

    /// Number of page tables in the hierarchy.
    pub closed spec fn table_count(&self) -> nat {
        self.mapper.table_frames().len()
    }

    /// Lower end of the virtual window.
    pub closed spec fn base(&self) -> int {
        self.vmm.base()
    }

    /// Upper end (exclusive) of the virtual window.
    pub closed spec fn limit(&self) -> int {
        self.vmm.limit()
    }

    /// First address of the window not yet handed out.
    pub closed spec fn cursor(&self) -> int {
        self.vmm.cursor()
    }

    /// The allocators and the tables agree: no pending frame holds a table,
    /// and nothing in the window at or above the cursor is mapped.
    pub closed spec fn wf(&self) -> bool {
        &&& self.pmm.wf()
        &&& self.mapper.wf()
        &&& frames_disjoint(self.pmm.pending(), self.mapper.table_frames())
        &&& self.vmm.base() <= self.vmm.cursor() <= self.vmm.limit()
        &&& self.vmm.cursor() % 4096 == 0
        &&& self.vmm.limit() - self.vmm.base() <= WINDOW_MAX
        &&& forall|a: u64|
            self.vmm.cursor() <= a < self.vmm.limit() ==> #[trigger] self.mapper.mapped(a).is_none()
    }

    /// Builds the address space over the virtual window `window`, the
    /// firmware memory map `memmap`, and the page tables `mapper`, which map
    /// nothing in the window and hold no frame of the memory map.
    pub fn new(window: Range<Page>, memmap: Vec<MemmapEntry>, mapper: PageMapper) -> (r: KernelAddrSpace)
        requires
            window.start.addr() % 4096 == 0,
            window.start.addr() <= window.end.addr(),
            window.end.addr() - window.start.addr() <= WINDOW_MAX,
            memmap_well_formed(memmap@),
            mapper.wf(),
            frames_disjoint(memmap_frames(memmap@, 0), mapper.table_frames()),
            forall|a: u64| window.start.addr() <= a < window.end.addr() ==> #[trigger] mapper.mapped(a).is_none(),
        ensures
            r.wf(),
            r.base() == window.start.addr(),
            r.cursor() == window.start.addr(),
            r.limit() == window.end.addr(),
            r.pending() == memmap_frames(memmap@, 0),
            r.tables() == mapper,
    {
        KernelAddrSpace { vmm: BumpAllocator::new(window), pmm: Global::new(memmap), mapper }
    }

    /// The page tables.
    pub closed spec fn tables(&self) -> PageMapper {
        self.mapper
    }

    /// The page tables, for writing them out to memory.
    pub fn mapper(&self) -> (r: &PageMapper)
        ensures
            *r == self.tables(),
    {
        &self.mapper
    }

    /// Reserves `pages` fresh pages of the window and backs each, in order,
    /// with a new frame, writable. On success the first address of the
    /// range comes back. When frames run out part way, every page mapped so
    /// far is unmapped and its frame, like the one just obtained, goes back
    /// to the allocator; the reserved range is not given back.
    pub fn allocate(&mut self, pages: usize) -> (r: Result<VirtAddr, AllocError>)
        requires
            old(self).wf(),
            pages >= 1,
        ensures
            final(self).wf(),
            allocate_outcome(*old(self), *final(self), pages as int, r),
    {
        let region = match self.vmm.allocate_region(pages) {
            Ok(region) => region,
            Err(err) => return Err(AllocError::VirtAllocError(err)),
        };
        let start = region.start.0.0;
        let ghost s = start as int;
        let ghost old_pending = old(self).pmm.pending();
        let ghost old_tables = old(self).mapper.table_frames();
        let ghost mut data: Seq<u64> = Seq::empty();
        let mut k: usize = 0;
        while k < pages
            invariant
                old(self).wf(),
                k <= pages,
                s == old(self).vmm.cursor(),
                s + pages * 4096 == self.vmm.cursor(),
                self.vmm.base() == old(self).vmm.base(),
                self.vmm.limit() == old(self).vmm.limit(),
                self.vmm.cursor() <= self.vmm.limit(),
                self.vmm.limit() - self.vmm.base() <= WINDOW_MAX,
                old(self).vmm.base() <= s,
                s % 4096 == 0,
                start == s,
                self.pmm.wf(),
                self.mapper.wf(),
                frames_disjoint(self.pmm.pending(), self.mapper.table_frames()),
                old_pending == old(self).pmm.pending(),
                forall|x: int| #[trigger] self.pmm.pending().contains(x) ==> old_pending.contains(x),
                forall|x: int|
                    #[trigger] old_pending.contains(x) ==> self.pmm.pending().contains(x) || holds_frame(data, x)
                        || holds_frame(self.mapper.table_frames(), x),
                old_tables == old(self).mapper.table_frames(),
                old_tables.len() <= self.mapper.table_frames().len(),
                self.pmm.pending().len() + k + (self.mapper.table_frames().len() - old_tables.len())
                    == old_pending.len(),
                self.mapper.table_frames().len() - old_tables.len() <= 3 * k,
                data.len() == k,
                data.no_duplicates(),
                forall|j: int|
                    0 <= j < k ==> {
                        &&& valid_frame_addr(#[trigger] data[j] as int)
                        &&& !self.pmm.pending().contains(data[j] as int)
                        &&& old_pending.contains(data[j] as int)
                        &&& !self.mapper.table_frames().contains(data[j])
                    },
                forall|a: u64|
                    s <= a < s + k * 4096 ==> #[trigger] self.mapper.mapped(a) == Some(data[(a - s) / 4096]),
                forall|a: u64|
                    s <= a < s + k * 4096 ==> #[trigger] self.mapper.walk_entry(a, 0) == Some(
                        entry_word(PRESENT | WRITABLE, data[(a - s) / 4096]),
                    ),
                forall|a: u64| !in_pages(a, s, k as int) ==> #[trigger] self.mapper.mapped(a) == old(self).mapper.mapped(a),
                forall|a: u64|
                    old(self).vmm.base() <= a < old(self).vmm.limit() && !(s <= a < s + k * 4096)
                        ==> #[trigger] self.mapper.mapped(a) == old(self).mapper.mapped(a),
                forall|a: u64| s <= a < old(self).vmm.limit() ==> #[trigger] old(self).mapper.mapped(a).is_none(),
            decreases pages - k,
        {
            proof {
                self.vmm.lemma_bounds();
            }
            let page = Page(VirtAddr(start + k * 4096));
            let ghost va = page.0.0 as u64;
            let ghost pend = self.pmm.pending();
            let ghost tabs = self.mapper.table_frames();
            let ghost map_before = self.mapper;
            proof {
                self.pmm.lemma_wf_pending();
                assert(va == s + k * 4096);
                map_before.lemma_tables_needed_bound(va);
            }
            let frame = match self.pmm.allocate_frame() {
                Ok(frame) => frame,
                Err(_) => {
                    proof {
                        self.vmm.lemma_bounds();
                    }
                    let ghost mid = self.mapper;
                    let ghost returned = self.pmm.pending();
                    self.release_pages(start, k, Ghost(data), Ghost(self.vmm.base()), Ghost(self.vmm.limit()));
                    proof {
                        lemma_failure_pending(old_pending, self.pmm.pending(), self.mapper.table_frames(), data, returned);
                        assert forall|vb: u64| !in_pages(vb, s, pages as int) implies #[trigger] self.mapper.mapped(vb)
                            == old(self).mapper.mapped(vb) by {
                            if in_pages(vb, s, k as int) {
                                let x = choose|x: int| 0 <= x < k && page_number(vb) == #[trigger] page_number((s + 4096 * x) as u64);
                                assert(0 <= x < pages && page_number(vb) == page_number((s + 4096 * x) as u64));
                            }
                        }
                        assert forall|a: u64| old(self).vmm.base() <= a < old(self).vmm.limit() implies #[trigger] self.mapper.mapped(a)
                            == old(self).mapper.mapped(a) by {
                            if s <= a < s + k * 4096 {
                                assert(old(self).mapper.mapped(a).is_none());
                            } else {
                                assert(mid.mapped(a) == old(self).mapper.mapped(a));
                            }
                        }
                        self.lemma_restore_wf(old(self));
                    }
                    return Err(AllocError::PhysAllocError(PhysAllocError));
                },
            };
            let ghost pend1 = self.pmm.pending();
            proof {
                assert(map_before.mapped(va).is_none());
                assert(!tabs.contains(frame.0.0)) by {
                    if tabs.contains(frame.0.0) {
                        let t = choose|t: int| 0 <= t < tabs.len() && tabs[t] == frame.0.0;
                        assert(pend[0] != tabs[t] as int);
                    }
                }
                assert(frames_disjoint(pend1, tabs)) by {
                    assert forall|x: int, t: int| 0 <= x < pend1.len() && 0 <= t < tabs.len() implies pend1[x]
                        != tabs[t] as int by {
                        assert(pend1[x] == pend[x + 1]);
                    }
                }
                assert((PRESENT | WRITABLE) & PRESENT == PRESENT) by (bit_vector);
            }
            let result = self.mapper.map_page(page, frame, PageFlags { bits: PRESENT | WRITABLE }, &mut self.pmm);
            let ghost pend2 = self.pmm.pending();
            let ghost added = self.mapper.table_frames().len() - tabs.len();
            proof {
                assert(self.mapper.table_frames().subrange(0, tabs.len() as int) == tabs);
                assert forall|x: int| 0 <= x < added implies #[trigger] self.mapper.table_frames()[tabs.len() + x] as int == pend1[x] by {}
                assert(pend2 == pend1.skip(added));
            }
            proof {
                assert forall|x: int| #[trigger] pend2.contains(x) implies pend1.contains(x) by {
                    let y = choose|y: int| 0 <= y < pend2.len() && pend2[y] == x;
                    assert(pend1[y + added] == x);
                }
                assert forall|x: int| #[trigger] pend1.contains(x) implies pend.contains(x) by {
                    let y = choose|y: int| 0 <= y < pend1.len() && pend1[y] == x;
                    assert(pend[y + 1] == x);
                }
                assert(!pend1.contains(frame.addr())) by {
                    if pend1.contains(frame.addr()) {
                        let y = choose|y: int| 0 <= y < pend1.len() && pend1[y] == frame.addr();
                        assert(pend[y + 1] == pend[0]);
                    }
                }
                assert(pend.contains(frame.addr())) by {
                    assert(pend[0] == frame.addr());
                }
            }
            if result.is_err() {
                proof {
                    self.pmm.lemma_wf_pending();
                    assert(!pend2.contains(frame.addr()));
                    map_before.lemma_huge_mapped_is_mapped(va);
                    assert(result != Err::<(), MapError>(MapError::PageAlreadyMapped));
                    assert(result matches Err(MapError::PhysAllocError(_)));
                    assert(pend2.len() == 0);
                }
                self.pmm.deallocate_frame(frame);
                proof {
                    self.lemma_data_stays_free(data, pend, pend1, tabs, frame.0.0, added);
                    self.vmm.lemma_bounds();
                    assert forall|j: int| 0 <= j < k implies !self.pmm.pending().contains(#[trigger] data[j] as int) by {
                        assert(data[j] as int != frame.addr());
                        if self.pmm.pending().contains(data[j] as int) {
                            let y = choose|y: int| 0 <= y < self.pmm.pending().len() && self.pmm.pending()[y] == data[j] as int;
                            assert(y > 0);
                            assert(pend2[y - 1] == data[j] as int);
                        }
                    }
                }
                let ghost mid = self.mapper;
                let ghost returned = self.pmm.pending();
                proof {
                    lemma_step_accounted(old_pending, pend, pend1, pend2, frame.0.0, added, tabs, self.mapper.table_frames(), data);
                    assert(returned == seq![frame.addr()] + pend2);
                    assert forall|x: int| #[trigger] old_pending.contains(x) implies returned.contains(x) || holds_frame(data, x)
                        || holds_frame(self.mapper.table_frames(), x) by {
                        if holds_frame(data.push(frame.0.0), x) {
                            let j = choose|j: int| 0 <= j < data.len() + 1 && #[trigger] data.push(frame.0.0)[j] as int == x;
                            if j < data.len() {
                                assert(data[j] as int == x);
                            } else {
                                assert(returned[0] == x);
                            }
                        }
                    }
                    assert forall|x: int| #[trigger] returned.contains(x) implies old_pending.contains(x) by {
                        let y = choose|y: int| 0 <= y < returned.len() && returned[y] == x;
                        assert(y == 0);
                    }
                }
                self.release_pages(start, k, Ghost(data), Ghost(self.vmm.base()), Ghost(self.vmm.limit()));
                proof {
                    lemma_failure_pending(old_pending, self.pmm.pending(), self.mapper.table_frames(), data, returned);
                    assert forall|vb: u64| !in_pages(vb, s, pages as int) implies #[trigger] self.mapper.mapped(vb)
                    == old(self).mapper.mapped(vb) by {
                    if in_pages(vb, s, k as int) {
                        let x = choose|x: int| 0 <= x < k && page_number(vb) == #[trigger] page_number((s + 4096 * x) as u64);
                        assert(0 <= x < pages && page_number(vb) == page_number((s + 4096 * x) as u64));
                    }
                    }
                    assert forall|a: u64| old(self).vmm.base() <= a < old(self).vmm.limit() implies #[trigger] self.mapper.mapped(a)
                        == old(self).mapper.mapped(a) by {
                        if s <= a < s + k * 4096 {
                            assert(old(self).mapper.mapped(a).is_none());
                        } else {
                            assert(mid.mapped(a) == old(self).mapper.mapped(a));
                        }
                    }
                    self.lemma_restore_wf(old(self));
                }
                return Err(AllocError::PhysAllocError(PhysAllocError));
            }
            proof {
                let d2 = data.push(frame.0.0);
                lemma_step_accounted(old_pending, pend, pend1, pend2, frame.0.0, added, tabs, self.mapper.table_frames(), data);
                assert forall|a: u64| s <= a < s + (k + 1) * 4096 implies #[trigger] self.mapper.walk_entry(a, 0)
                    == Some(entry_word(PRESENT | WRITABLE, d2[(a - s) / 4096])) by {
                    if a >= s + k * 4096 {
                        lemma_page_numbers_same(a, va);
                        self.mapper.lemma_walk_same_page(a, va, 0);
                        assert((a - s) / 4096 == k);
                    } else {
                        lemma_page_numbers_differ(a, va);
                        let d = data[(a - s) / 4096];
                        assert(valid_frame_addr(d as int));
                        lemma_entry_word(PRESENT | WRITABLE, d);
                        assert((1u64 | 2u64) & 1u64 == 1u64) by (bit_vector);
                        assert(entry_present(map_before.walk_entry(a, 0).unwrap()));
                    }
                }
                assert forall|a: u64| !in_pages(a, s, k + 1) implies #[trigger] self.mapper.mapped(a)
                    == old(self).mapper.mapped(a) by {
                    assert(va == (s + 4096 * k) as u64);
                    if in_pages(a, s, k as int) {
                        let j = choose|j: int| 0 <= j < k && page_number(a) == #[trigger] page_number((s + 4096 * j) as u64);
                        assert(0 <= j < k + 1 && page_number(a) == page_number((s + 4096 * j) as u64));
                    }
                    if page_number(a) == page_number(va) {
                        assert(0 <= k < k + 1 && page_number(a) == page_number((s + 4096 * k) as u64));
                    }
                }
                self.lemma_data_stays_free(data, pend, pend1, tabs, frame.0.0, added);
                assert forall|a: u64| s <= a < s + (k + 1) * 4096 implies #[trigger] self.mapper.mapped(a) == Some(d2[(a - s) / 4096]) by {
                    if a >= s + k * 4096 {
                        lemma_page_numbers_same(a, va);
                        self.mapper.lemma_mapped_same_page(a, va);
                        assert((a - s) / 4096 == k);
                    } else {
                        lemma_page_numbers_differ(a, va);
                    }
                }
                assert forall|a: u64|
                    old(self).vmm.base() <= a < old(self).vmm.limit() && !(s <= a < s + (k + 1) * 4096)
                        implies #[trigger] self.mapper.mapped(a) == old(self).mapper.mapped(a) by {
                    lemma_page_numbers_differ(a, va);
                }
                assert forall|j: int| 0 <= j < k + 1 implies {
                    &&& valid_frame_addr(#[trigger] d2[j] as int)
                    &&& !self.pmm.pending().contains(d2[j] as int)
                    &&& old_pending.contains(d2[j] as int)
                    &&& !self.mapper.table_frames().contains(d2[j])
                } by {
                    if j < k {
                        assert(d2[j] == data[j]);
                    }
                }
                assert(d2.no_duplicates()) by {
                    assert forall|x: int, y: int| 0 <= x < d2.len() && 0 <= y < d2.len() && x != y implies d2[x] != d2[y] by {
                        if x < k && y == k {
                            assert(!pend.contains(data[x] as int));
                        } else if y < k && x == k {
                            assert(!pend.contains(data[y] as int));
                        }
                    }
                }
                data = d2;
            }
            k = k + 1;
        }
        proof {
            assert forall|a: u64, b: u64|
                s <= a < s + pages * 4096 && s <= b < s + pages * 4096 && a / 4096 != b / 4096
                    implies #[trigger] self.mapper.mapped(a) != #[trigger] self.mapper.mapped(b) by {
                assert((a - s) / 4096 != (b - s) / 4096);
            }
        }
        Ok(VirtAddr(start))
    }

    /// Reserves as many fresh pages as `frames` holds and maps them, in
    /// order, to those frames with the flags `options` ask for; no new data
    /// frame is taken. An empty range gives the non-null sentinel address 1
    /// and changes nothing. When frames for tables run out part way, the
    /// pages mapped so far stay mapped and the reserved range is kept.
    pub fn map_frames(&mut self, frames: Range<Frame>, options: MapOptions) -> (r: Result<VirtAddr, AllocError>)
        requires
            old(self).wf(),
            frames.start.addr() % 4096 == 0,
            frames.start.addr() <= frames.end.addr() <= MAX_PHYS_ADDR,
            (frames.end.addr() - frames.start.addr()) / 4096 <= usize::MAX,
        ensures
            final(self).wf(),
            map_frames_outcome(*old(self), *final(self), frames, options, r),
    {
        let n = match Frame::steps_between(&frames.start, &frames.end) {
            Some(n) => n,
            None => 0,
        };
        if n == 0 {
            return Ok(VirtAddr(1));
        }
        let region = match self.vmm.allocate_region(n) {
            Ok(region) => region,
            Err(err) => return Err(AllocError::VirtAllocError(err)),
        };
        let flags = map_flags(&options);
        let start = region.start.0.0;
        let first = frames.start.0.0;
        let ghost s = start as int;
        proof {
            assert(old(self).pmm.pending().skip(0) =~= old(self).pmm.pending());
            assert(self.mapper.table_frames().subrange(0, self.mapper.table_frames().len() as int) =~= self.mapper.table_frames());
        }
        let mut k: usize = 0;
        while k < n
            invariant
                old(self).wf(),
                k <= n,
                n == (frames.end.addr() - frames.start.addr()) / 4096,
                first == frames.start.addr(),
                first % 4096 == 0,
                first + n * 4096 <= MAX_PHYS_ADDR,
                flags.bits & PRESENT == PRESENT,
                s == old(self).vmm.cursor(),
                s + n * 4096 == self.vmm.cursor(),
                self.vmm.base() == old(self).vmm.base(),
                self.vmm.limit() == old(self).vmm.limit(),
                self.vmm.cursor() <= self.vmm.limit(),
                self.vmm.limit() - self.vmm.base() <= WINDOW_MAX,
                old(self).vmm.base() <= s,
                s % 4096 == 0,
                start == s,
                self.pmm.wf(),
                self.mapper.wf(),
                frames_disjoint(self.pmm.pending(), self.mapper.table_frames()),
                forall|a: u64|
                    s <= a < s + k * 4096 ==> #[trigger] self.mapper.mapped(a) == Some(
                        (first + (a - s) / 4096 * 4096) as u64,
                    ),
                forall|a: u64|
                    s <= a < s + k * 4096 ==> #[trigger] self.mapper.walk_entry(a, 0) == Some(
                        entry_word(flags.bits, (first + (a - s) / 4096 * 4096) as u64),
                    ),
                flags.bits == option_flags(options),
                forall|a: u64| !in_pages(a, s, k as int) ==> #[trigger] self.mapper.mapped(a) == old(self).mapper.mapped(a),
                tables_grown_from(
                    old(self).mapper.table_frames(),
                    self.mapper.table_frames(),
                    old(self).pmm.pending(),
                    self.pmm.pending(),
                ),
                self.mapper.table_frames().len() - old(self).mapper.table_frames().len() <= 3 * k,
                forall|a: u64|
                    old(self).vmm.base() <= a < old(self).vmm.limit() && !(s <= a < s + k * 4096)
                        ==> #[trigger] self.mapper.mapped(a) == old(self).mapper.mapped(a),
            decreases n - k,
        {
            proof {
                self.vmm.lemma_bounds();
                assert(k * 4096 + 4096 <= n * 4096);
            }
            let page = Page(VirtAddr(start + k * 4096));
            let frame = Frame(PhysAddr(first + (k as u64) * 4096));
            let ghost va = page.0.0 as u64;
            proof {
                assert(old(self).mapper.mapped(va).is_none());
                assert(valid_frame_addr(frame.addr()));
            }
            let ghost map_before = self.mapper;
            let ghost pend_before = self.pmm.pending();
            proof {
                map_before.lemma_tables_needed_bound(va);
            }
            let result = self.mapper.map_page(page, frame, flags, &mut self.pmm);
            proof {
                lemma_tables_grown_trans(
                    old(self).mapper.table_frames(),
                    map_before.table_frames(),
                    self.mapper.table_frames(),
                    old(self).pmm.pending(),
                    pend_before,
                    self.pmm.pending(),
                );
                assert forall|a: u64| !in_pages(a, s, k + 1) implies #[trigger] self.mapper.mapped(a)
                    == old(self).mapper.mapped(a) by {
                    assert(va == (s + 4096 * k) as u64);
                    if in_pages(a, s, k as int) {
                        let j = choose|j: int| 0 <= j < k && page_number(a) == #[trigger] page_number((s + 4096 * j) as u64);
                        assert(0 <= j < k + 1 && page_number(a) == page_number((s + 4096 * j) as u64));
                    }
                    if page_number(a) == page_number(va) {
                        assert(0 <= k < k + 1 && page_number(a) == page_number((s + 4096 * k) as u64));
                    }
                }
            }
            if result.is_err() {
                proof {
                    map_before.lemma_huge_mapped_is_mapped(va);
                    assert(result matches Err(MapError::PhysAllocError(_)));
                    assert(map_before.tables_needed(va) > pend_before.len());
                    assert(pend_before.len() == old(self).pmm.pending().len() - (map_before.table_frames().len()
                        - old(self).mapper.table_frames().len()));
                    assert(old(self).pmm.pending().len() < 3 * n);
                    assert forall|vb: u64| !in_pages(vb, s, n as int) implies #[trigger] self.mapper.mapped(vb)
                        == old(self).mapper.mapped(vb) by {
                        if in_pages(vb, s, k + 1) {
                            let x = choose|x: int| 0 <= x < k + 1 && page_number(vb) == #[trigger] page_number((s + 4096 * x) as u64);
                            assert(0 <= x < n && page_number(vb) == page_number((s + 4096 * x) as u64));
                        }
                    }
                    assert forall|a: u64| s + k * 4096 <= a < s + n * 4096 implies #[trigger] self.mapper.mapped(a).is_none() by {
                        assert(old(self).mapper.mapped(a).is_none());
                    }
                    assert(0 <= k < n);
                    assert(mapped_prefix(*self, first as int, s, s + n * 4096, k as int));
                    assert forall|a: u64| self.vmm.cursor() <= a < self.vmm.limit() implies #[trigger] self.mapper.mapped(a).is_none() by {
                        assert(old(self).mapper.mapped(a).is_none());
                    }
                }
                return Err(AllocError::PhysAllocError(PhysAllocError));
            }
            proof {
                assert forall|a: u64| s <= a < s + (k + 1) * 4096 implies #[trigger] self.mapper.mapped(a) == Some(
                    (first + (a - s) / 4096 * 4096) as u64,
                ) by {
                    if a >= s + k * 4096 {
                        lemma_page_numbers_same(a, va);
                        self.mapper.lemma_mapped_same_page(a, va);
                        assert((a - s) / 4096 == k);
                    } else {
                        lemma_page_numbers_differ(a, va);
                    }
                }
                assert forall|a: u64|
                    old(self).vmm.base() <= a < old(self).vmm.limit() && !(s <= a < s + (k + 1) * 4096)
                        implies #[trigger] self.mapper.mapped(a) == old(self).mapper.mapped(a) by {
                    lemma_page_numbers_differ(a, va);
                }
                assert forall|a: u64| s <= a < s + (k + 1) * 4096 implies #[trigger] self.mapper.walk_entry(a, 0)
                    == Some(entry_word(flags.bits, (first + (a - s) / 4096 * 4096) as u64)) by {
                    if a >= s + k * 4096 {
                        lemma_page_numbers_same(a, va);
                        self.mapper.lemma_walk_same_page(a, va, 0);
                        assert((a - s) / 4096 == k);
                    } else {
                        lemma_page_numbers_differ(a, va);
                        let d = (first + (a - s) / 4096 * 4096) as u64;
                        assert((a - s) / 4096 < k);
                        assert(valid_frame_addr(d as int));
                        lemma_entry_word(flags.bits, d);
                        assert(entry_present(map_before.walk_entry(a, 0).unwrap()));
                    }
                }
            }
            k = k + 1;
        }
        Ok(VirtAddr(start))
    }

    /// A consistent address space keeps its cursor inside the window and
    /// maps nothing at or above the cursor in the window.
    pub proof fn lemma_wf_window(&self)
        requires
            self.wf(),
        ensures
            self.base() <= self.cursor() <= self.limit(),
            forall|a: u64| self.cursor() <= a < self.limit() ==> #[trigger] self.mapped(a).is_none(),
    {
    }

    /// The frame that `page` maps to, if any.
    pub fn translate_page(&self, page: Page) -> (r: Option<Frame>)
        requires
            self.wf(),
        ensures
            r.is_some() == self.mapped(page.0.0 as u64).is_some(),
            r.is_some() ==> r.unwrap().0.0 == self.mapped(page.0.0 as u64).unwrap(),
    {
        self.mapper.translate_page(page)
    }

    /// Number of frames the frame allocator can still hand out, or `None`
    /// when that number does not fit in a `usize`.
    pub fn free_frames(&self) -> (r: Option<usize>)
        requires
            self.wf(),
        ensures
            r.is_some() <==> self.free_count() <= usize::MAX,
            r.is_some() ==> r.unwrap() == self.free_count(),
    {
        self.pmm.free_frames()
    }

    /// After a failed step, the pages that were mapped are gone again and
    /// the address space is as consistent as before.
    proof fn lemma_restore_wf(&self, old: &KernelAddrSpace)
        requires
            old.wf(),
            self.pmm.wf(),
            self.mapper.wf(),
            frames_disjoint(self.pmm.pending(), self.mapper.table_frames()),
            self.vmm.base() == old.vmm.base(),
            self.vmm.limit() == old.vmm.limit(),
            old.vmm.cursor() <= self.vmm.cursor() <= self.vmm.limit(),
            self.vmm.cursor() % 4096 == 0,
            forall|a: u64|
                old.vmm.base() <= a < old.vmm.limit() ==> #[trigger] self.mapper.mapped(a) == old.mapper.mapped(a),
        ensures
            self.wf(),
    {
        assert forall|a: u64| self.vmm.cursor() <= a < self.vmm.limit() implies #[trigger] self.mapper.mapped(a).is_none() by {
            assert(old.mapper.mapped(a).is_none());
        }
    }

    /// The frames of the pages mapped so far stay out of the allocator and
    /// out of the tables when one more frame is taken for a page and the
    /// mapper takes frames for tables.
    proof fn lemma_data_stays_free(
        &self,
        data: Seq<u64>,
        pend: Seq<int>,
        pend1: Seq<int>,
        tabs: Seq<u64>,
        f: u64,
        added: int,
    )
        requires
            pend.len() > 0,
            pend.no_duplicates(),
            pend[0] == f as int,
            pend1 == pend.drop_first(),
            added == self.mapper.table_frames().len() - tabs.len(),
            0 <= added <= pend1.len(),
            self.mapper.table_frames().subrange(0, tabs.len() as int) == tabs,
            forall|x: int| 0 <= x < added ==> #[trigger] self.mapper.table_frames()[tabs.len() + x] as int == pend1[x],
            !tabs.contains(f),
            forall|j: int|
                0 <= j < data.len() ==> {
                    &&& !pend.contains(#[trigger] data[j] as int)
                    &&& !tabs.contains(data[j])
                },
        ensures
            !self.mapper.table_frames().contains(f),
            forall|j: int| 0 <= j < data.len() ==> !self.mapper.table_frames().contains(#[trigger] data[j]),
    {
        let tf = self.mapper.table_frames();
        assert forall|t: int| 0 <= t < tf.len() implies tf[t] != f by {
            if t < tabs.len() {
                assert(tf.subrange(0, tabs.len() as int)[t] == tabs[t]);
            } else {
                assert(tf[tabs.len() + (t - tabs.len())] as int == pend1[t - tabs.len()]);
                assert(pend1[t - tabs.len()] == pend[t - tabs.len() + 1]);
            }
        }
        assert forall|j: int| 0 <= j < data.len() implies !tf.contains(#[trigger] data[j]) by {
            assert forall|t: int| 0 <= t < tf.len() implies tf[t] != data[j] by {
                if t < tabs.len() {
                    assert(tf.subrange(0, tabs.len() as int)[t] == tabs[t]);
                } else {
                    assert(tf[tabs.len() + (t - tabs.len())] as int == pend1[t - tabs.len()]);
                    assert(pend1[t - tabs.len()] == pend[t - tabs.len() + 1]);
                }
            }
        }
    }

    /// Unmaps the `count` pages from `start` on, in order, and gives each
    /// page's frame back to the frame allocator.
    fn release_pages(
        &mut self,
        start: usize,
        count: usize,
        data: Ghost<Seq<u64>>,
        lo: Ghost<int>,
        hi: Ghost<int>,
    )
        requires
            old(self).pmm.wf(),
            old(self).mapper.wf(),
            frames_disjoint(old(self).pmm.pending(), old(self).mapper.table_frames()),
            start % 4096 == 0,
            lo@ <= start,
            start + count * 4096 <= hi@,
            hi@ <= usize::MAX,
            hi@ - lo@ <= WINDOW_MAX,
            data@.len() == count,
            data@.no_duplicates(),
            forall|j: int|
                0 <= j < count ==> {
                    &&& valid_frame_addr(#[trigger] data@[j] as int)
                    &&& !old(self).pmm.pending().contains(data@[j] as int)
                    &&& !old(self).mapper.table_frames().contains(data@[j])
                },
            forall|a: u64|
                start <= a < start + count * 4096 ==> #[trigger] old(self).mapper.mapped(a) == Some(
                    data@[(a - start) / 4096],
                ),
            forall|a: u64| start <= a < start + count * 4096 ==> #[trigger] old(self).mapper.walk_entry(a, 0).is_some(),
        ensures
            final(self).pmm.wf(),
            final(self).mapper.wf(),
            frames_disjoint(final(self).pmm.pending(), final(self).mapper.table_frames()),
            final(self).vmm == old(self).vmm,
            final(self).mapper.table_frames() == old(self).mapper.table_frames(),
            final(self).pmm.pending().len() == old(self).pmm.pending().len() + count,
            forall|a: u64| start <= a < start + count * 4096 ==> #[trigger] final(self).mapper.mapped(a).is_none(),
            forall|a: u64| !in_pages(a, start as int, count as int) ==> #[trigger] final(self).mapper.mapped(a) == old(self).mapper.mapped(a),
            forall|x: int|
                #[trigger] final(self).pmm.pending().contains(x) <==> old(self).pmm.pending().contains(x) || holds_frame(
                    data@,
                    x,
                ),
            forall|a: u64|
                lo@ <= a < hi@ && !(start <= a < start + count * 4096) ==> #[trigger] final(self).mapper.mapped(a)
                    == old(self).mapper.mapped(a),
    {
        let mut j: usize = 0;
        while j < count
            invariant
                j <= count,
                self.pmm.wf(),
                self.mapper.wf(),
                frames_disjoint(self.pmm.pending(), self.mapper.table_frames()),
                self.vmm == old(self).vmm,
                self.mapper.table_frames() == old(self).mapper.table_frames(),
                self.pmm.pending().len() == old(self).pmm.pending().len() + j,
                start % 4096 == 0,
                lo@ <= start,
                start + count * 4096 <= hi@,
                hi@ <= usize::MAX,
                hi@ - lo@ <= WINDOW_MAX,
                data@.len() == count,
                data@.no_duplicates(),
                forall|i: int|
                    j <= i < count ==> {
                        &&& valid_frame_addr(#[trigger] data@[i] as int)
                        &&& !self.pmm.pending().contains(data@[i] as int)
                        &&& !self.mapper.table_frames().contains(data@[i])
                    },
                forall|a: u64| start <= a < start + j * 4096 ==> #[trigger] self.mapper.mapped(a).is_none(),
                forall|a: u64| start + j * 4096 <= a < start + count * 4096 ==> #[trigger] self.mapper.walk_entry(a, 0).is_some(),
                forall|a: u64| !in_pages(a, start as int, j as int) ==> #[trigger] self.mapper.mapped(a) == old(self).mapper.mapped(a),
                forall|x: int|
                    #[trigger] self.pmm.pending().contains(x) <==> old(self).pmm.pending().contains(x) || holds_frame(
                        data@.subrange(0, j as int),
                        x,
                    ),
                forall|a: u64|
                    start + j * 4096 <= a < start + count * 4096 ==> #[trigger] self.mapper.mapped(a) == Some(
                        data@[(a - start) / 4096],
                    ),
                forall|a: u64|
                    lo@ <= a < hi@ && !(start <= a < start + count * 4096) ==> #[trigger] self.mapper.mapped(a)
                        == old(self).mapper.mapped(a),
            decreases count - j,
        {
            let page = Page(VirtAddr(start + j * 4096));
            let ghost va = page.0.0 as u64;
            let ghost before = self.mapper;
            let ghost pend = self.pmm.pending();
            assert(before.mapped(va) == Some(data@[j as int])) by {
                assert((va - start) / 4096 == j);
            }
            proof {
                before.lemma_leaf_walk_not_huge(va);
            }
            if let Ok(frame) = self.mapper.unmap_page(page) {
                proof {
                    self.pmm.lemma_wf_pending();
                }
                self.pmm.deallocate_frame(frame);
                proof {
                    let f = frame.0.0;
                    assert(f == data@[j as int]);
                    assert(self.pmm.pending() == seq![f as int] + pend);
                    assert forall|x: int|
                        #[trigger] self.pmm.pending().contains(x) <==> old(self).pmm.pending().contains(x) || holds_frame(
                            data@.subrange(0, j + 1),
                            x,
                        ) by {
                        let d0 = data@.subrange(0, j as int);
                        let d1 = data@.subrange(0, j + 1);
                        if self.pmm.pending().contains(x) {
                            let y = choose|y: int| 0 <= y < self.pmm.pending().len() && self.pmm.pending()[y] == x;
                            if y == 0 {
                                assert(d1[j as int] as int == x);
                            } else {
                                assert(pend[y - 1] == x);
                                assert(pend.contains(x));
                                if holds_frame(d0, x) {
                                    let i = choose|i: int| 0 <= i < d0.len() && #[trigger] d0[i] as int == x;
                                    assert(d1[i] as int == x);
                                }
                            }
                        }
                        if old(self).pmm.pending().contains(x) || holds_frame(d1, x) {
                            if old(self).pmm.pending().contains(x) {
                                assert(pend.contains(x));
                            } else {
                                let i = choose|i: int| 0 <= i < d1.len() && #[trigger] d1[i] as int == x;
                                if i < j {
                                    assert(d0[i] as int == x);
                                    assert(pend.contains(x));
                                } else {
                                    assert(self.pmm.pending()[0] == x);
                                }
                            }
                            if pend.contains(x) {
                                let y = choose|y: int| 0 <= y < pend.len() && pend[y] == x;
                                assert(self.pmm.pending()[y + 1] == x);
                            }
                        }
                    }
                    assert forall|i: int| j + 1 <= i < count implies {
                        &&& valid_frame_addr(#[trigger] data@[i] as int)
                        &&& !self.pmm.pending().contains(data@[i] as int)
                        &&& !self.mapper.table_frames().contains(data@[i])
                    } by {
                        assert(data@[i] != data@[j as int]);
                        if self.pmm.pending().contains(data@[i] as int) {
                            let x = choose|x: int| 0 <= x < self.pmm.pending().len() && self.pmm.pending()[x] == data@[i] as int;
                            if x > 0 {
                                assert(pend[x - 1] == data@[i] as int);
                            }
                        }
                    }
                    assert(frames_disjoint(self.pmm.pending(), self.mapper.table_frames())) by {
                        assert forall|x: int, t: int|
                            0 <= x < self.pmm.pending().len() && 0 <= t < self.mapper.table_frames().len() implies self.pmm.pending()[x]
                                != self.mapper.table_frames()[t] as int by {
                            if x > 0 {
                                assert(self.pmm.pending()[x] == pend[x - 1]);
                            } else {
                                assert(!old(self).mapper.table_frames().contains(data@[j as int]));
                                assert(self.mapper.table_frames()[t] != f);
                            }
                        }
                    }
                    assert forall|a: u64| !in_pages(a, start as int, j + 1) implies #[trigger] self.mapper.mapped(a)
                        == old(self).mapper.mapped(a) by {
                        assert(va == (start + 4096 * j) as u64);
                        if in_pages(a, start as int, j as int) {
                            let x = choose|x: int| 0 <= x < j && page_number(a) == #[trigger] page_number((start + 4096 * x) as u64);
                            assert(0 <= x < j + 1 && page_number(a) == page_number((start + 4096 * x) as u64));
                        }
                        if page_number(a) == page_number(va) {
                            assert(0 <= j < j + 1 && page_number(a) == page_number((start + 4096 * j) as u64));
                        }
                    }
                    assert forall|a: u64| start <= a < start + (j + 1) * 4096 implies #[trigger] self.mapper.mapped(a).is_none() by {
                        if a >= start + j * 4096 {
                            lemma_page_numbers_same(a, va);
                            self.mapper.lemma_mapped_same_page(a, va);
                        } else {
                            lemma_page_numbers_differ(a, va);
                        }
                    }
                    assert forall|a: u64|
                        start + (j + 1) * 4096 <= a < start + count * 4096 implies #[trigger] self.mapper.mapped(a) == Some(
                            data@[(a - start) / 4096],
                        ) by {
                        lemma_page_numbers_differ(a, va);
                    }
                    assert forall|a: u64|
                        lo@ <= a < hi@ && !(start <= a < start + count * 4096) implies #[trigger] self.mapper.mapped(a)
                            == old(self).mapper.mapped(a) by {
                        lemma_page_numbers_differ(a, va);
                    }
                }
            }
            j = j + 1;
        }
        assert(data@.subrange(0, count as int) =~= data@);
    }
}

/// Variants of address space; only the kernel's exists today.
enum AddrSpaceInner {
    Kernel(KernelAddrSpace),
}

/// An address space: where memory is allocated and frames are mapped.
pub struct AddrSpace {
    inner: AddrSpaceInner,
}

impl AddrSpace {
    /// The kernel address space inside.
    pub closed spec fn space(&self) -> KernelAddrSpace {
        match self.inner {
            AddrSpaceInner::Kernel(k) => k,
        }
    }

    /// The kernel address space over `window`, the firmware memory map
    /// `memmap` and the existing page tables `mapper`.
    pub fn kernel(window: Range<Page>, memmap: Vec<MemmapEntry>, mapper: PageMapper) -> (r: AddrSpace)
        requires
            window.start.addr() % 4096 == 0,
            window.start.addr() <= window.end.addr(),
            window.end.addr() - window.start.addr() <= WINDOW_MAX,
            memmap_well_formed(memmap@),
            mapper.wf(),
            frames_disjoint(memmap_frames(memmap@, 0), mapper.table_frames()),
            forall|a: u64| window.start.addr() <= a < window.end.addr() ==> #[trigger] mapper.mapped(a).is_none(),
        ensures
            r.space().wf(),
            r.space().base() == window.start.addr(),
            r.space().cursor() == window.start.addr(),
            r.space().limit() == window.end.addr(),
            r.space().pending() == memmap_frames(memmap@, 0),
            r.space().tables() == mapper,
    {
        AddrSpace { inner: AddrSpaceInner::Kernel(KernelAddrSpace::new(window, memmap, mapper)) }
    }

    /// The page tables, for writing them out to memory.
    pub fn mapper(&self) -> (r: &PageMapper)
        ensures
            *r == self.space().tables(),
    {
        match &self.inner {
            AddrSpaceInner::Kernel(k) => k.mapper(),
        }
    }

    /// Fresh backed memory of `pages` pages; see `KernelAddrSpace::allocate`.
    pub fn allocate(&mut self, pages: usize) -> (r: Result<VirtAddr, AllocError>)
        requires
            old(self).space().wf(),
            pages >= 1,
        ensures
            final(self).space().wf(),
            allocate_outcome(old(self).space(), final(self).space(), pages as int, r),
    {
        match &mut self.inner {
            AddrSpaceInner::Kernel(k) => k.allocate(pages),
        }
    }

    /// A mapping of given frames; see `KernelAddrSpace::map_frames`.
    pub fn map_frames(&mut self, frames: Range<Frame>, map_options: MapOptions) -> (r: Result<VirtAddr, AllocError>)
        requires
            old(self).space().wf(),
            frames.start.addr() % 4096 == 0,
            frames.start.addr() <= frames.end.addr() <= MAX_PHYS_ADDR,
            (frames.end.addr() - frames.start.addr()) / 4096 <= usize::MAX,
        ensures
            final(self).space().wf(),
            map_frames_outcome(old(self).space(), final(self).space(), frames, map_options, r),
    {
        match &mut self.inner {
            AddrSpaceInner::Kernel(k) => k.map_frames(frames, map_options),
        }
    }

    /// The frame that `page` maps to, if any.
    pub fn translate_page(&self, page: Page) -> (r: Option<Frame>)
        requires
            self.space().wf(),
        ensures
            r.is_some() == self.space().mapped(page.0.0 as u64).is_some(),
            r.is_some() ==> r.unwrap().0.0 == self.space().mapped(page.0.0 as u64).unwrap(),
    {
        match &self.inner {
            AddrSpaceInner::Kernel(k) => k.translate_page(page),
        }
    }

    /// Number of frames the frame allocator can still hand out, or `None`
    /// when that number does not fit in a `usize`.
    pub fn free_frames(&self) -> (r: Option<usize>)
        requires
            self.space().wf(),
        ensures
            r.is_some() <==> self.space().free_count() <= usize::MAX,
            r.is_some() ==> r.unwrap() == self.space().free_count(),
    {
        match &self.inner {
            AddrSpaceInner::Kernel(k) => k.free_frames(),
        }
    }
}

} // verus!
