//! Physical frame allocation: frames come from the firmware memory map,
//! front to back, and freed frames are reused last-in first-out.

use vstd::prelude::*;

use crate::types::{Frame, PhysAddr};

verus! {

/// First physical address past what the architecture can address.
pub const MAX_PHYS_ADDR: u64 = 0x10_0000_0000_0000;

/// Kind of a region in the firmware memory map.
#[derive(Debug, Clone, Copy, PartialEq, Eq, Structural)]
pub enum MemoryMapEntryType {
    Usable,
    Reserved,
    AcpiReclaimable,
    AcpiNvs,
    BadMemory,
    BootloaderReclaimable,
    KernelAndModules,
    Framebuffer,
}

/// One region of the firmware memory map.
#[derive(Debug, Clone, Copy, PartialEq, Eq, Structural)]
pub struct MemmapEntry {
    pub base: u64,
    pub len: u64,
    pub typ: MemoryMapEntryType,
}

/// No physical frame is left.
#[derive(Debug, Clone, Copy, PartialEq, Eq, Structural)]
pub struct PhysAllocError;

/// A page-aligned physical address that the architecture can address.
pub open spec fn valid_frame_addr(a: int) -> bool {
    &&& a % 4096 == 0
    &&& 0 <= a < MAX_PHYS_ADDR
}

/// The whole frames of the span `[base, base + len)`, lowest first.
pub open spec fn region_frames(base: int, len: int) -> Seq<int> {
    Seq::new((len / 4096) as nat, |k: int| base + 4096 * k)
}

/// The frames of the usable regions among `entries[i..]`, in map order.
pub open spec fn memmap_frames(entries: Seq<MemmapEntry>, i: int) -> Seq<int>
    decreases entries.len() - i,
{
    if i < 0 || i >= entries.len() {
        Seq::empty()
    } else {
        let e = entries[i];
        let here = if e.typ == MemoryMapEntryType::Usable {
            region_frames(e.base as int, e.len as int)
        } else {
            Seq::empty()
        };
        here + memmap_frames(entries, i + 1)
    }
}

/// What the firmware promises of its memory map: usable regions start on a
/// frame boundary, lie below the addressable limit, and do not overlap.
pub open spec fn memmap_well_formed(entries: Seq<MemmapEntry>) -> bool {
    &&& forall|i: int|
        0 <= i < entries.len() && #[trigger] entries[i].typ == MemoryMapEntryType::Usable ==> {
            &&& entries[i].base % 4096 == 0
            &&& entries[i].base + entries[i].len <= MAX_PHYS_ADDR
        }
    &&& forall|i: int, j: int|
        0 <= i < entries.len() && 0 <= j < entries.len() && i != j && #[trigger] entries[i].typ
            == MemoryMapEntryType::Usable && #[trigger] entries[j].typ == MemoryMapEntryType::Usable
            ==> entries[i].base + entries[i].len <= entries[j].base || entries[j].base + entries[j].len
            <= entries[i].base
}

/// Whether `y` lies in a usable region among `entries[i..]`.
pub open spec fn in_usable_from(entries: Seq<MemmapEntry>, i: int, y: int) -> bool {
    exists|j: int|
        i <= j < entries.len() && #[trigger] entries[j].typ == MemoryMapEntryType::Usable && entries[j].base
            <= y < entries[j].base + entries[j].len
}

/// The physical frame allocator.
///
/// Freed frames sit on a stack whose top is handed out first; once it is
/// empty, frames are carved in order from the current usable region of the
/// memory map, and then from the usable regions after it.
#[derive(Debug)]
pub struct Global {
    free: Vec<Frame>,
    current_start: u64,
    current_end: u64,
    entries: Vec<MemmapEntry>,
    next: usize,
}

impl Global {
    /// The freed frames, the one handed out next first.
    pub closed spec fn freelist(&self) -> Seq<int> {
        Seq::new(self.free@.len(), |k: int| self.free@[self.free@.len() - 1 - k].addr())
    }

    /// The frames still to be carved from the memory map, in order.
    pub closed spec fn unused_memmap(&self) -> Seq<int> {
        region_frames(self.current_start as int, self.current_end - self.current_start)
            + memmap_frames(self.entries@, self.next as int)
    }

    /// Every frame the allocator can still hand out, in the order in which
    /// successive calls of `allocate_frame` hand them out.
    pub open spec fn pending(&self) -> Seq<int> {
        self.freelist() + self.unused_memmap()
    }

    /// Internal consistency: the pending frames are distinct valid frames.
    pub closed spec fn wf(&self) -> bool {
        &&& self.current_start <= self.current_end
        &&& self.next <= self.entries@.len()
        &&& memmap_well_formed(self.entries@)
        &&& self.pending().no_duplicates()
        &&& forall|k: int| 0 <= k < self.pending().len() ==> valid_frame_addr(#[trigger] self.pending()[k])
    }

    /// The pending frames of a consistent allocator are distinct valid frames.
    pub proof fn lemma_wf_pending(&self)
        requires
            self.wf(),
        ensures
            self.pending().no_duplicates(),
            forall|k: int| 0 <= k < self.pending().len() ==> valid_frame_addr(#[trigger] self.pending()[k]),
    {
    }

    /// Number of frames the allocator can still hand out.
    pub open spec fn free_count(&self) -> nat {
        self.pending().len()
    }

    /// Creates an allocator over the firmware memory map `entries`.
    pub fn new(entries: Vec<MemmapEntry>) -> (r: Global)
        requires
            memmap_well_formed(entries@),
        ensures
            r.wf(),
            r.pending() == memmap_frames(entries@, 0),
    {
        let r = Global { free: Vec::new(), current_start: 0, current_end: 0, entries, next: 0 };
        proof {
            lemma_memmap_frames_facts(r.entries@, 0);
            assert(r.freelist() =~= Seq::<int>::empty());
            assert(region_frames(0, 0) =~= Seq::<int>::empty());
            assert(r.pending() =~= memmap_frames(r.entries@, 0));
        }
        r
    }

    /// Hands out the next pending frame: the most recently freed one if any,
    /// else the next whole frame of the memory map; fails when none is left.
    pub fn allocate_frame(&mut self) -> (r: Result<Frame, PhysAllocError>)
        requires
            old(self).wf(),
        ensures
            final(self).wf(),
            r.is_ok() <==> old(self).pending().len() > 0,
            r.is_ok() ==> r.unwrap().addr() == old(self).pending()[0] && final(self).pending()
                == old(self).pending().drop_first(),
            r.is_err() ==> final(self).pending() == old(self).pending(),
            old(self).freelist().len() > 0 ==> {
                &&& r == Ok::<Frame, PhysAllocError>(Frame(PhysAddr(old(self).freelist()[0] as u64)))
                &&& final(self).freelist() == old(self).freelist().drop_first()
                &&& final(self).unused_memmap() == old(self).unused_memmap()
            },
            old(self).freelist().len() == 0 ==> final(self).freelist().len() == 0,
    {
        match self.freelist_pop() {
            Some(frame) => Ok(frame),
            None => match self.memmap_pop() {
                Some(frame) => Ok(frame),
                None => Err(PhysAllocError),
            },
        }
    }

    /// Returns `frame` to the allocator; it is the next frame handed out.
    /// The caller gives up the frame: it must not be pending already.
    pub fn deallocate_frame(&mut self, frame: Frame)
        requires
            old(self).wf(),
            valid_frame_addr(frame.addr()),
            !old(self).pending().contains(frame.addr()),
        ensures
            final(self).wf(),
            final(self).pending() == seq![frame.addr()] + old(self).pending(),
            final(self).freelist() == seq![frame.addr()] + old(self).freelist(),
            final(self).unused_memmap() == old(self).unused_memmap(),
    {
        self.freelist_push(frame);
    }

    /// Number of frames the allocator can still hand out, or `None` when
    /// that number does not fit in a `usize`.
    pub fn free_frames(&self) -> (r: Option<usize>)
        requires
            self.wf(),
        ensures
            r.is_some() <==> self.free_count() <= usize::MAX,
            r.is_some() ==> r.unwrap() == self.free_count(),
    {
        let mut total: u64 = self.free.len() as u64;
        let region: u64 = (self.current_end - self.current_start) / 4096;
        total = match total.checked_add(region) {
            Some(t) => t,
            None => return None,
        };
        let mut i: usize = self.next;
        while i < self.entries.len()
            invariant
                self.wf(),
                self.next <= i <= self.entries@.len(),
                total + memmap_frames(self.entries@, i as int).len() == self.free_count(),
            decreases self.entries@.len() - i,
        {
            let e = self.entries[i];
            if e.typ == MemoryMapEntryType::Usable {
                total = match total.checked_add(e.len / 4096) {
                    Some(t) => t,
                    None => return None,
                };
            }
            i = i + 1;
        }
        if total <= usize::MAX as u64 {
            Some(total as usize)
        } else {
            None
        }
    }

    fn freelist_pop(&mut self) -> (r: Option<Frame>)
        requires
            old(self).wf(),
        ensures
            final(self).wf(),
            r.is_some() <==> old(self).freelist().len() > 0,
            r.is_some() ==> r.unwrap().addr() == old(self).pending()[0] && final(self).pending()
                == old(self).pending().drop_first(),
            r.is_some() ==> r == Some(old(self).free@[old(self).free@.len() - 1]) && final(self).freelist()
                == old(self).freelist().drop_first() && final(self).unused_memmap() == old(self).unused_memmap(),
            r.is_none() ==> final(self).pending() == old(self).pending() && final(self).freelist().len()
                == 0,
    {
        let r = self.free.pop();
        proof {
            if r.is_some() {
                let p = old(self).pending();
                assert(self.freelist() =~= old(self).freelist().drop_first());
                assert(self.pending() =~= p.drop_first());
                assert forall|k: int| 0 <= k < self.pending().len() implies valid_frame_addr(
                    #[trigger] self.pending()[k],
                ) by {
                    assert(self.pending()[k] == p[k + 1]);
                }
                assert(self.pending().no_duplicates()) by {
                    assert forall|i: int, j: int|
                        0 <= i < self.pending().len() && 0 <= j < self.pending().len() && i
                            != j implies self.pending()[i] != self.pending()[j] by {
                        assert(self.pending()[i] == p[i + 1]);
                        assert(self.pending()[j] == p[j + 1]);
                    }
                }
            }
        }
        r
    }

    fn memmap_pop(&mut self) -> (r: Option<Frame>)
        requires
            old(self).wf(),
            old(self).freelist().len() == 0,
        ensures
            final(self).wf(),
            r.is_some() <==> old(self).pending().len() > 0,
            r.is_some() ==> r.unwrap().addr() == old(self).pending()[0] && final(self).pending()
                == old(self).pending().drop_first(),
            r.is_none() ==> final(self).pending() == old(self).pending(),
            final(self).freelist().len() == 0,
    {
        let ghost unused = self.unused_memmap();
        while self.current_end - self.current_start < 4096
            invariant
                self.current_start <= self.current_end,
                self.next <= self.entries@.len(),
                self.entries@ == old(self).entries@,
                self.free@ == old(self).free@,
                self.free@.len() == 0,
                old(self).free@.len() == 0,
                memmap_well_formed(self.entries@),
                self.unused_memmap() == unused,
                unused == old(self).unused_memmap(),
            decreases self.entries@.len() - self.next,
        {
            if self.next >= self.entries.len() {
                proof {
                    assert(region_frames(self.current_start as int, self.current_end - self.current_start) =~= Seq::<int>::empty());
                    assert(self.unused_memmap() =~= Seq::<int>::empty());
                    assert(old(self).freelist() =~= Seq::<int>::empty());
                    assert(self.freelist() =~= Seq::<int>::empty());
                    assert(old(self).pending() =~= Seq::<int>::empty());
                    assert(self.pending() =~= old(self).pending());
                }
                return None;
            }
            let e = self.entries[self.next];
            let ghost before = self.unused_memmap();
            proof {
                assert(region_frames(self.current_start as int, self.current_end - self.current_start) =~= Seq::<int>::empty());
            }
            self.next = self.next + 1;
            if e.typ == MemoryMapEntryType::Usable {
                assert(self.entries@[self.next - 1].typ == MemoryMapEntryType::Usable);
                self.current_start = e.base;
                self.current_end = e.base + e.len;
            }
            proof {
                assert(self.unused_memmap() =~= before);
            }
        }
        let addr = self.current_start;
        self.current_start = self.current_start + 4096;
        proof {
            let old_region = region_frames(addr as int, self.current_end - addr);
            let new_region = region_frames(self.current_start as int, self.current_end - self.current_start);
            assert(new_region =~= old_region.drop_first());
            let p = old(self).pending();
            assert(old(self).freelist() =~= Seq::<int>::empty());
            assert(self.freelist() =~= Seq::<int>::empty());
            assert(p =~= unused);
            assert(self.pending() =~= p.drop_first());
            assert(p[0] == addr);
            assert forall|k: int| 0 <= k < self.pending().len() implies valid_frame_addr(
                #[trigger] self.pending()[k],
            ) by {
                assert(self.pending()[k] == p[k + 1]);
            }
            assert(self.pending().no_duplicates()) by {
                assert forall|i: int, j: int|
                    0 <= i < self.pending().len() && 0 <= j < self.pending().len() && i
                        != j implies self.pending()[i] != self.pending()[j] by {
                    assert(self.pending()[i] == p[i + 1]);
                    assert(self.pending()[j] == p[j + 1]);
                }
            }
        }
        Some(Frame(PhysAddr(addr)))
    }

    fn freelist_push(&mut self, frame: Frame)
        requires
            old(self).wf(),
            valid_frame_addr(frame.addr()),
            !old(self).pending().contains(frame.addr()),
        ensures
            final(self).wf(),
            final(self).pending() == seq![frame.addr()] + old(self).pending(),
            final(self).freelist() == seq![frame.addr()] + old(self).freelist(),
            final(self).unused_memmap() == old(self).unused_memmap(),
    {
        self.free.push(frame);
        proof {
            let p = old(self).pending();
            assert(self.freelist() =~= seq![frame.addr()] + old(self).freelist());
            assert(self.pending() =~= seq![frame.addr()] + p);
            assert forall|k: int| 0 <= k < self.pending().len() implies valid_frame_addr(
                #[trigger] self.pending()[k],
            ) by {
                if k > 0 {
                    assert(self.pending()[k] == p[k - 1]);
                }
            }
            assert(self.pending().no_duplicates()) by {
                assert forall|i: int, j: int|
                    0 <= i < self.pending().len() && 0 <= j < self.pending().len() && i
                        != j implies self.pending()[i] != self.pending()[j] by {
                    if i > 0 && j > 0 {
                        assert(self.pending()[i] == p[i - 1]);
                        assert(self.pending()[j] == p[j - 1]);
                    } else if i == 0 {
                        assert(self.pending()[j] == p[j - 1]);
                    } else {
                        assert(self.pending()[i] == p[i - 1]);
                    }
                }
            }
        }
    }
}

/// Freed frames are reused last in, first out: after frame `a` and then
/// frame `b` are freed, the next two frames handed out are `b` and then `a`.
pub proof fn lemma_lifo_reuse(g0: Global, g1: Global, g2: Global, a: Frame, b: Frame)
    requires
        g1.pending() == seq![a.addr()] + g0.pending(),
        g2.pending() == seq![b.addr()] + g1.pending(),
    ensures
        g2.pending().len() >= 2,
        g2.pending()[0] == b.addr(),
        g2.pending().drop_first()[0] == a.addr(),
        g2.pending().drop_first().drop_first() == g0.pending(),
{
    assert(g2.pending().drop_first() =~= g1.pending());
    assert(g1.pending().drop_first() =~= g0.pending());
}

/// A source of physical frames that takes freed frames back.
pub trait PhysicalMemoryAllocator {
    /// The frames still to be handed out, in the order they will be.
    spec fn frames_left(&self) -> Seq<int>;

    /// Internal consistency.
    spec fn consistent(&self) -> bool;

    /// Hands out the next frame, or fails when none is left.
    fn allocate_frame(&mut self) -> (r: Result<Frame, PhysAllocError>)
        requires
            old(self).consistent(),
        ensures
            final(self).consistent(),
            r.is_ok() <==> old(self).frames_left().len() > 0,
            r.is_ok() ==> r.unwrap().addr() == old(self).frames_left()[0] && final(self).frames_left()
                == old(self).frames_left().drop_first(),
            r.is_err() ==> final(self).frames_left() == old(self).frames_left(),
    ;

    /// Takes back `frame`, which the caller owns and no longer uses.
    fn deallocate_frame(&mut self, frame: Frame)
        requires
            old(self).consistent(),
            valid_frame_addr(frame.addr()),
            !old(self).frames_left().contains(frame.addr()),
        ensures
            final(self).consistent(),
            final(self).frames_left() == seq![frame.addr()] + old(self).frames_left(),
    ;
}

impl PhysicalMemoryAllocator for Global {
    open spec fn frames_left(&self) -> Seq<int> {
        self.pending()
    }

    open spec fn consistent(&self) -> bool {
        self.wf()
    }

    fn allocate_frame(&mut self) -> (r: Result<Frame, PhysAllocError>) {
        Global::allocate_frame(self)
    }

    fn deallocate_frame(&mut self, frame: Frame) {
        Global::deallocate_frame(self, frame)
    }
}

/// The frames of a span are distinct valid frames, each inside the span.
proof fn lemma_region_frames_facts(base: int, len: int)
    requires
        base % 4096 == 0,
        0 <= base,
        0 <= len,
        base + len <= MAX_PHYS_ADDR,
    ensures
        region_frames(base, len).no_duplicates(),
        forall|k: int|
            0 <= k < region_frames(base, len).len() ==> {
                &&& valid_frame_addr(#[trigger] region_frames(base, len)[k])
                &&& base <= region_frames(base, len)[k] < base + len
            },
{
    assert forall|k: int| 0 <= k < region_frames(base, len).len() implies {
        &&& valid_frame_addr(#[trigger] region_frames(base, len)[k])
        &&& base <= region_frames(base, len)[k] < base + len
    } by {
        assert(4096 * k + 4096 <= len) by (nonlinear_arith)
            requires 0 <= k < len / 4096, 0 <= len;
    }
}

/// The frames of the usable regions from `i` on are distinct valid frames,
/// each at or above the base of every usable region from `i` on.
proof fn lemma_memmap_frames_facts(entries: Seq<MemmapEntry>, i: int)
    requires
        memmap_well_formed(entries),
        0 <= i,
    ensures
        memmap_frames(entries, i).no_duplicates(),
        forall|k: int|
            0 <= k < memmap_frames(entries, i).len() ==> valid_frame_addr(
                #[trigger] memmap_frames(entries, i)[k],
            ),
    decreases entries.len() - i,
{
    if i < entries.len() {
        lemma_memmap_frames_facts(entries, i + 1);
        let e = entries[i];
        let rest = memmap_frames(entries, i + 1);
        let here = if e.typ == MemoryMapEntryType::Usable {
            region_frames(e.base as int, e.len as int)
        } else {
            Seq::empty()
        };
        assert(memmap_frames(entries, i) == here + rest);
        if e.typ == MemoryMapEntryType::Usable {
            lemma_region_frames_facts(e.base as int, e.len as int);
        }
        assert forall|a: int, b: int| 0 <= a < here.len() && 0 <= b < rest.len() implies here[a]
            != rest[b] by {
            if e.typ == MemoryMapEntryType::Usable {
                assert(e.base <= here[a] < e.base + e.len);
                lemma_memmap_frames_within(entries, i + 1);
                assert(in_usable_from(entries, i + 1, rest[b]));
                let j = choose|j: int|
                    i + 1 <= j < entries.len() && #[trigger] entries[j].typ == MemoryMapEntryType::Usable
                        && entries[j].base <= rest[b] < entries[j].base + entries[j].len;
                assert(entries[i].typ == MemoryMapEntryType::Usable);
            }
        }
        vstd::seq_lib::lemma_no_dup_in_concat(here, rest);
        assert forall|k: int| 0 <= k < memmap_frames(entries, i).len() implies valid_frame_addr(
            #[trigger] memmap_frames(entries, i)[k],
        ) by {
            if k >= here.len() {
                assert(memmap_frames(entries, i)[k] == rest[k - here.len()]);
            }
        }
    }
}

/// Every frame of the usable regions from `i` on lies in one of them.
proof fn lemma_memmap_frames_within(entries: Seq<MemmapEntry>, i: int)
    requires
        memmap_well_formed(entries),
        0 <= i,
    ensures
        forall|k: int|
            0 <= k < memmap_frames(entries, i).len() ==> in_usable_from(entries, i, #[trigger] memmap_frames(entries, i)[k]),
    decreases entries.len() - i,
{
    if i < entries.len() {
        lemma_memmap_frames_within(entries, i + 1);
        let e = entries[i];
        let rest = memmap_frames(entries, i + 1);
        let here = if e.typ == MemoryMapEntryType::Usable {
            region_frames(e.base as int, e.len as int)
        } else {
            Seq::empty()
        };
        assert(memmap_frames(entries, i) == here + rest);
        if e.typ == MemoryMapEntryType::Usable {
            lemma_region_frames_facts(e.base as int, e.len as int);
        }
        assert forall|k: int| 0 <= k < memmap_frames(entries, i).len() implies in_usable_from(
            entries,
            i,
            #[trigger] memmap_frames(entries, i)[k],
        ) by {
            let y = memmap_frames(entries, i)[k];
            if k >= here.len() {
                assert(y == rest[k - here.len()]);
                assert(in_usable_from(entries, i + 1, y));
                let j = choose|j: int|
                    i + 1 <= j < entries.len() && #[trigger] entries[j].typ == MemoryMapEntryType::Usable
                        && entries[j].base <= y < entries[j].base + entries[j].len;
                assert(i <= j);
            } else {
                assert(y == here[k]);
                assert(entries[i].typ == MemoryMapEntryType::Usable);
            }
        }
    }
}

} // verus!
