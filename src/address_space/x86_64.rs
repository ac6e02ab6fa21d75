//! The four-level x86-64 page-table hierarchy: installs, removes and looks
//! up single-page translations.
//!
//! Page tables live in an arena of physical frames. Each table is 512
//! hardware entries; a present entry above the last level names, by its
//! frame address, the table one level down.

use vstd::prelude::*;

use crate::pmm::{valid_frame_addr, Global, PhysAllocError};
use crate::types::{Frame, Page, PhysAddr};

verus! {

/// Bits of an entry that hold the address of the referenced frame.
pub const FRAME_MASK: u64 = 0x7FFF_FFFF_FFFF_F000;

/// The entry refers to a frame or table.
pub const PRESENT: u64 = 0x1;

/// Writes are allowed through the entry.
pub const WRITABLE: u64 = 0x2;

/// Code running in user mode may use the entry.
pub const USER: u64 = 0x4;

/// Caching is disabled for the referenced memory.
pub const DISABLE_CACHE: u64 = 0x10;

/// The entry maps a large page instead of referencing a table.
pub const HUGE_PAGE: u64 = 0x80;

/// Every flag bit that `PageFlags` knows.
pub const ALL_FLAGS: u64 = 0x97;

/// Number of entries in one page table.
pub const ENTRIES_PER_TABLE: usize = 512;

/// Failure to install a translation.
#[derive(Debug, Clone, Copy, PartialEq, Eq, Structural)]
pub enum MapError {
    /// A frame for an intermediate table could not be obtained.
    PhysAllocError(PhysAllocError),
    /// The page already has a translation.
    PageAlreadyMapped,
    /// The walk for the page meets a huge page, which this mapper does not
    /// split.
    Unsupported,
}

/// Failure to remove a translation.
#[derive(Debug, Clone, Copy, PartialEq, Eq, Structural)]
pub enum UnmapError {
    /// No frame is mapped at the page.
    PageNotMapped,
    /// The page lies in a huge page, which this mapper does not split.
    Unsupported,
}

/// Why existing page tables cannot be taken over.
#[derive(Debug, Clone, Copy, PartialEq, Eq, Structural)]
pub enum TableError {
    /// The tables do not form a tree rooted at the first one: see
    /// `tables_form_tree`.
    Malformed,
}

/// Entry `j` of table `t`, if present and not a huge page above the last
/// level, names a listed table one level down whose prefix extends `t`'s by
/// `j`.
pub open spec fn child_listed(
    frames: Seq<u64>,
    entries: Seq<u64>,
    levels: Seq<u8>,
    prefixes: Seq<u64>,
    t: int,
    j: int,
) -> bool {
    let e = entries[t * 512 + j];
    levels[t] > 0 && entry_present(e) && !entry_huge(e) ==> exists|c: int|
        0 <= c < frames.len() && frames[c] == entry_frame(e) && levels[c] + 1 == levels[t]
            && prefixes[c] == (prefixes[t] << 9u64) | (j as u64)
}

/// Tables given as frames, entry words, levels and prefixes form a tree that
/// the walk can follow: at least one table, distinct frames, 512 words per
/// table, the first table at the top level, and every present entry above
/// the last level either a huge page or a link to a listed table one level
/// down.
pub open spec fn tables_form_tree(frames: Seq<u64>, entries: Seq<u64>, levels: Seq<u8>, prefixes: Seq<u64>) -> bool {
    &&& frames.len() >= 1
    &&& entries.len() == frames.len() * 512
    &&& levels.len() == frames.len()
    &&& prefixes.len() == frames.len()
    &&& forall|x: int, y: int| 0 <= x < frames.len() && 0 <= y < frames.len() && x != y ==> frames[x] != frames[y]
    &&& levels[0] == 3
    &&& prefixes[0] == 0
    &&& forall|u: int| 0 <= u < frames.len() ==> #[trigger] levels[u] <= 3
    &&& forall|u: int, j: int|
        0 <= u < frames.len() && 0 <= j < 512 ==> #[trigger] child_listed(frames, entries, levels, prefixes, u, j)
}

/// Position of frame `f` in `frames`, if it is there.
fn find_frame(frames: &Vec<u64>, f: u64) -> (r: Option<usize>)
    ensures
        r.is_some() ==> r.unwrap() < frames@.len() && frames@[r.unwrap() as int] == f,
        r.is_none() ==> forall|c: int| 0 <= c < frames@.len() ==> frames@[c] != f,
{
    let mut c: usize = 0;
    while c < frames.len()
        invariant
            c <= frames@.len(),
            forall|u: int| 0 <= u < c ==> frames@[u] != f,
        decreases frames@.len() - c,
    {
        if frames[c] == f {
            return Some(c);
        }
        c = c + 1;
    }
    None
}

/// Permission and caching flags of a page-table entry.
#[derive(Debug, Clone, Copy, PartialEq, Eq, Structural)]
pub struct PageFlags {
    pub bits: u64,
}

impl PageFlags {
    /// No flag set.
    pub fn empty() -> (r: PageFlags)
        ensures
            r.bits == 0,
    {
        PageFlags { bits: 0 }
    }

    /// The known flags among `bits`; other bits are dropped.
    pub fn from_bits_truncate(bits: u64) -> (r: PageFlags)
        ensures
            r.bits == bits & ALL_FLAGS,
    {
        PageFlags { bits: bits & ALL_FLAGS }
    }

    /// The flags as a word.
    pub fn bits(&self) -> (r: u64)
        ensures
            r == self.bits,
    {
        self.bits
    }

    /// Whether every flag of `other` is set here.
    pub fn contains(&self, other: PageFlags) -> (r: bool)
        ensures
            r == (self.bits & other.bits == other.bits),
    {
        self.bits & other.bits == other.bits
    }

    /// The flags set in either.
    pub fn union(&self, other: PageFlags) -> (r: PageFlags)
        ensures
            r.bits == self.bits | other.bits,
    {
        PageFlags { bits: self.bits | other.bits }
    }
}

/// Whether the entry word has its present bit set.
pub open spec fn entry_present(e: u64) -> bool {
    e & PRESENT == PRESENT
}

/// The frame address that the entry word refers to.
pub open spec fn entry_frame(e: u64) -> u64 {
    e & FRAME_MASK
}

/// Whether the entry word, above the last level, maps a huge page.
pub open spec fn entry_huge(e: u64) -> bool {
    e & HUGE_PAGE == HUGE_PAGE
}

/// The address bits inside a huge page mapped at `level`.
pub open spec fn huge_mask(level: int) -> u64 {
    if level == 1 {
        0x1f_ffff
    } else if level == 2 {
        0x3fff_ffff
    } else {
        0x7f_ffff_ffff
    }
}

/// The frame that the huge-page entry `e` at `level` maps `va` to.
pub open spec fn huge_frame(e: u64, va: u64, level: int) -> u64 {
    (entry_frame(e) & !huge_mask(level)) | (va & huge_mask(level) & !0xfffu64)
}

/// The entry word holding `flags` and `frame`.
pub open spec fn entry_word(flags: u64, frame: u64) -> u64 {
    (flags & !FRAME_MASK) | frame
}

/// One 64-bit page-table entry.
#[derive(Debug, Clone, Copy, PartialEq, Eq, Structural)]
pub struct PageTableEntry(pub u64);

impl PageTableEntry {
    /// The entry that maps nothing.
    pub fn missing() -> (r: PageTableEntry)
        ensures
            r.0 == 0,
            !entry_present(r.0),
    {
        proof {
            assert(0u64 & 1 == 0) by (bit_vector);
        }
        PageTableEntry(0)
    }

    /// The entry that refers to `frame` with `flags`.
    pub fn new(flags: PageFlags, frame: Frame) -> (r: PageTableEntry)
        ensures
            r.0 == entry_word(flags.bits, frame.0.0),
            valid_frame_addr(frame.addr()) ==> entry_frame(r.0) == frame.0.0 && entry_present(r.0)
                == (flags.bits & PRESENT == PRESENT),
    {
        proof {
            if valid_frame_addr(frame.addr()) {
                lemma_entry_word(flags.bits, frame.0.0);
            }
        }
        PageTableEntry((flags.bits & !FRAME_MASK) | frame.0.0)
    }

    /// The known flags of the entry.
    pub fn flags(&self) -> (r: PageFlags)
        ensures
            r.bits == self.0 & ALL_FLAGS,
            (r.bits & PRESENT == PRESENT) == entry_present(self.0),
    {
        proof {
            let e = self.0;
            assert(((e & 0x97) & 1 == 1) == (e & 1 == 1)) by (bit_vector);
        }
        PageFlags::from_bits_truncate(self.0)
    }

    /// The frame that the entry refers to.
    pub fn frame(&self) -> (r: Frame)
        ensures
            r.0.0 == entry_frame(self.0),
    {
        Frame(PhysAddr(self.0 & FRAME_MASK))
    }
}

/// Encoding a valid frame and flags into a word keeps both apart.
pub proof fn lemma_entry_word(flags: u64, frame: u64)
    requires
        valid_frame_addr(frame as int),
    ensures
        entry_frame(entry_word(flags, frame)) == frame,
        entry_present(entry_word(flags, frame)) == (flags & PRESENT == PRESENT),
{
    assert(frame & 0xfff == 0) by (bit_vector)
        requires frame % 4096 == 0;
    let e = entry_word(flags, frame);
    assert(e & 0x7FFF_FFFF_FFFF_F000 == frame) by (bit_vector)
        requires
            frame & 0xfff == 0,
            frame < 0x10_0000_0000_0000,
            e == (flags & !0x7FFF_FFFF_FFFF_F000u64) | frame,
    ;
    assert((e & 1 == 1) == (flags & 1 == 1)) by (bit_vector)
        requires
            frame & 0xfff == 0,
            e == (flags & !0x7FFF_FFFF_FFFF_F000u64) | frame,
    ;
}

/// Index into the table at `level` (3 is the top) that the walk for `va` uses.
pub open spec fn slot(va: u64, level: int) -> int {
    if level == 3 {
        ((va >> 39u64) & 0x1ff) as int
    } else if level == 2 {
        ((va >> 30u64) & 0x1ff) as int
    } else if level == 1 {
        ((va >> 21u64) & 0x1ff) as int
    } else {
        ((va >> 12u64) & 0x1ff) as int
    }
}

/// The indices above `level` that lead the walk for `va` to its table at
/// `level`, packed nine bits each.
pub open spec fn prefix(va: u64, level: int) -> u64 {
    if level == 3 {
        0
    } else if level == 2 {
        (va >> 39u64) & 0x1ff
    } else if level == 1 {
        (va >> 30u64) & 0x3ffff
    } else {
        (va >> 21u64) & 0x7ff_ffff
    }
}

/// The part of `va` that selects its page: all that translation depends on.
pub open spec fn page_number(va: u64) -> u64 {
    (va >> 12u64) & 0xf_ffff_ffff
}

proof fn lemma_slot_bound(va: u64)
    ensures
        0 <= slot(va, 3) < 512,
        0 <= slot(va, 2) < 512,
        0 <= slot(va, 1) < 512,
        0 <= slot(va, 0) < 512,
{
    assert((va >> 39u64) & 0x1ff < 512) by (bit_vector);
    assert((va >> 30u64) & 0x1ff < 512) by (bit_vector);
    assert((va >> 21u64) & 0x1ff < 512) by (bit_vector);
    assert((va >> 12u64) & 0x1ff < 512) by (bit_vector);
}

proof fn lemma_prefix_step(va: u64)
    ensures
        prefix(va, 2) == (prefix(va, 3) << 9u64) | (slot(va, 3) as u64),
        prefix(va, 1) == (prefix(va, 2) << 9u64) | (slot(va, 2) as u64),
        prefix(va, 0) == (prefix(va, 1) << 9u64) | (slot(va, 1) as u64),
{
    assert(((va >> 39u64) & 0x1ff) == ((0u64 << 9u64) | ((va >> 39u64) & 0x1ff))) by (bit_vector);
    assert(((va >> 30u64) & 0x3ffff) == ((((va >> 39u64) & 0x1ff) << 9u64) | ((va >> 30u64)
        & 0x1ff))) by (bit_vector);
    assert(((va >> 21u64) & 0x7ff_ffff) == ((((va >> 30u64) & 0x3ffff) << 9u64) | ((va >> 21u64)
        & 0x1ff))) by (bit_vector);
    lemma_slot_bound(va);
}

proof fn lemma_same_leaf_same_page(va: u64, vb: u64)
    requires
        prefix(va, 0) == prefix(vb, 0),
        slot(va, 0) == slot(vb, 0),
    ensures
        page_number(va) == page_number(vb),
{
    assert(((va >> 21u64) & 0x7ff_ffff) == ((vb >> 21u64) & 0x7ff_ffff) && ((va >> 12u64) & 0x1ff)
        == ((vb >> 12u64) & 0x1ff) ==> ((va >> 12u64) & 0xf_ffff_ffff) == ((vb >> 12u64)
        & 0xf_ffff_ffff)) by (bit_vector);
}

/// No pending frame of the allocator holds a page table.
pub open spec fn frames_disjoint(pending: Seq<int>, tables: Seq<u64>) -> bool {
    forall|k: int, t: int|
        0 <= k < pending.len() && 0 <= t < tables.len() ==> pending[k] != tables[t] as int
}

/// `new_tables` extends `old_tables` with frames taken, in order, from the
/// front of `old_pending`, and `new_pending` is what is left of it.
pub open spec fn tables_grown_from(
    old_tables: Seq<u64>,
    new_tables: Seq<u64>,
    old_pending: Seq<int>,
    new_pending: Seq<int>,
) -> bool {
    let a = new_tables.len() - old_tables.len();
    &&& old_tables.len() <= new_tables.len()
    &&& a <= old_pending.len()
    &&& new_tables.subrange(0, old_tables.len() as int) == old_tables
    &&& new_pending == old_pending.skip(a)
    &&& forall|k: int| 0 <= k < a ==> new_tables[old_tables.len() + k] as int == old_pending[k]
}

/// Growing the tables twice from the allocator is growing them once.
pub proof fn lemma_tables_grown_trans(
    t0: Seq<u64>,
    t1: Seq<u64>,
    t2: Seq<u64>,
    pend0: Seq<int>,
    pend1: Seq<int>,
    pend2: Seq<int>,
)
    requires
        tables_grown_from(t0, t1, pend0, pend1),
        tables_grown_from(t1, t2, pend1, pend2),
    ensures
        tables_grown_from(t0, t2, pend0, pend2),
{
    let a = t1.len() - t0.len();
    let b = t2.len() - t1.len();
    assert(t2.subrange(0, t0.len() as int) =~= t0) by {
        assert forall|k: int| 0 <= k < t0.len() implies t2[k] == t0[k] by {
            assert(t2.subrange(0, t1.len() as int)[k] == t1[k]);
            assert(t1.subrange(0, t0.len() as int)[k] == t0[k]);
        }
    }
    assert(pend2 =~= pend0.skip(a + b));
    assert forall|k: int| 0 <= k < a + b implies t2[t0.len() + k] as int == pend0[k] by {
        if k < a {
            assert(t2.subrange(0, t1.len() as int)[t0.len() + k] == t1[t0.len() + k]);
        } else {
            assert(t2[t1.len() + (k - a)] as int == pend1[k - a]);
            assert(pend1[k - a] == pend0[k]);
        }
    }
}

/// How a mapping leaves an entry above the last level on the walk: a
/// present entry stays as it was; otherwise it now links a new table with
/// the most permissive flags, so that the last-level entry alone narrows
/// permissions.
pub open spec fn linked(before: Option<u64>, after: Option<u64>) -> bool {
    if before.is_some() && entry_present(before.unwrap()) {
        after == before
    } else {
        after.is_some() && after.unwrap() == entry_word(PRESENT | WRITABLE | USER, entry_frame(after.unwrap()))
    }
}

/// The page-table hierarchy, rooted at the table in `frames[0]`.
pub struct PageMapper {
    /// Frame holding each table; index 0 is the top-level table.
    frames: Vec<u64>,
    /// The entries of table `t` are `entries[512 * t .. 512 * t + 512]`.
    entries: Vec<u64>,
    /// Level of each table: 3 for the top, 0 for the tables that map pages.
    levels: Ghost<Seq<int>>,
    /// For each table, the indices above it that lead to it.
    prefixes: Ghost<Seq<u64>>,
}

impl PageMapper {
    /// The frames that hold page tables, the top-level one first.
    pub closed spec fn table_frames(&self) -> Seq<u64> {
        self.frames@
    }

    closed spec fn ntables(&self) -> int {
        self.frames@.len() as int
    }

    closed spec fn entry(&self, t: int, i: int) -> u64 {
        self.entries@[t * 512 + i]
    }

    closed spec fn has_table(&self, f: u64) -> bool {
        exists|t: int| 0 <= t < self.ntables() && self.frames@[t] == f
    }

    /// Index of the table held in frame `f`.
    closed spec fn table_index(&self, f: u64) -> Option<int> {
        if self.has_table(f) {
            Some(choose|t: int| 0 <= t < self.ntables() && self.frames@[t] == f)
        } else {
            None
        }
    }

    /// The frame that the walk for `va` reaches from table `t` at `level`.
    closed spec fn lookup(&self, t: int, level: int, va: u64) -> Option<u64>
        decreases level,
    {
        let e = self.entry(t, slot(va, level));
        if !entry_present(e) {
            None
        } else if level <= 0 {
            Some(entry_frame(e))
        } else if entry_huge(e) {
            Some(huge_frame(e, va, level))
        } else {
            match self.table_index(entry_frame(e)) {
                Some(c) => self.lookup(c, level - 1, va),
                None => None,
            }
        }
    }

    /// The last-level table that the walk for `va` reaches from table `t`
    /// at `level`.
    closed spec fn leaf_of(&self, t: int, level: int, va: u64) -> Option<int>
        decreases level,
    {
        if level <= 0 {
            Some(t)
        } else {
            let e = self.entry(t, slot(va, level));
            if !entry_present(e) || entry_huge(e) {
                None
            } else {
                match self.table_index(entry_frame(e)) {
                    Some(c) => self.leaf_of(c, level - 1, va),
                    None => None,
                }
            }
        }
    }

    /// The table at `level` on the walk for `va` from the top-level table,
    /// if the walk gets that far.
    closed spec fn table_at(&self, va: u64, level: int) -> Option<int>
        decreases 3 - level,
    {
        if level >= 3 {
            Some(0)
        } else {
            match self.table_at(va, level + 1) {
                Some(p) => {
                    let e = self.entry(p, slot(va, level + 1));
                    if !entry_present(e) || entry_huge(e) {
                        None
                    } else {
                        self.table_index(entry_frame(e))
                    }
                },
                None => None,
            }
        }
    }

    /// How many tables a mapping of `va` still has to create below table `t`
    /// at `level`.
    closed spec fn needed(&self, t: int, level: int, va: u64) -> int
        decreases level,
    {
        if level <= 0 {
            0
        } else {
            let e = self.entry(t, slot(va, level));
            if !entry_present(e) {
                level
            } else if entry_huge(e) {
                0
            } else {
                match self.table_index(entry_frame(e)) {
                    Some(c) => self.needed(c, level - 1, va),
                    None => 0,
                }
            }
        }
    }

    /// Whether the walk for `va` from table `t` at `level` meets a huge page.
    closed spec fn hits_huge(&self, t: int, level: int, va: u64) -> bool
        decreases level,
    {
        if level <= 0 {
            false
        } else {
            let e = self.entry(t, slot(va, level));
            if !entry_present(e) {
                false
            } else if entry_huge(e) {
                true
            } else {
                match self.table_index(entry_frame(e)) {
                    Some(c) => self.hits_huge(c, level - 1, va),
                    None => false,
                }
            }
        }
    }

    /// Whether `va` lies in a huge page: its walk meets a present entry
    /// with the huge-page bit above the last level.
    pub closed spec fn huge_mapped(&self, va: u64) -> bool {
        self.hits_huge(0, 3, va)
    }

    /// The entry word that the walk for `va` reads at `level` (0 is the
    /// last level), if the walk gets that far.
    pub closed spec fn walk_entry(&self, va: u64, level: int) -> Option<u64> {
        match self.table_at(va, level) {
            Some(t) => Some(self.entry(t, slot(va, level))),
            None => None,
        }
    }

    /// Whether entry `j` of table `x` is read by the walk for `va`.
    pub closed spec fn on_walk(&self, va: u64, x: int, j: int) -> bool {
        exists|l: int| 0 <= l <= 3 && self.table_at(va, l) == Some(x) && j == slot(va, l)
    }

    /// The frame that the page at virtual address `va` maps to, if any.
    pub closed spec fn mapped(&self, va: u64) -> Option<u64> {
        self.lookup(0, 3, va)
    }

    /// Number of tables that mapping the page at `va` has to create.
    pub closed spec fn tables_needed(&self, va: u64) -> int {
        self.needed(0, 3, va)
    }

    closed spec fn child_ok(&self, t: int, i: int) -> bool {
        match self.table_index(entry_frame(self.entry(t, i))) {
            Some(c) => {
                &&& self.levels@[c] == self.levels@[t] - 1
                &&& self.prefixes@[c] == (self.prefixes@[t] << 9u64) | (i as u64)
            },
            None => false,
        }
    }

    /// The hierarchy is a tree: tables sit in distinct frames, and every
    /// present entry above the last level either maps a huge page or refers
    /// to a table one level down whose prefix extends its parent's by the
    /// entry's index.
    pub closed spec fn wf(&self) -> bool {
        &&& self.ntables() >= 1
        &&& self.entries@.len() == self.ntables() * 512
        &&& self.entries@.len() <= usize::MAX
        &&& self.levels@.len() == self.ntables()
        &&& self.prefixes@.len() == self.ntables()
        &&& self.levels@[0] == 3
        &&& self.prefixes@[0] == 0
        &&& forall|t: int| 0 <= t < self.ntables() ==> 0 <= #[trigger] self.levels@[t] <= 3
        &&& forall|a: int, b: int|
            0 <= a < self.ntables() && 0 <= b < self.ntables() && a != b ==> self.frames@[a]
                != self.frames@[b]
        &&& forall|t: int, i: int|
            0 <= t < self.ntables() && 0 <= i < 512 && self.levels@[t] > 0 && entry_present(
                #[trigger] self.entry(t, i),
            ) && !entry_huge(self.entry(t, i)) ==> self.child_ok(t, i)
    }

    proof fn lemma_table_index(&self, t: int)
        requires
            self.wf(),
            0 <= t < self.ntables(),
        ensures
            self.has_table(self.frames@[t]),
            self.table_index(self.frames@[t]) == Some(t),
    {
        assert(self.has_table(self.frames@[t]));
    }

    proof fn lemma_needed_unmapped(&self, t: int, level: int, va: u64)
        requires
            self.needed(t, level, va) > 0,
        ensures
            self.lookup(t, level, va).is_none(),
        decreases level,
    {
        if level > 0 {
            let e = self.entry(t, slot(va, level));
            if entry_present(e) && !entry_huge(e) {
                if let Some(c) = self.table_index(entry_frame(e)) {
                    self.lemma_needed_unmapped(c, level - 1, va);
                }
            }
        }
    }

    /// Mapping a page creates at most one table per level below the top.
    pub proof fn lemma_tables_needed_bound(&self, va: u64)
        ensures
            0 <= self.tables_needed(va) <= 3,
    {
        self.lemma_needed_bound(0, 3, va);
    }

    proof fn lemma_needed_bound(&self, t: int, level: int, va: u64)
        requires
            0 <= level,
        ensures
            0 <= self.needed(t, level, va) <= level,
        decreases level,
    {
        if level > 0 {
            let e = self.entry(t, slot(va, level));
            if entry_present(e) && !entry_huge(e) {
                if let Some(c) = self.table_index(entry_frame(e)) {
                    self.lemma_needed_bound(c, level - 1, va);
                }
            }
        }
    }

    /// An address whose walk reaches a last-level table is in no huge page.
    pub proof fn lemma_leaf_walk_not_huge(&self, va: u64)
        requires
            self.wf(),
            self.walk_entry(va, 0).is_some(),
        ensures
            !self.huge_mapped(va),
    {
        self.lemma_table_at(va, 0);
    }

    /// An address in a huge page is mapped.
    pub proof fn lemma_huge_mapped_is_mapped(&self, va: u64)
        ensures
            self.huge_mapped(va) ==> self.mapped(va).is_some(),
    {
        if self.huge_mapped(va) {
            self.lemma_huge_is_mapped(0, 3, va);
        }
    }

    /// A page in a huge page is mapped.
    proof fn lemma_huge_is_mapped(&self, t: int, level: int, va: u64)
        requires
            self.hits_huge(t, level, va),
        ensures
            self.lookup(t, level, va).is_some(),
        decreases level,
    {
        if level > 0 {
            let e = self.entry(t, slot(va, level));
            if !entry_huge(e) {
                self.lemma_huge_is_mapped(self.table_index(entry_frame(e)).unwrap(), level - 1, va);
            }
        }
    }

    proof fn lemma_lookup_via_leaf(&self, t: int, level: int, va: u64)
        ensures
            self.leaf_of(t, level, va).is_some() ==> self.lookup(t, level, va) == self.lookup(
                self.leaf_of(t, level, va).unwrap(),
                0,
                va,
            ),
        decreases level,
    {
        if level > 0 {
            let e = self.entry(t, slot(va, level));
            if entry_present(e) && !entry_huge(e) {
                if let Some(c) = self.table_index(entry_frame(e)) {
                    self.lemma_lookup_via_leaf(c, level - 1, va);
                }
            }
        }
    }

    /// A write into a last-level table leaves every walk reaching the same
    /// last-level table.
    proof fn lemma_leaf_of_stable(&self, new: &PageMapper, k0: int, x: int, va: u64)
        requires
            self.wf(),
            new.frames@ == self.frames@,
            new.levels@ == self.levels@,
            new.entries@.len() == self.entries@.len(),
            0 <= k0 < self.entries@.len(),
            self.levels@[k0 / 512] == 0,
            forall|m: int| 0 <= m < self.entries@.len() && m != k0 ==> new.entries@[m] == self.entries@[m],
            0 <= x < self.ntables(),
        ensures
            new.leaf_of(x, self.levels@[x], va) == self.leaf_of(x, self.levels@[x], va),
        decreases self.levels@[x],
    {
        let level = self.levels@[x];
        if level > 0 {
            lemma_slot_bound(va);
            let i = slot(va, level);
            assert(x * 512 + i != k0);
            assert(new.entry(x, i) == self.entry(x, i));
            let e = self.entry(x, i);
            if entry_present(e) && !entry_huge(e) {
                assert(self.child_ok(x, i));
                let c = self.table_index(entry_frame(e)).unwrap();
                self.lemma_leaf_of_stable(new, k0, c, va);
            }
        }
    }

    /// Writing entry `i` of the last-level table `t0` changes only the
    /// translations of the page that the entry belongs to.
    proof fn lemma_leaf_write(&self, new: &PageMapper, t0: int, i0: int, va: u64, x: int, vb: u64)
        requires
            self.wf(),
            new.frames@ == self.frames@,
            new.levels@ == self.levels@,
            new.prefixes@ == self.prefixes@,
            new.entries@.len() == self.entries@.len(),
            0 <= t0 < self.ntables(),
            self.levels@[t0] == 0,
            self.prefixes@[t0] == prefix(va, 0),
            i0 == slot(va, 0),
            forall|m: int| 0 <= m < self.entries@.len() && m != t0 * 512 + i0 ==> new.entries@[m] == self.entries@[m],
            page_number(va) != page_number(vb),
            0 <= x < self.ntables(),
            0 <= self.levels@[x],
            self.prefixes@[x] == prefix(vb, self.levels@[x]),
        ensures
            new.lookup(x, self.levels@[x], vb) == self.lookup(x, self.levels@[x], vb),
        decreases self.levels@[x],
    {
        let level = self.levels@[x];
        lemma_slot_bound(vb);
        lemma_slot_bound(va);
        let i = slot(vb, level);
        assert(new.table_index(entry_frame(new.entry(x, i))) == self.table_index(entry_frame(new.entry(x, i))));
        if x == t0 && i == i0 {
            lemma_same_leaf_same_page(va, vb);
        }
        assert(new.entry(x, i) == self.entry(x, i));
        let e = self.entry(x, i);
        if level > 0 && entry_present(e) && !entry_huge(e) {
            assert(self.child_ok(x, i));
            let c = self.table_index(entry_frame(e)).unwrap();
            lemma_prefix_step(vb);
            self.lemma_leaf_write(new, t0, i0, va, c, vb);
        }
    }

    proof fn lemma_table_at(&self, va: u64, level: int)
        requires
            self.wf(),
            0 <= level <= 3,
            self.table_at(va, level).is_some(),
        ensures
            ({
                let x = self.table_at(va, level).unwrap();
                &&& 0 <= x < self.ntables()
                &&& self.levels@[x] == level
                &&& self.prefixes@[x] == prefix(va, level)
                &&& self.mapped(va) == self.lookup(x, level, va)
                &&& self.tables_needed(va) == self.needed(x, level, va)
                &&& self.leaf_of(0, 3, va) == self.leaf_of(x, level, va)
                &&& self.huge_mapped(va) == self.hits_huge(x, level, va)
            }),
        decreases 3 - level,
    {
        if level < 3 {
            self.lemma_table_at(va, level + 1);
            let p = self.table_at(va, level + 1).unwrap();
            lemma_slot_bound(va);
            lemma_prefix_step(va);
            assert(self.child_ok(p, slot(va, level + 1)));
        }
    }

    /// The three steps of a mapping, each following or creating one table,
    /// leave every entry above the last level on the walk `linked`.
    proof fn lemma_linked_chain(s0: PageMapper, s1: PageMapper, s2: PageMapper, s3: PageMapper, va: u64)
        requires
            forall|l: int|
                0 <= l < 3 && #[trigger] s0.table_at(va, l).is_some() ==> s0.walk_entry(va, l + 1).is_some()
                    && entry_present(s0.walk_entry(va, l + 1).unwrap()),
            s0.table_at(va, 3).is_some(),
            s1.table_at(va, 2).is_some(),
            s2.table_at(va, 1).is_some(),
            entry_present(s0.walk_entry(va, 3).unwrap()) ==> s1 == s0,
            entry_present(s1.walk_entry(va, 2).unwrap()) ==> s2 == s1,
            entry_present(s2.walk_entry(va, 1).unwrap()) ==> s3 == s2,
            !entry_present(s0.walk_entry(va, 3).unwrap()) ==> s1.walk_entry(va, 2) == Some(0u64),
            !entry_present(s1.walk_entry(va, 2).unwrap()) ==> s2.walk_entry(va, 1) == Some(0u64),
            linked(s0.walk_entry(va, 3), s1.walk_entry(va, 3)),
            linked(s1.walk_entry(va, 2), s2.walk_entry(va, 2)),
            linked(s2.walk_entry(va, 1), s3.walk_entry(va, 1)),
            s2.walk_entry(va, 3) == s1.walk_entry(va, 3),
            s3.walk_entry(va, 3) == s2.walk_entry(va, 3),
            s3.walk_entry(va, 2) == s2.walk_entry(va, 2),
        ensures
            forall|l: int| 1 <= l <= 3 ==> linked(s0.walk_entry(va, l), #[trigger] s3.walk_entry(va, l)),
    {
        assert(0u64 & 1 != 1) by (bit_vector);
        if s0.walk_entry(va, 2).is_some() && entry_present(s0.walk_entry(va, 2).unwrap()) {
            assert(s0.table_at(va, 2).is_some());
        }
        if s0.walk_entry(va, 1).is_some() && entry_present(s0.walk_entry(va, 1).unwrap()) {
            assert(s0.table_at(va, 1).is_some());
            assert(s0.table_at(va, 2).is_some());
        }
        if !entry_present(s1.walk_entry(va, 2).unwrap()) {
        } else if s2.walk_entry(va, 1) != s1.walk_entry(va, 1) {
        }
        assert(linked(s0.walk_entry(va, 2), s2.walk_entry(va, 2)));
        assert(linked(s0.walk_entry(va, 1), s3.walk_entry(va, 1)));
    }

    /// Addresses in one page read the same entries on their walks.
    proof fn lemma_walk_same_page_at(&self, va: u64, vb: u64, level: int)
        requires
            page_number(va) == page_number(vb),
            0 <= level <= 3,
        ensures
            self.table_at(va, level) == self.table_at(vb, level),
            self.walk_entry(va, level) == self.walk_entry(vb, level),
        decreases 3 - level,
    {
        assert(((va >> 12u64) & 0xf_ffff_ffff) == ((vb >> 12u64) & 0xf_ffff_ffff) ==> {
            &&& ((va >> 39u64) & 0x1ff) == ((vb >> 39u64) & 0x1ff)
            &&& ((va >> 30u64) & 0x1ff) == ((vb >> 30u64) & 0x1ff)
            &&& ((va >> 21u64) & 0x1ff) == ((vb >> 21u64) & 0x1ff)
            &&& ((va >> 12u64) & 0x1ff) == ((vb >> 12u64) & 0x1ff)
        }) by (bit_vector);
        if level < 3 {
            self.lemma_walk_same_page_at(va, vb, level + 1);
        }
    }

    /// Addresses in one page read the same entries on their walks.
    pub proof fn lemma_walk_same_page(&self, va: u64, vb: u64, level: int)
        requires
            page_number(va) == page_number(vb),
            0 <= level <= 3,
        ensures
            self.walk_entry(va, level) == self.walk_entry(vb, level),
    {
        self.lemma_walk_same_page_at(va, vb, level);
    }

    /// Installing a table under an entry that was missing leaves every walk
    /// that got past that level as it was.
    proof fn lemma_install_table_at(&self, new: &PageMapper, t: int, i: int, vb: u64, level: int)
        requires
            self.wf(),
            0 <= level <= 3,
            0 <= t < self.ntables(),
            !entry_present(self.entry(t, i)),
            forall|g: u64| #[trigger] self.has_table(g) ==> new.table_index(g) == self.table_index(g),
            forall|x: int, j: int|
                0 <= x < self.ntables() && 0 <= j < 512 && (x != t || j != i) ==> #[trigger] new.entry(x, j)
                    == self.entry(x, j),
            self.table_at(vb, level).is_some(),
        ensures
            new.table_at(vb, level) == self.table_at(vb, level),
        decreases 3 - level,
    {
        if level < 3 {
            let x = self.table_at(vb, level + 1).unwrap();
            self.lemma_table_at(vb, level + 1);
            lemma_slot_bound(vb);
            self.lemma_install_table_at(new, t, i, vb, level + 1);
            let e = self.entry(x, slot(vb, level + 1));
            assert(new.entry(x, slot(vb, level + 1)) == e);
            assert(self.has_table(entry_frame(e)));
        }
    }

    /// A walk that reaches `level` read present entries at every level above.
    proof fn lemma_path_facts(&self, va: u64)
        ensures
            forall|l: int|
                0 <= l < 3 && #[trigger] self.table_at(va, l).is_some() ==> self.walk_entry(va, l + 1).is_some()
                    && entry_present(self.walk_entry(va, l + 1).unwrap()),
            self.table_at(va, 3) == Some(0int),
    {
        assert forall|l: int|
            0 <= l < 3 && #[trigger] self.table_at(va, l).is_some() implies self.walk_entry(va, l + 1).is_some()
                && entry_present(self.walk_entry(va, l + 1).unwrap()) by {
            assert(self.table_at(va, l + 1).is_some());
        }
    }

    /// Walks to tables at `level` and above stay the same when no entry of a
    /// table above `level` changes and every old table keeps its frame.
    proof fn lemma_table_at_stable(&self, new: &PageMapper, va: u64, at: int, level: int)
        requires
            self.wf(),
            0 <= level <= at <= 3,
            new.ntables() >= self.ntables(),
            forall|g: u64| #[trigger] self.has_table(g) ==> new.table_index(g) == self.table_index(g),
            forall|x: int, j: int|
                0 <= x < self.ntables() && 0 <= j < 512 && self.levels@[x] > level ==> #[trigger] new.entry(x, j)
                    == self.entry(x, j),
        ensures
            new.table_at(va, at) == self.table_at(va, at),
        decreases 3 - at,
    {
        if at < 3 {
            self.lemma_table_at_stable(new, va, at + 1, level);
            if let Some(p) = self.table_at(va, at + 1) {
                self.lemma_table_at(va, at + 1);
                lemma_slot_bound(va);
                let e = self.entry(p, slot(va, at + 1));
                assert(new.entry(p, slot(va, at + 1)) == e);
                if entry_present(e) && !entry_huge(e) {
                    assert(self.child_ok(p, slot(va, at + 1)));
                }
            }
        }
    }

    /// Entries read by walks at levels above `level` stay the same under the
    /// conditions of `lemma_table_at_stable`.
    proof fn lemma_walk_entry_stable(&self, new: &PageMapper, va: u64, at: int, level: int)
        requires
            self.wf(),
            0 <= level < at <= 3,
            new.ntables() >= self.ntables(),
            forall|g: u64| #[trigger] self.has_table(g) ==> new.table_index(g) == self.table_index(g),
            forall|x: int, j: int|
                0 <= x < self.ntables() && 0 <= j < 512 && self.levels@[x] > level ==> #[trigger] new.entry(x, j)
                    == self.entry(x, j),
        ensures
            new.walk_entry(va, at) == self.walk_entry(va, at),
    {
        self.lemma_table_at_stable(new, va, at, level);
        if self.table_at(va, at).is_some() {
            self.lemma_table_at(va, at);
            lemma_slot_bound(va);
        }
    }

    /// After a new table is pushed in a frame that held none, old frames
    /// still name the same tables.
    proof fn lemma_push_index(&self, new: &PageMapper, f: u64)
        requires
            self.wf(),
            new.frames@ == self.frames@.push(f),
            !self.has_table(f),
        ensures
            forall|g: u64| #[trigger] self.has_table(g) ==> new.table_index(g) == self.table_index(g),
            new.table_index(f) == Some(self.ntables()),
            forall|a: int, b: int|
                0 <= a < new.ntables() && 0 <= b < new.ntables() && a != b ==> new.frames@[a]
                    != new.frames@[b],
    {
        let n = self.ntables();
        assert(new.frames@[n] == f);
        assert forall|g: u64| #[trigger] self.has_table(g) implies new.table_index(g) == self.table_index(g) by {
            let co = choose|t: int| 0 <= t < n && self.frames@[t] == g;
            assert(new.frames@[co] == g);
            assert(new.has_table(g));
            let cn = choose|t: int| 0 <= t < n + 1 && new.frames@[t] == g;
            assert(cn != n);
            assert(new.frames@[cn] == self.frames@[cn]);
        }
        assert(new.has_table(f));
        let cf = choose|t: int| 0 <= t < n + 1 && new.frames@[t] == f;
        if cf != n {
            assert(self.frames@[cf] == f);
        }
    }

    /// Installing a fresh empty table under entry `i` of table `t`, where no
    /// entry was, keeps the hierarchy well formed and changes no translation.
    proof fn lemma_install(&self, new: &PageMapper, t: int, i: int)
        requires
            self.wf(),
            0 <= t < self.ntables(),
            0 <= i < 512,
            self.levels@[t] > 0,
            !entry_present(self.entry(t, i)),
            new.frames@.len() == self.ntables() + 1,
            new.frames@ == self.frames@.push(new.frames@[self.ntables()]),
            !self.has_table(new.frames@[self.ntables()]),
            new.levels@ == self.levels@.push(self.levels@[t] - 1),
            new.prefixes@ == self.prefixes@.push((self.prefixes@[t] << 9u64) | (i as u64)),
            new.entries@.len() == (self.ntables() + 1) * 512,
            new.entries@.len() <= usize::MAX,
            forall|m: int|
                0 <= m < self.ntables() * 512 && m != t * 512 + i ==> new.entries@[m] == self.entries@[m],
            forall|m: int| self.ntables() * 512 <= m < (self.ntables() + 1) * 512 ==> new.entries@[m] == 0,
            entry_present(new.entries@[t * 512 + i]),
            entry_frame(new.entries@[t * 512 + i]) == new.frames@[self.ntables()],
            new.entries@[t * 512 + i] & HUGE_PAGE == 0,
        ensures
            new.wf(),
            forall|g: u64| #[trigger] self.has_table(g) ==> new.table_index(g) == self.table_index(g),
            forall|vb: u64| #[trigger] new.mapped(vb) == self.mapped(vb),
            forall|x: int, j: int|
                0 <= x < self.ntables() && 0 <= j < 512 && (x != t || j != i) ==> #[trigger] new.entry(x, j)
                    == self.entry(x, j),
            new.entry(t, i) == new.entries@[t * 512 + i],
            new.table_index(entry_frame(new.entry(t, i))) == Some(self.ntables()),
            forall|va: u64| #[trigger] new.needed(self.ntables(), self.levels@[t] - 1, va) == self.levels@[t] - 1,
    {
        let n = self.ntables();
        let f = new.frames@[n];
        self.lemma_push_index(new, f);
        assert forall|x: int, j: int|
            0 <= x < n && 0 <= j < 512 && (x != t || j != i) implies #[trigger] new.entry(x, j)
                == self.entry(x, j) by {
            lemma_entry_in_bounds(x, j, n);
            if x == t {
                assert(x * 512 + j != t * 512 + i);
            } else {
                assert((x * 512 + j) / 512 != (t * 512 + i) / 512) by {
                    lemma_entry_in_bounds(t, i, n);
                }
            }
        }
        assert forall|x: int, j: int| 0 <= j < 512 && x == n implies !entry_present(#[trigger] new.entry(x, j)) by {
            assert(new.entry(x, j) == 0);
            assert(0u64 & 1 == 0) by (bit_vector);
        }
        assert(new.wf()) by {
            assert forall|x: int, j: int|
                0 <= x < new.ntables() && 0 <= j < 512 && new.levels@[x] > 0 && entry_present(
                    #[trigger] new.entry(x, j),
                ) && !entry_huge(new.entry(x, j)) implies new.child_ok(x, j) by {
                if x < n && (x != t || j != i) {
                    assert(self.child_ok(x, j));
                    let c = self.table_index(entry_frame(self.entry(x, j))).unwrap();
                    assert(self.has_table(entry_frame(self.entry(x, j))));
                }
            }
        }
        assert forall|vb: u64| #[trigger] new.mapped(vb) == self.mapped(vb) by {
            self.lemma_install_lookup(new, t, i, 0, vb);
        }
        assert forall|va: u64| #[trigger] new.needed(n, self.levels@[t] - 1, va) == self.levels@[t] - 1 by {
            lemma_slot_bound(va);
            if self.levels@[t] - 1 > 0 {
                assert(!entry_present(new.entry(n, slot(va, self.levels@[t] - 1))));
            }
        }
    }

    proof fn lemma_install_lookup(&self, new: &PageMapper, t: int, i: int, x: int, vb: u64)
        requires
            self.wf(),
            0 <= t < self.ntables(),
            0 <= i < 512,
            self.levels@[t] > 0,
            !entry_present(self.entry(t, i)),
            new.frames@.len() == self.ntables() + 1,
            new.levels@ == self.levels@.push(self.levels@[t] - 1),
            forall|g: u64| #[trigger] self.has_table(g) ==> new.table_index(g) == self.table_index(g),
            new.table_index(entry_frame(new.entry(t, i))) == Some(self.ntables()),
            entry_present(new.entry(t, i)),
            !entry_huge(new.entry(t, i)),
            forall|x: int, j: int|
                0 <= x < self.ntables() && 0 <= j < 512 && (x != t || j != i) ==> #[trigger] new.entry(x, j)
                    == self.entry(x, j),
            forall|x: int, j: int| 0 <= j < 512 && x == self.ntables() ==> !entry_present(#[trigger] new.entry(x, j)),
            0 <= x < self.ntables(),
        ensures
            new.lookup(x, self.levels@[x], vb) == self.lookup(x, self.levels@[x], vb),
        decreases self.levels@[x],
    {
        let level = self.levels@[x];
        lemma_slot_bound(vb);
        let j = slot(vb, level);
        if x == t && j == i {
            let n = self.ntables();
            assert(!entry_present(new.entry(n, slot(vb, level - 1))));
            assert(new.lookup(n, level - 1, vb).is_none());
            assert(new.lookup(x, level, vb).is_none());
        } else {
            let e = self.entry(x, j);
            assert(new.entry(x, j) == e);
            if level > 0 && entry_present(e) && !entry_huge(e) {
                assert(self.child_ok(x, j));
                assert(self.has_table(entry_frame(e)));
                let c = self.table_index(entry_frame(e)).unwrap();
                self.lemma_install_lookup(new, t, i, c, vb);
            }
        }
    }

    /// A hierarchy whose only table is an empty top-level table in `root`.
    pub fn new(root: Frame) -> (r: PageMapper)
        ensures
            r.wf(),
            r.table_frames() == seq![root.0.0],
            forall|va: u64| #[trigger] r.mapped(va).is_none(),
    {
        let ghost levels: Seq<int> = seq![3];
        let ghost prefixes: Seq<u64> = seq![0];
        let mut r = PageMapper {
            frames: Vec::new(),
            entries: Vec::new(),
            levels: Ghost(levels),
            prefixes: Ghost(prefixes),
        };
        r.push_empty_table(root.0.0);
        proof {
            assert(r.frames@ =~= seq![root.0.0]);
            assert forall|t: int, i: int| 0 <= t < 1 && 0 <= i < 512 implies !entry_present(#[trigger] r.entry(t, i)) by {
                assert(r.entry(t, i) == 0);
                assert(0u64 & 1 == 0) by (bit_vector);
            }
            assert forall|va: u64| #[trigger] r.mapped(va).is_none() by {
                lemma_slot_bound(va);
                assert(!entry_present(r.entry(0, slot(va, 3))));
            }
        }
        r
    }

    /// The entry words of all tables: those of the table in
    /// `table_frames()[t]` are `table_words()[512 * t .. 512 * t + 512]`.
    pub closed spec fn table_words(&self) -> Seq<u64> {
        self.entries@
    }

    /// Takes over existing tables: the table in `frames[t]` holds the words
    /// `entries[512 * t .. 512 * t + 512]`, sits at `levels[t]` (3 for the
    /// top-level table, which is `frames[0]`) and is reached through the
    /// indices packed in `prefixes[t]`. Succeeds exactly when these describe
    /// a tree that the walk can follow (`tables_form_tree`).
    pub fn from_tables(frames: Vec<u64>, entries: Vec<u64>, levels: Vec<u8>, prefixes: Vec<u64>) -> (r: Result<
        PageMapper,
        TableError,
    >)
        ensures
            r.is_ok() <==> tables_form_tree(frames@, entries@, levels@, prefixes@),
            r.is_ok() ==> {
                &&& r.unwrap().wf()
                &&& r.unwrap().table_frames() == frames@
                &&& r.unwrap().table_words() == entries@
            },
    {
        let n = frames.len();
        if n == 0 || entries.len() % ENTRIES_PER_TABLE != 0 || entries.len() / ENTRIES_PER_TABLE != n
            || levels.len() != n || prefixes.len() != n {
            return Err(TableError::Malformed);
        }
        let len = entries.len();
        proof {
            assert(entries@.len() == n * 512);
        }
        let mut a: usize = 0;
        while a < n
            invariant
                n == frames@.len(),
                entries@.len() == n * 512,
                entries@.len() <= usize::MAX,
                levels@.len() == n,
                prefixes@.len() == n,
                a <= n,
                forall|x: int, y: int| 0 <= x < a && 0 <= y < n && x != y ==> frames@[x] != frames@[y],
            decreases n - a,
        {
            let mut b: usize = 0;
            while b < n
                invariant
                    n == frames@.len(),
                    a < n,
                    b <= n,
                    forall|x: int, y: int| 0 <= x < a && 0 <= y < n && x != y ==> frames@[x] != frames@[y],
                    forall|y: int| 0 <= y < b && y != a ==> frames@[a as int] != frames@[y],
                decreases n - b,
            {
                if a != b && frames[a] == frames[b] {
                    return Err(TableError::Malformed);
                }
                b = b + 1;
            }
            a = a + 1;
        }
        if levels[0] != 3 || prefixes[0] != 0 {
            return Err(TableError::Malformed);
        }
        let mut t: usize = 0;
        while t < n
            invariant
                n == levels@.len(),
                t <= n,
                forall|u: int| 0 <= u < t ==> #[trigger] levels@[u] <= 3,
            decreases n - t,
        {
            if levels[t] > 3 {
                return Err(TableError::Malformed);
            }
            t = t + 1;
        }
        let ghost lv: Seq<int> = Seq::new(n as nat, |k: int| levels@[k] as int);
        let mut t: usize = 0;
        while t < n
            invariant
                n == frames@.len(),
                entries@.len() == n * 512,
                entries@.len() <= usize::MAX,
                levels@.len() == n,
                prefixes@.len() == n,
                forall|x: int, y: int| 0 <= x < n && 0 <= y < n && x != y ==> frames@[x] != frames@[y],
                forall|u: int| 0 <= u < n ==> #[trigger] levels@[u] <= 3,
                lv == Seq::new(n as nat, |k: int| levels@[k] as int),
                t <= n,
                forall|u: int, j: int|
                    0 <= u < t && 0 <= j < 512 ==> #[trigger] child_listed(frames@, entries@, levels@, prefixes@, u, j),
            decreases n - t,
        {
            if levels[t] > 0 {
                let mut i: usize = 0;
                while i < ENTRIES_PER_TABLE
                    invariant
                        n == frames@.len(),
                        entries@.len() == n * 512,
                        entries@.len() <= usize::MAX,
                        levels@.len() == n,
                        prefixes@.len() == n,
                        forall|x: int, y: int| 0 <= x < n && 0 <= y < n && x != y ==> frames@[x] != frames@[y],
                        t < n,
                        levels@[t as int] > 0,
                        i <= 512,
                        forall|u: int, j: int|
                            0 <= u < t && 0 <= j < 512 ==> #[trigger] child_listed(frames@, entries@, levels@, prefixes@, u, j),
                        forall|j: int| 0 <= j < i ==> #[trigger] child_listed(frames@, entries@, levels@, prefixes@, t as int, j),
                    decreases 512 - i,
                {
                    proof {
                        lemma_entry_in_bounds(t as int, i as int, n as int);
                    }
                    let e = entries[t * ENTRIES_PER_TABLE + i];
                    if e & PRESENT == PRESENT && e & HUGE_PAGE != HUGE_PAGE {
                        match find_frame(&frames, e & FRAME_MASK) {
                            Some(c) => {
                                if levels[c] as u16 + 1 != levels[t] as u16 || prefixes[c] != (prefixes[t] << 9u64)
                                    | (i as u64) {
                                    proof {
                                        assert(!child_listed(frames@, entries@, levels@, prefixes@, t as int, i as int));
                                    }
                                    return Err(TableError::Malformed);
                                }
                                assert(child_listed(frames@, entries@, levels@, prefixes@, t as int, i as int));
                            },
                            None => {
                                proof {
                                    assert(!child_listed(frames@, entries@, levels@, prefixes@, t as int, i as int));
                                }
                                return Err(TableError::Malformed);
                            },
                        }
                    }
                    i = i + 1;
                }
            } else {
                assert forall|j: int| 0 <= j < 512 implies #[trigger] child_listed(frames@, entries@, levels@, prefixes@, t as int, j) by {}
            }
            t = t + 1;
        }
        let r = PageMapper { frames, entries, levels: Ghost(lv), prefixes: Ghost(prefixes@) };
        proof {
            assert forall|u: int, j: int|
                0 <= u < r.ntables() && 0 <= j < 512 && r.levels@[u] > 0 && entry_present(#[trigger] r.entry(u, j))
                    && !entry_huge(r.entry(u, j)) implies r.child_ok(u, j) by {
                assert(child_listed(r.frames@, r.entries@, levels@, r.prefixes@, u, j));
                let c = choose|c: int|
                    0 <= c < n && r.frames@[c] == entry_frame(r.entry(u, j)) && levels@[c] + 1 == levels@[u]
                        && r.prefixes@[c] == (r.prefixes@[u] << 9u64) | (j as u64);
                assert(r.has_table(entry_frame(r.entry(u, j))));
                let d = r.table_index(entry_frame(r.entry(u, j))).unwrap();
                assert(r.frames@[d] == r.frames@[c]);
            }
        }
        Ok(r)
    }

    /// Number of tables.
    pub fn table_count(&self) -> (r: usize)
        ensures
            r == self.table_frames().len(),
    {
        self.frames.len()
    }

    /// Frame holding table `t`.
    pub fn table_frame(&self, t: usize) -> (r: u64)
        requires
            t < self.table_frames().len(),
        ensures
            r == self.table_frames()[t as int],
    {
        self.frames[t]
    }

    /// Word `i` of table `t`.
    pub fn table_word(&self, t: usize, i: usize) -> (r: u64)
        requires
            self.wf(),
            t < self.table_frames().len(),
            i < ENTRIES_PER_TABLE,
        ensures
            r == self.table_words()[t * 512 + i],
    {
        proof {
            lemma_entry_in_bounds(t as int, i as int, self.ntables());
        }
        self.entries[t * ENTRIES_PER_TABLE + i]
    }

    /// Whether the top-level entries covering `[lo, hi)` are all missing,
    /// which leaves every address there unmapped. Ranges that cross a
    /// 2^48-byte boundary are reported as not known to be unmapped.
    pub fn range_unmapped(&self, lo: u64, hi: u64) -> (r: bool)
        requires
            self.wf(),
        ensures
            r == (hi <= lo || ((lo >> 48u64) == ((hi - 1) as u64 >> 48u64) && forall|j: int|
                slot(lo, 3) <= j <= slot((hi - 1) as u64, 3) ==> !entry_present(#[trigger] self.table_words()[j]))),
            r ==> forall|a: u64| lo <= a < hi ==> #[trigger] self.mapped(a).is_none(),
    {
        if hi <= lo {
            return true;
        }
        let last = hi - 1;
        if lo >> 48u64 != last >> 48u64 {
            return false;
        }
        proof {
            lemma_slot_bound(lo);
            lemma_slot_bound(last);
            assert(lo <= last && (lo >> 48u64) == (last >> 48u64) ==> ((lo >> 39u64) & 0x1ff) <= ((last
                >> 39u64) & 0x1ff)) by (bit_vector);
        }
        let first_slot = ((lo >> 39u64) & 0x1ff) as usize;
        let last_slot = ((last >> 39u64) & 0x1ff) as usize;
        let mut s: usize = first_slot;
        while s <= last_slot
            invariant
                self.wf(),
                first_slot == slot(lo, 3),
                last_slot == slot(last, 3),
                first_slot <= s <= last_slot + 1,
                last_slot < 512,
                forall|j: int| first_slot <= j < s ==> !entry_present(#[trigger] self.entry(0, j)),
                forall|j: int| first_slot <= j < s ==> !entry_present(#[trigger] self.table_words()[j]),
                last == (hi - 1) as u64,
                lo < hi,
                (lo >> 48u64) == (last >> 48u64),
            decreases 512 - s,
        {
            proof {
                lemma_entry_in_bounds(0, s as int, self.ntables());
            }
            if self.entries[s] & PRESENT == PRESENT {
                assert(entry_present(self.table_words()[s as int]));
                assert(slot(lo, 3) <= s <= slot((hi - 1) as u64, 3));
                return false;
            }
            assert(self.entry(0, s as int) == self.entries@[s as int]);
            assert(self.table_words()[s as int] == self.entries@[s as int]);
            s = s + 1;
        }
        proof {
            assert forall|a: u64| lo <= a < hi implies #[trigger] self.mapped(a).is_none() by {
                assert(lo <= a && a <= last && (lo >> 48u64) == (last >> 48u64) ==> ((lo >> 39u64) & 0x1ff)
                    <= ((a >> 39u64) & 0x1ff) && ((a >> 39u64) & 0x1ff) <= ((last >> 39u64) & 0x1ff))
                    by (bit_vector);
                assert(!entry_present(self.entry(0, slot(a, 3))));
            }
        }
        true
    }

    /// Adds a table with all entries missing, held in frame `f`.
    fn push_empty_table(&mut self, f: u64)
        requires
            old(self).entries@.len() == old(self).frames@.len() * 512,
        ensures
            final(self).frames@ == old(self).frames@.push(f),
            final(self).entries@.len() == old(self).entries@.len() + 512,
            final(self).entries@.len() <= usize::MAX,
            forall|m: int| 0 <= m < old(self).entries@.len() ==> final(self).entries@[m] == old(self).entries@[m],
            forall|m: int|
                old(self).entries@.len() <= m < old(self).entries@.len() + 512 ==> final(self).entries@[m] == 0,
            final(self).levels == old(self).levels,
            final(self).prefixes == old(self).prefixes,
    {
        self.frames.push(f);
        let mut j: usize = 0;
        while j < ENTRIES_PER_TABLE
            invariant
                j <= 512,
                self.frames@ == old(self).frames@.push(f),
                self.levels == old(self).levels,
                self.prefixes == old(self).prefixes,
                self.entries@.len() == old(self).entries@.len() + j,
                forall|m: int| 0 <= m < old(self).entries@.len() ==> self.entries@[m] == old(self).entries@[m],
                forall|m: int|
                    old(self).entries@.len() <= m < old(self).entries@.len() + j ==> self.entries@[m] == 0,
            decreases 512 - j,
        {
            self.entries.push(PageTableEntry::missing().0);
            j = j + 1;
        }
        // A vector's length is a `usize`: this keeps the entry indices in range.
        let _len = self.entries.len();
    }

    /// Follows entry `slot(va, level)` of table `t` to the table one level
    /// down, first creating that table, in a frame from `alloc`, when the
    /// entry is missing.
    fn next_table(&mut self, t: usize, level: usize, va: u64, alloc: &mut Global) -> (r: Result<usize, MapError>)
        requires
            old(self).wf(),
            old(alloc).wf(),
            frames_disjoint(old(alloc).pending(), old(self).table_frames()),
            1 <= level <= 3,
            old(self).table_at(va, level as int) == Some(t as int),
        ensures
            final(self).wf(),
            final(alloc).wf(),
            frames_disjoint(final(alloc).pending(), final(self).table_frames()),
            tables_grown_from(old(self).table_frames(), final(self).table_frames(), old(alloc).pending(), final(alloc).pending()),
            forall|vb: u64| #[trigger] final(self).mapped(vb) == old(self).mapped(vb),
            r.is_ok() ==> {
                &&& final(self).table_at(va, level - 1) == Some(r.unwrap() as int)
                &&& old(self).needed(t as int, level as int, va) == (final(self).ntables() - old(self).ntables())
                    + final(self).needed(r.unwrap() as int, level - 1, va)
                &&& old(self).hits_huge(t as int, level as int, va) == (final(self).ntables() == old(self).ntables()
                    && final(self).hits_huge(r.unwrap() as int, level - 1, va))
                &&& final(self).ntables() > old(self).ntables() ==> !final(self).hits_huge(r.unwrap() as int, level - 1, va)
            },
            !(r matches Err(MapError::PageAlreadyMapped)),
            (r matches Err(MapError::PhysAllocError(_))) ==> {
                &&& old(self).needed(t as int, level as int, va) == level
                &&& old(alloc).pending().len() == 0
                &&& final(self).table_frames() == old(self).table_frames()
                &&& !entry_present(old(self).walk_entry(va, level as int).unwrap())
                &&& !old(self).hits_huge(t as int, level as int, va)
            },
            (r matches Err(MapError::Unsupported)) ==> {
                &&& old(self).hits_huge(t as int, level as int, va)
                &&& *final(self) == *old(self)
                &&& *final(alloc) == *old(alloc)
            },
            r.is_ok() && final(self).ntables() == old(self).ntables() ==> *final(self) == *old(self)
                && *final(alloc) == *old(alloc),
            r.is_ok() ==> final(self).walk_entry(va, level as int) == if entry_present(
                old(self).walk_entry(va, level as int).unwrap(),
            ) {
                old(self).walk_entry(va, level as int)
            } else {
                Some(entry_word(PRESENT | WRITABLE | USER, entry_frame(final(self).walk_entry(va, level as int).unwrap())))
            },
            forall|at: int| level < at <= 3 ==> #[trigger] final(self).walk_entry(va, at) == old(self).walk_entry(va, at),
            forall|vb: u64|
                old(self).table_at(vb, 0).is_some() ==> #[trigger] final(self).walk_entry(vb, 0) == old(
                    self,
                ).walk_entry(vb, 0) && final(self).table_at(vb, 0) == old(self).table_at(vb, 0),
            r.is_ok() && entry_present(old(self).walk_entry(va, level as int).unwrap()) ==> *final(self)
                == *old(self) && *final(alloc) == *old(alloc),
            !entry_present(old(self).walk_entry(va, level as int).unwrap()) && r.is_ok() ==> final(self).walk_entry(
                va,
                level - 1,
            ) == Some(0u64),
            forall|x: int, j: int|
                0 <= x < old(self).ntables() && 0 <= j < 512 && old(self).levels@[x] > level ==> #[trigger] final(self).entry(x, j)
                    == old(self).entry(x, j),
            forall|g: u64| #[trigger] old(self).has_table(g) ==> final(self).table_index(g) == old(self).table_index(g),
            final(self).ntables() >= old(self).ntables(),
            forall|x: int| 0 <= x < old(self).ntables() ==> #[trigger] final(self).levels@[x] == old(self).levels@[x],
            forall|x: int, j: int|
                old(self).ntables() <= x < final(self).ntables() && 0 <= j < 512 ==> #[trigger] final(self).entry(x, j)
                    == 0,
            forall|x: int, j: int|
                0 <= x < old(self).ntables() && 0 <= j < 512 && (x != t || j != slot(va, level as int))
                    ==> #[trigger] final(self).entry(x, j) == old(self).entry(x, j),
            r.is_ok() && final(self).ntables() > old(self).ntables() ==> r.unwrap() == old(self).ntables(),
            final(self).ntables() <= old(self).ntables() + 1,
    {
        proof {
            self.lemma_table_at(va, level as int);
            lemma_slot_bound(va);
        }
        let i = slot_index(va, level);
        proof {
            lemma_entry_in_bounds(t as int, i as int, self.ntables());
        }
        let k = t * ENTRIES_PER_TABLE + i;
        let e = self.entries[k];
        assert(e == self.entry(t as int, i as int));
        if e & PRESENT == PRESENT {
            if e & HUGE_PAGE == HUGE_PAGE {
                proof {
                    assert(old(alloc).pending().skip(0) =~= old(alloc).pending());
                    assert(self.frames@.subrange(0, self.frames@.len() as int) =~= self.frames@);
                }
                return Err(MapError::Unsupported);
            }
            assert(self.child_ok(t as int, i as int));
            let c = self.find_table(e & FRAME_MASK).unwrap();
            proof {
                assert(self.hits_huge(t as int, level as int, va) == self.hits_huge(c as int, level - 1, va));
                assert(old(alloc).pending().skip(0) =~= old(alloc).pending());
                assert(self.frames@.subrange(0, self.frames@.len() as int) =~= self.frames@);
            }
            return Ok(c);
        }
        let frame = match alloc.allocate_frame() {
            Ok(frame) => frame,
            Err(err) => {
                proof {
                    assert(alloc.pending().skip(0) =~= alloc.pending());
                    assert(self.frames@.subrange(0, self.frames@.len() as int) =~= self.frames@);
                }
                return Err(MapError::PhysAllocError(err));
            },
        };
        let ghost before = *self;
        proof {
            old(alloc).lemma_wf_pending();
            assert(valid_frame_addr(old(alloc).pending()[0]));
            assert(old(alloc).pending().contains(frame.addr()));
            if before.has_table(frame.0.0) {
                let u = choose|u: int| 0 <= u < before.ntables() && before.frames@[u] == frame.0.0;
                assert(old(alloc).pending()[0] != before.frames@[u] as int);
            }
        }
        let c = self.frames.len();
        self.push_empty_table(frame.0.0);
        self.levels = Ghost(self.levels@.push(level - 1));
        self.prefixes = Ghost(self.prefixes@.push((self.prefixes@[t as int] << 9u64) | (i as u64)));
        let w = PageTableEntry::new(PageFlags { bits: PRESENT | WRITABLE | USER }, frame);
        assert((PRESENT | WRITABLE | USER) & PRESENT == PRESENT) by (bit_vector);
        proof {
            let f = frame.0.0;
            assert(f & 0xfff == 0) by (bit_vector)
                requires f % 4096 == 0;
            assert(((7u64 & !0x7FFF_FFFF_FFFF_F000u64) | f) & 0x80 == 0) by (bit_vector)
                requires f & 0xfff == 0;
            assert(1u64 | 2u64 | 4u64 == 7u64) by (bit_vector);
        }
        self.entries.set(k, w.0);
        proof {
            before.lemma_install(self, t as int, i as int);
            before.lemma_table_at_stable(self, va, level as int, level as int);
            assert forall|at: int| level < at <= 3 implies #[trigger] self.walk_entry(va, at) == before.walk_entry(va, at) by {
                before.lemma_walk_entry_stable(self, va, at, level as int);
            }
            assert(self.entry(t as int, i as int) == w.0);
            assert forall|x: int| 0 <= x < before.ntables() implies #[trigger] self.levels@[x] == before.levels@[x] by {}
            let n = before.ntables();
            let s0 = slot(va, level - 1);
            lemma_entry_in_bounds(n, s0, n + 1);
            assert(self.table_at(va, level - 1) == Some(n));
            assert(self.entry(n, s0) == 0);
            assert(0u64 & 1 != 1) by (bit_vector);
            assert(!self.hits_huge(n, level - 1, va));
            assert(!before.hits_huge(t as int, level as int, va));
            assert forall|x: int, j: int| n <= x < self.ntables() && 0 <= j < 512 implies #[trigger] self.entry(x, j) == 0 by {
                lemma_entry_in_bounds(x, j, n + 1);
                lemma_entry_in_bounds(t as int, i as int, n);
            }
            assert forall|vb: u64| before.table_at(vb, 0).is_some() implies #[trigger] self.walk_entry(vb, 0)
                == before.walk_entry(vb, 0) && self.table_at(vb, 0) == before.table_at(vb, 0) by {
                before.lemma_install_table_at(self, t as int, i as int, vb, 0);
                before.lemma_table_at(vb, 0);
                lemma_slot_bound(vb);
            }
            let pn = alloc.pending();
            let pend0 = old(alloc).pending();
            assert(pn =~= pend0.skip(1));
            assert(self.frames@.subrange(0, before.ntables()) =~= before.frames@);
            assert(frames_disjoint(pn, self.table_frames())) by {
                assert forall|a: int, b: int| 0 <= a < pn.len() && 0 <= b < self.frames@.len() implies pn[a]
                    != self.frames@[b] as int by {
                    assert(pn[a] == pend0[a + 1]);
                    assert(pend0.no_duplicates());
                    if b == before.ntables() {
                        assert(pend0[0] == frame.addr());
                    } else {
                        assert(self.frames@[b] == before.frames@[b]);
                    }
                }
            }
            assert(self.entry(t as int, i as int) == w.0);
        }
        Ok(c)
    }

    /// Maps `page` to `frame` with `flags`, creating the missing tables on
    /// the way with frames from `alloc`.
    ///
    /// Succeeds exactly when the page is not mapped yet and `alloc` has a
    /// frame for each table to be created; the page then translates to
    /// `frame` (when `flags` hold the present bit) and no other page's
    /// translation changes. A page that is already mapped gives
    /// `PageAlreadyMapped` and changes nothing. When frames run out, the
    /// tables created so far stay, empty, and no translation changes.
    /// Follows the walk for `va` down to its last-level table, creating
    /// the missing tables with frames from `alloc`.
    #[verifier::rlimit(60)]
    fn walk_create(&mut self, va: u64, alloc: &mut Global) -> (r: Result<usize, MapError>)
        requires
            old(self).wf(),
            old(alloc).wf(),
            frames_disjoint(old(alloc).pending(), old(self).table_frames()),
        ensures
            final(self).wf(),
            final(alloc).wf(),
            frames_disjoint(final(alloc).pending(), final(self).table_frames()),
            tables_grown_from(old(self).table_frames(), final(self).table_frames(), old(alloc).pending(), final(alloc).pending()),
            forall|vb: u64| #[trigger] final(self).mapped(vb) == old(self).mapped(vb),
            forall|vb: u64|
                old(self).walk_entry(vb, 0).is_some() ==> #[trigger] final(self).walk_entry(vb, 0) == old(
                    self,
                ).walk_entry(vb, 0),
            !(r matches Err(MapError::PageAlreadyMapped)),
            (r matches Err(MapError::PhysAllocError(_))) ==> {
                &&& old(self).mapped(va).is_none()
                &&& !old(self).huge_mapped(va)
                &&& old(self).tables_needed(va) > old(alloc).pending().len()
                &&& final(alloc).pending().len() == 0
            },
            (r matches Err(MapError::Unsupported)) ==> {
                &&& old(self).huge_mapped(va)
                &&& *final(self) == *old(self)
                &&& *final(alloc) == *old(alloc)
            },
            r.is_ok() ==> {
                &&& final(self).table_at(va, 0) == Some(r.unwrap() as int)
                &&& !old(self).huge_mapped(va)
                &&& old(self).tables_needed(va) == final(self).ntables() - old(self).ntables()
                &&& final(self).ntables() == old(self).ntables() ==> *final(self) == *old(self) && *final(alloc)
                    == *old(alloc)
                &&& forall|l: int|
                    1 <= l <= 3 ==> linked(old(self).walk_entry(va, l), #[trigger] final(self).walk_entry(va, l))
                &&& forall|vb: u64|
                    old(self).table_at(vb, 0).is_some() ==> #[trigger] final(self).walk_entry(vb, 0) == old(
                        self,
                    ).walk_entry(vb, 0) && final(self).table_at(vb, 0) == old(self).table_at(vb, 0)
                &&& forall|x: int, j: int|
                    old(self).ntables() <= x < final(self).ntables() && 0 <= j < 512 && #[trigger] final(self).entry(x, j)
                        != 0 ==> final(self).on_walk(va, x, j)
                &&& forall|x: int, j: int|
                    0 <= x < old(self).ntables() && 0 <= j < 512 && !final(self).on_walk(va, x, j)
                        ==> #[trigger] final(self).entry(x, j) == old(self).entry(x, j)
            },
    {
        proof {
            self.lemma_table_at(va, 3);
        }
        let t2 = match self.next_table(0, 3, va, alloc) {
            Ok(c) => c,
            Err(err) => {
                proof {
                    if err matches MapError::PhysAllocError(_) {
                        old(self).lemma_needed_unmapped(0, 3, va);
                    }
                }
                return Err(err);
            },
        };
        let ghost s1 = *self;
        let ghost q1 = alloc.pending();
        let t1 = match self.next_table(t2, 2, va, alloc) {
            Ok(c) => c,
            Err(err) => {
                proof {
                    if err matches MapError::PhysAllocError(_) {
                        old(self).lemma_needed_unmapped(0, 3, va);
                    } else {
                        assert(s1.ntables() == old(self).ntables());
                    }
                    lemma_tables_grown_trans(old(self).table_frames(), s1.table_frames(), self.table_frames(), old(alloc).pending(), q1, alloc.pending());
                }
                return Err(err);
            },
        };
        let ghost s2 = *self;
        let ghost q2 = alloc.pending();
        proof {
            lemma_tables_grown_trans(old(self).table_frames(), s1.table_frames(), s2.table_frames(), old(alloc).pending(), q1, q2);
        }
        let t0 = match self.next_table(t1, 1, va, alloc) {
            Ok(c) => c,
            Err(err) => {
                proof {
                    if err matches MapError::PhysAllocError(_) {
                        old(self).lemma_needed_unmapped(0, 3, va);
                    } else {
                        assert(s2.ntables() == s1.ntables());
                        assert(s1.ntables() == old(self).ntables());
                    }
                    lemma_tables_grown_trans(old(self).table_frames(), s2.table_frames(), self.table_frames(), old(alloc).pending(), q2, alloc.pending());
                }
                return Err(err);
            },
        };
        proof {
            lemma_tables_grown_trans(old(self).table_frames(), s2.table_frames(), self.table_frames(), old(alloc).pending(), q2, alloc.pending());
            self.lemma_table_at(va, 0);
            lemma_slot_bound(va);
            old(self).lemma_path_facts(va);
            s1.lemma_path_facts(va);
            s2.lemma_path_facts(va);
        }
        proof {
            PageMapper::lemma_linked_chain(*old(self), s1, s2, *self, va);
            s1.lemma_table_at_stable(&s2, va, 2, 2);
            s2.lemma_table_at_stable(self, va, 2, 1);
            s2.lemma_table_at_stable(self, va, 1, 1);
            old(self).lemma_table_at_stable(&s1, va, 3, 3);
            s1.lemma_table_at_stable(&s2, va, 3, 2);
            s2.lemma_table_at_stable(self, va, 3, 1);
            assert(self.table_at(va, 3) == Some(0int));
            assert forall|x: int, j: int|
                old(self).ntables() <= x < self.ntables() && 0 <= j < 512 && #[trigger] self.entry(x, j) != 0
                    implies self.on_walk(va, x, j) by {
                if x == t2 as int && j == slot(va, 2) {
                    assert(self.table_at(va, 2) == Some(x));
                } else if x == t1 as int && j == slot(va, 1) {
                    assert(self.table_at(va, 1) == Some(x));
                }
            }
            assert forall|x: int, j: int|
                0 <= x < old(self).ntables() && 0 <= j < 512 && !self.on_walk(va, x, j)
                    implies #[trigger] self.entry(x, j) == old(self).entry(x, j) by {
                if x == 0 && j == slot(va, 3) {
                    assert(self.on_walk(va, x, j));
                } else if x == t2 as int && j == slot(va, 2) {
                    assert(self.table_at(va, 2) == Some(x));
                    assert(self.on_walk(va, x, j));
                } else if x == t1 as int && j == slot(va, 1) {
                    assert(self.table_at(va, 1) == Some(x));
                    assert(self.on_walk(va, x, j));
                }
            }
        }
        Ok(t0)
    }

    #[verifier::rlimit(100)]
    #[verifier::spinoff_prover]
    pub fn map_page(&mut self, page: Page, frame: Frame, flags: PageFlags, alloc: &mut Global) -> (r: Result<(), MapError>)
        requires
            old(self).wf(),
            old(alloc).wf(),
            valid_frame_addr(frame.addr()),
            frames_disjoint(old(alloc).pending(), old(self).table_frames()),
        ensures
            final(self).wf(),
            final(alloc).wf(),
            frames_disjoint(final(alloc).pending(), final(self).table_frames()),
            tables_grown_from(old(self).table_frames(), final(self).table_frames(), old(alloc).pending(), final(alloc).pending()),
            r.is_ok() <==> old(self).mapped(page.0.0 as u64).is_none() && old(self).tables_needed(page.0.0 as u64)
                <= old(alloc).pending().len(),
            r == Err::<(), MapError>(MapError::PageAlreadyMapped) <==> old(self).mapped(page.0.0 as u64).is_some()
                && !old(self).huge_mapped(page.0.0 as u64),
            r == Err::<(), MapError>(MapError::Unsupported) <==> old(self).huge_mapped(page.0.0 as u64),
            r == Err::<(), MapError>(MapError::Unsupported) ==> *final(self) == *old(self) && *final(alloc)
                == *old(alloc),
            r.is_ok() ==> {
                &&& final(self).mapped(page.0.0 as u64) == if flags.bits & PRESENT == PRESENT {
                    Some(frame.0.0)
                } else {
                    None
                }
                &&& final(self).table_frames().len() == old(self).table_frames().len()
                    + old(self).tables_needed(page.0.0 as u64)
                &&& forall|vb: u64|
                    page_number(vb) != page_number(page.0.0 as u64) ==> #[trigger] final(self).mapped(vb)
                        == old(self).mapped(vb)
            },
            r.is_err() ==> forall|vb: u64| #[trigger] final(self).mapped(vb) == old(self).mapped(vb),
            r.is_err() ==> forall|vb: u64|
                old(self).walk_entry(vb, 0).is_some() ==> #[trigger] final(self).walk_entry(vb, 0) == old(
                    self,
                ).walk_entry(vb, 0),
            (r matches Err(MapError::PhysAllocError(_))) ==> final(alloc).pending().len() == 0,
            r == Err::<(), MapError>(MapError::PageAlreadyMapped) ==> final(self).table_frames()
                == old(self).table_frames() && final(alloc).pending() == old(alloc).pending(),
            r == Err::<(), MapError>(MapError::PageAlreadyMapped) ==> *final(self) == *old(self) && *final(alloc)
                == *old(alloc),
            r.is_ok() ==> final(self).walk_entry(page.0.0 as u64, 0) == Some(entry_word(flags.bits, frame.0.0)),
            r.is_ok() ==> forall|x: int, j: int|
                old(self).table_frames().len() <= x < final(self).table_frames().len() && 0 <= j < 512
                    && #[trigger] final(self).table_words()[x * 512 + j] != 0 ==> final(self).on_walk(page.0.0 as u64, x, j),
            r.is_ok() ==> forall|x: int, j: int|
                0 <= x < old(self).table_frames().len() && 0 <= j < 512 && !final(self).on_walk(page.0.0 as u64, x, j)
                    ==> #[trigger] final(self).table_words()[x * 512 + j] == old(self).table_words()[x * 512 + j],
            r.is_ok() ==> forall|vb: u64|
                page_number(vb) != page_number(page.0.0 as u64) && old(self).walk_entry(vb, 0).is_some()
                    && entry_present(old(self).walk_entry(vb, 0).unwrap()) ==> #[trigger] final(self).walk_entry(vb, 0)
                    == old(self).walk_entry(vb, 0),
            r.is_ok() ==> forall|l: int|
                1 <= l <= 3 ==> linked(old(self).walk_entry(page.0.0 as u64, l), #[trigger] final(self).walk_entry(page.0.0 as u64, l)),
    {
        let va = page.0.0 as u64;
        let t0 = match self.walk_create(va, alloc) {
            Ok(t0) => t0,
            Err(err) => {
                proof {
                    if old(self).huge_mapped(va) {
                        old(self).lemma_huge_is_mapped(0, 3, va);
                    }
                }
                return Err(err);
            },
        };
        proof {
            self.lemma_table_at(va, 0);
            lemma_slot_bound(va);
        }
        let ghost s3 = *self;
        let i = slot_index(va, 0);
        proof {
            lemma_entry_in_bounds(t0 as int, i as int, self.ntables());
        }
        let k = t0 * ENTRIES_PER_TABLE + i;
        let current = PageTableEntry(self.entries[k]);
        assert(current.0 == self.entry(t0 as int, i as int));
        if current.flags().contains(PageFlags { bits: PRESENT }) {
            proof {
                assert(self.mapped(va).is_some());
                if old(self).tables_needed(va) > 0 {
                    old(self).lemma_needed_unmapped(0, 3, va);
                }
                assert(self.frames@ =~= old(self).frames@);
            }
            return Err(MapError::PageAlreadyMapped);
        }
        let entry = PageTableEntry::new(flags, frame);
        let ghost before = *self;
        self.entries.set(k, entry.0);
        proof {
            assert((t0 * 512 + i) / 512 == t0);
            before.lemma_leaf_of_stable(self, k as int, 0, va);
            self.lemma_lookup_via_leaf(0, 3, va);
            before.lemma_table_at_stable(self, va, 0, 0);
            assert forall|l: int| 1 <= l <= 3 implies #[trigger] self.walk_entry(va, l) == s3.walk_entry(va, l) by {
                before.lemma_walk_entry_stable(self, va, l, 0);
            }
            assert forall|vb: u64|
                page_number(vb) != page_number(va) && old(self).walk_entry(vb, 0).is_some() && entry_present(
                    old(self).walk_entry(vb, 0).unwrap(),
                ) implies #[trigger] self.walk_entry(vb, 0) == old(self).walk_entry(vb, 0) by {
                assert(s3.walk_entry(vb, 0) == old(self).walk_entry(vb, 0));
                let x0 = s3.table_at(vb, 0).unwrap();
                s3.lemma_table_at(vb, 0);
                before.lemma_table_at_stable(self, vb, 0, 0);
                lemma_slot_bound(vb);
                lemma_entry_in_bounds(x0, slot(vb, 0), s3.ntables());
                if x0 == t0 && slot(vb, 0) == i {
                    lemma_same_leaf_same_page(va, vb);
                }
                assert(self.entry(x0, slot(vb, 0)) == s3.entry(x0, slot(vb, 0)));
            }
            assert(self.entry(t0 as int, i as int) == entry.0);
            assert forall|l: int| 0 <= l <= 3 implies #[trigger] self.table_at(va, l) == s3.table_at(va, l) by {
                before.lemma_table_at_stable(self, va, l, 0);
            }
            assert(self.on_walk(va, t0 as int, i as int)) by {
                assert(self.table_at(va, 0) == Some(t0 as int));
            }
            assert forall|x: int, j: int|
                old(self).ntables() <= x < self.ntables() && 0 <= j < 512 && #[trigger] self.table_words()[x * 512 + j]
                    != 0 implies self.on_walk(va, x, j) by {
                lemma_entry_in_bounds(x, j, self.ntables());
                assert(self.table_words()[x * 512 + j] == self.entry(x, j));
                if x != t0 || j != i {
                    lemma_entry_in_bounds(t0 as int, i as int, self.ntables());
                    assert(self.entry(x, j) == s3.entry(x, j));
                    assert(s3.on_walk(va, x, j));
                    let l = choose|l: int| 0 <= l <= 3 && s3.table_at(va, l) == Some(x) && j == slot(va, l);
                    assert(self.table_at(va, l) == Some(x));
                }
            }
            assert forall|x: int, j: int|
                0 <= x < old(self).ntables() && 0 <= j < 512 && !self.on_walk(va, x, j)
                    implies #[trigger] self.table_words()[x * 512 + j] == old(self).table_words()[x * 512 + j] by {
                lemma_entry_in_bounds(x, j, old(self).ntables());
                lemma_entry_in_bounds(t0 as int, i as int, self.ntables());
                assert(x != t0 || j != i);
                assert(self.entry(x, j) == s3.entry(x, j));
                if s3.on_walk(va, x, j) {
                    let l = choose|l: int| 0 <= l <= 3 && s3.table_at(va, l) == Some(x) && j == slot(va, l);
                    assert(self.table_at(va, l) == Some(x));
                }
                assert(s3.entry(x, j) == old(self).entry(x, j));
            }
            assert forall|vb: u64| page_number(vb) != page_number(va) implies #[trigger] self.mapped(vb)
                == before.mapped(vb) by {
                lemma_prefix_step(vb);
                before.lemma_leaf_write(self, t0 as int, i as int, va, 0, vb);
            }
            assert(self.wf()) by {
                assert forall|t: int, j: int|
                    0 <= t < self.ntables() && 0 <= j < 512 && self.levels@[t] > 0 && entry_present(
                        #[trigger] self.entry(t, j),
                    ) && !entry_huge(self.entry(t, j)) implies self.child_ok(t, j) by {
                    assert(self.entry(t, j) == before.entry(t, j));
                    assert(before.child_ok(t, j));
                }
            }
        }
        Ok(())
    }

    /// Addresses in one page translate alike.
    pub proof fn lemma_mapped_same_page(&self, va: u64, vb: u64)
        requires
            page_number(va) == page_number(vb),
        ensures
            self.mapped(va) == self.mapped(vb),
    {
        assert(((va >> 12u64) & 0xf_ffff_ffff) == ((vb >> 12u64) & 0xf_ffff_ffff) ==> {
            &&& ((va >> 39u64) & 0x1ff) == ((vb >> 39u64) & 0x1ff)
            &&& ((va >> 30u64) & 0x1ff) == ((vb >> 30u64) & 0x1ff)
            &&& ((va >> 21u64) & 0x1ff) == ((vb >> 21u64) & 0x1ff)
            &&& ((va >> 12u64) & 0x1ff) == ((vb >> 12u64) & 0x1ff)
        }) by (bit_vector);
        self.lemma_lookup_same_slots(0, 3, va, vb);
    }

    proof fn lemma_lookup_same_slots(&self, t: int, level: int, va: u64, vb: u64)
        requires
            forall|l: int| 0 <= l <= 3 ==> slot(va, l) == slot(vb, l),
            page_number(va) == page_number(vb),
            level <= 3,
        ensures
            self.lookup(t, level, va) == self.lookup(t, level, vb),
        decreases level,
    {
        assert(((va >> 12u64) & 0xf_ffff_ffff) == ((vb >> 12u64) & 0xf_ffff_ffff) ==> {
            &&& (va & 0x1f_ffff & !0xfffu64) == (vb & 0x1f_ffff & !0xfffu64)
            &&& (va & 0x3fff_ffff & !0xfffu64) == (vb & 0x3fff_ffff & !0xfffu64)
            &&& (va & 0x7f_ffff_ffff & !0xfffu64) == (vb & 0x7f_ffff_ffff & !0xfffu64)
        }) by (bit_vector);
        assert(slot(va, level) == slot(vb, level)) by {
            if level < 0 {
                assert(slot(va, 0) == slot(vb, 0));
            }
        }
        let e = self.entry(t, slot(va, level));
        if level > 0 && entry_present(e) && !entry_huge(e) {
            if let Some(c) = self.table_index(entry_frame(e)) {
                self.lemma_lookup_same_slots(c, level - 1, va, vb);
            }
        }
    }

    /// Index of the table held in frame `f`, if one is.
    fn find_table(&self, f: u64) -> (r: Option<usize>)
        requires
            self.wf(),
        ensures
            r.is_some() == self.has_table(f),
            r.is_some() ==> self.table_index(f) == Some(r.unwrap() as int),
            r.is_none() ==> self.table_index(f).is_none(),
    {
        let mut t: usize = 0;
        while t < self.frames.len()
            invariant
                self.wf(),
                t <= self.frames@.len(),
                forall|u: int| 0 <= u < t ==> self.frames@[u] != f,
            decreases self.frames@.len() - t,
        {
            if self.frames[t] == f {
                proof {
                    self.lemma_table_index(t as int);
                }
                return Some(t);
            }
            t = t + 1;
        }
        None
    }

    /// The last-level table on the walk for `va`, if the walk gets that far.
    fn leaf_table(&self, va: u64) -> (r: Result<usize, bool>)
        requires
            self.wf(),
        ensures
            r.is_ok() ==> {
                let t0 = r.unwrap() as int;
                &&& self.leaf_of(0, 3, va) == Some(t0)
                &&& self.table_at(va, 0) == Some(t0)
                &&& 0 <= t0 < self.ntables()
                &&& self.levels@[t0] == 0
                &&& self.prefixes@[t0] == prefix(va, 0)
                &&& self.mapped(va) == self.lookup(t0, 0, va)
                &&& !self.huge_mapped(va)
            },
            r matches Err(huge) ==> huge == self.huge_mapped(va),
            r == Err::<usize, bool>(false) ==> self.mapped(va).is_none(),
    {
        let mut t: usize = 0;
        let mut level: usize = 3;
        proof {
            lemma_slot_bound(va);
            lemma_prefix_step(va);
        }
        while level > 0
            invariant
                self.wf(),
                0 <= level <= 3,
                t < self.frames@.len(),
                self.levels@[t as int] == level,
                self.prefixes@[t as int] == prefix(va, level as int),
                self.mapped(va) == self.lookup(t as int, level as int, va),
                self.tables_needed(va) == self.needed(t as int, level as int, va),
                self.leaf_of(0, 3, va) == self.leaf_of(t as int, level as int, va),
                self.table_at(va, level as int) == Some(t as int),
                self.huge_mapped(va) == self.hits_huge(t as int, level as int, va),
                0 <= slot(va, 3) < 512,
                0 <= slot(va, 2) < 512,
                0 <= slot(va, 1) < 512,
                0 <= slot(va, 0) < 512,
                prefix(va, 2) == (prefix(va, 3) << 9u64) | (slot(va, 3) as u64),
                prefix(va, 1) == (prefix(va, 2) << 9u64) | (slot(va, 2) as u64),
                prefix(va, 0) == (prefix(va, 1) << 9u64) | (slot(va, 1) as u64),
            decreases level,
        {
            let i = slot_index(va, level);
            proof {
                lemma_entry_in_bounds(t as int, i as int, self.ntables());
            }
            let e = self.entries[t * ENTRIES_PER_TABLE + i];
            assert(e == self.entry(t as int, i as int));
            if e & PRESENT != PRESENT {
                return Err(false);
            }
            if e & HUGE_PAGE == HUGE_PAGE {
                return Err(true);
            }
            assert(self.child_ok(t as int, i as int));
            let c = self.find_table(e & FRAME_MASK).unwrap();
            t = c;
            level = level - 1;
        }
        Ok(t)
    }

    /// The frame that `page` maps to, or `None` when some level of its walk
    /// is absent. Only the frame is reported, never the flags.
    pub fn translate_page(&self, page: Page) -> (r: Option<Frame>)
        requires
            self.wf(),
        ensures
            r.is_some() == self.mapped(page.0.0 as u64).is_some(),
            r.is_some() ==> r.unwrap().0.0 == self.mapped(page.0.0 as u64).unwrap(),
    {
        let va = page.0.0 as u64;
        let mut t: usize = 0;
        let mut level: usize = 3;
        proof {
            lemma_slot_bound(va);
        }
        while level > 0
            invariant
                self.wf(),
                va == page.0.0 as u64,
                0 <= level <= 3,
                t < self.frames@.len(),
                self.levels@[t as int] == level,
                self.mapped(va) == self.lookup(t as int, level as int, va),
                0 <= slot(va, 3) < 512,
                0 <= slot(va, 2) < 512,
                0 <= slot(va, 1) < 512,
                0 <= slot(va, 0) < 512,
            decreases level,
        {
            let i = slot_index(va, level);
            proof {
                lemma_entry_in_bounds(t as int, i as int, self.ntables());
            }
            let e = self.entries[t * ENTRIES_PER_TABLE + i];
            assert(e == self.entry(t as int, i as int));
            if e & PRESENT != PRESENT {
                assert(!entry_present(e));
                return None;
            }
            if e & HUGE_PAGE == HUGE_PAGE {
                let mask: u64 = if level == 1 {
                    0x1f_ffff
                } else if level == 2 {
                    0x3fff_ffff
                } else {
                    0x7f_ffff_ffff
                };
                assert(mask == huge_mask(level as int));
                assert(e & HUGE_PAGE == HUGE_PAGE ==> entry_huge(e));
                assert(self.lookup(t as int, level as int, va) == Some(huge_frame(e, va, level as int)));
                return Some(Frame(PhysAddr(((e & FRAME_MASK) & !mask) | (va & mask & !0xfffu64))));
            }
            assert(self.child_ok(t as int, i as int));
            let c = self.find_table(e & FRAME_MASK).unwrap();
            t = c;
            level = level - 1;
        }
        let i = slot_index(va, 0);
        proof {
            lemma_entry_in_bounds(t as int, i as int, self.ntables());
        }
        let e = PageTableEntry(self.entries[t * ENTRIES_PER_TABLE + i]);
        assert(e.0 == self.entry(t as int, i as int));
        if e.flags().contains(PageFlags { bits: PRESENT }) {
            Some(e.frame())
        } else {
            None
        }
    }

    /// Removes the translation of `page` and hands back the frame it mapped,
    /// or fails, changing nothing, when the page is not mapped. No other
    /// page's translation changes, and no table is added or dropped.
    pub fn unmap_page(&mut self, page: Page) -> (r: Result<Frame, UnmapError>)
        requires
            old(self).wf(),
        ensures
            final(self).wf(),
            final(self).table_frames() == old(self).table_frames(),
            r.is_ok() == (old(self).mapped(page.0.0 as u64).is_some() && !old(self).huge_mapped(page.0.0 as u64)),
            r == Err::<Frame, UnmapError>(UnmapError::Unsupported) <==> old(self).huge_mapped(page.0.0 as u64),
            r.is_ok() ==> r.unwrap().0.0 == old(self).mapped(page.0.0 as u64).unwrap(),
            r != Err::<Frame, UnmapError>(UnmapError::Unsupported) ==> final(self).mapped(page.0.0 as u64).is_none(),
            forall|vb: u64|
                page_number(vb) != page_number(page.0.0 as u64) ==> #[trigger] final(self).mapped(vb)
                    == old(self).mapped(vb),
            r.is_err() ==> forall|vb: u64| #[trigger] final(self).mapped(vb) == old(self).mapped(vb),
            r.is_err() ==> *final(self) == *old(self),
            r.is_ok() ==> final(self).walk_entry(page.0.0 as u64, 0) == Some(0u64),
            forall|vb: u64|
                old(self).walk_entry(vb, 0).is_some() ==> #[trigger] final(self).walk_entry(vb, 0).is_some(),
            r.is_ok() ==> forall|l: int|
                1 <= l <= 3 ==> #[trigger] final(self).walk_entry(page.0.0 as u64, l) == old(self).walk_entry(
                    page.0.0 as u64,
                    l,
                ),
    {
        let va = page.0.0 as u64;
        let t0 = match self.leaf_table(va) {
            Err(true) => {
                proof {
                    old(self).lemma_huge_is_mapped(0, 3, va);
                }
                return Err(UnmapError::Unsupported);
            },
            Err(false) => return Err(UnmapError::PageNotMapped),
            Ok(t0) => t0,
        };
        let i = slot_index(va, 0);
        proof {
            lemma_slot_bound(va);
            lemma_entry_in_bounds(t0 as int, i as int, self.ntables());
        }
        let k = t0 * ENTRIES_PER_TABLE + i;
        let pte = PageTableEntry(self.entries[k]);
        assert(pte.0 == self.entry(t0 as int, i as int));
        if !pte.flags().contains(PageFlags { bits: PRESENT }) {
            return Err(UnmapError::PageNotMapped);
        }
        let frame = pte.frame();
        let ghost before = *self;
        self.entries.set(k, PageTableEntry::missing().0);
        proof {
            assert((t0 * 512 + i) / 512 == t0);
            before.lemma_table_at(va, 0);
            before.lemma_table_at_stable(self, va, 0, 0);
            assert forall|vb: u64| before.walk_entry(vb, 0).is_some() implies #[trigger] self.walk_entry(vb, 0).is_some() by {
                before.lemma_table_at_stable(self, vb, 0, 0);
            }
            assert forall|l: int| 1 <= l <= 3 implies #[trigger] self.walk_entry(va, l) == before.walk_entry(va, l) by {
                before.lemma_walk_entry_stable(self, va, l, 0);
            }
            assert(!entry_present(self.entry(t0 as int, i as int)));
            assert forall|vb: u64| page_number(vb) != page_number(va) implies #[trigger] self.mapped(vb)
                == before.mapped(vb) by {
                lemma_prefix_step(vb);
                before.lemma_leaf_write(self, t0 as int, i as int, va, 0, vb);
            }
            assert(self.wf()) by {
                assert forall|t: int, j: int|
                    0 <= t < self.ntables() && 0 <= j < 512 && self.levels@[t] > 0 && entry_present(
                        #[trigger] self.entry(t, j),
                    ) && !entry_huge(self.entry(t, j)) implies self.child_ok(t, j) by {
                    assert(self.entry(t, j) == before.entry(t, j));
                    assert(before.child_ok(t, j));
                }
            }
            let k0 = t0 * 512 + i;
            assert(k0 / 512 == t0);
            before.lemma_leaf_of_stable(self, k0 as int, 0, va);
            self.lemma_lookup_via_leaf(0, 3, va);
        }
        Ok(frame)
    }
}

proof fn lemma_entry_in_bounds(t: int, i: int, n: int)
    requires
        0 <= t < n,
        0 <= i < 512,
    ensures
        0 <= t * 512 + i < n * 512,
        (t * 512 + i) / 512 == t,
{
    assert(0 <= t * 512 + i < n * 512) by (nonlinear_arith)
        requires 0 <= t < n, 0 <= i < 512;
    assert((t * 512 + i) / 512 == t) by (nonlinear_arith)
        requires 0 <= t, 0 <= i < 512;
}

/// Mapping a page that was not mapped and then unmapping it gives back the
/// translations from before, for every address: the page reads as not
/// mapped again, and no other page ever changed.
pub proof fn lemma_map_unmap_round_trip(before: PageMapper, mapped: PageMapper, after: PageMapper, va: u64, frame: u64)
    requires
        before.mapped(va).is_none(),
        mapped.mapped(va) == Some(frame),
        forall|vb: u64| page_number(vb) != page_number(va) ==> #[trigger] mapped.mapped(vb) == before.mapped(vb),
        after.mapped(va).is_none(),
        forall|vb: u64| page_number(vb) != page_number(va) ==> #[trigger] after.mapped(vb) == mapped.mapped(vb),
    ensures
        forall|vb: u64| #[trigger] after.mapped(vb) == before.mapped(vb),
{
    assert forall|vb: u64| #[trigger] after.mapped(vb) == before.mapped(vb) by {
        if page_number(vb) == page_number(va) {
            after.lemma_mapped_same_page(vb, va);
            before.lemma_mapped_same_page(vb, va);
        }
    }
}

/// Index into the table at `level` that the walk for `va` uses.
fn slot_index(va: u64, level: usize) -> (r: usize)
    requires
        level <= 3,
    ensures
        r == slot(va, level as int),
        r < 512,
{
    proof {
        lemma_slot_bound(va);
    }
    let shift: u64 = 12 + 9 * (level as u64);
    let r = ((va >> shift) & 0x1ff) as usize;
    proof {
        if level == 3 { assert(shift == 39); } else if level == 2 { assert(shift == 30); } else if level == 1 { assert(shift == 21); } else { assert(shift == 12); }
    }
    r
}

} // verus!
