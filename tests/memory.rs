use kernel::address_space::x86_64::{
    MapError, PageFlags, PageMapper, PageTableEntry, TableError, UnmapError, HUGE_PAGE, PRESENT, USER,
    WRITABLE,
};
use kernel::address_space::{AddrSpace, AllocError, KernelAddrSpace, MapOptions};
use kernel::pmm::{Global, MemmapEntry, MemoryMapEntryType, PhysAllocError, PhysicalMemoryAllocator};
use kernel::types::{Frame, Page, PhysAddr, VirtAddr};
use kernel::vmm::{reserve_from, BumpAllocator, VirtAllocError, VirtualRegionAllocator};

const WINDOW: usize = 0xffff_8000_0000_0000;

fn page(addr: usize) -> Page {
    Page(VirtAddr(addr))
}

fn frame(addr: u64) -> Frame {
    Frame(PhysAddr(addr))
}

fn usable(base: u64, len: u64) -> MemmapEntry {
    MemmapEntry { base, len, typ: MemoryMapEntryType::Usable }
}

fn reserved(base: u64, len: u64) -> MemmapEntry {
    MemmapEntry { base, len, typ: MemoryMapEntryType::Reserved }
}

fn space(frames: u64) -> AddrSpace {
    AddrSpace::kernel(
        page(WINDOW)..page(WINDOW + 0x1000_0000),
        vec![usable(0x10_0000, frames * 4096)],
        PageMapper::new(frame(0x1000)),
    )
}

#[test]
fn bump_regions_increase_until_the_window_is_full() {
    let start = 0x4000_0000;
    let mut vmm = BumpAllocator::new(page(start)..page(start + 10 * 4096));
    for k in 0..3 {
        let r = vmm.allocate_region(3).unwrap();
        assert_eq!(r.start, page(start + k * 3 * 4096));
        assert_eq!(r.end, page(start + (k + 1) * 3 * 4096));
    }
    assert_eq!(vmm.allocate_region(3), Err(VirtAllocError::VirtualAddressSpaceExhausted));
    let last = vmm.allocate_region(1).unwrap();
    assert_eq!(last.start, page(start + 9 * 4096));
    assert_eq!(last.end, page(start + 10 * 4096));
    assert!(vmm.allocate_region(1).is_err());
}

#[test]
fn bump_region_overflowing_the_address_space_fails() {
    let mut vmm = BumpAllocator::new(page(usize::MAX - 0xfff)..page(usize::MAX));
    assert!(vmm.allocate_region(usize::MAX).is_err());
    assert!(vmm.allocate_region(1).is_err());
}

#[test]
fn reserve_from_hands_out_exact_range() {
    let r = reserve_from(page(0x1000), page(0x5000), 2).unwrap();
    assert_eq!(r, page(0x1000)..page(0x3000));
    assert!(reserve_from(page(0x1000), page(0x5000), 5).is_err());
    assert_eq!(reserve_from(page(0x1000), page(0x5000), 4).unwrap().end, page(0x5000));
}

#[test]
fn frames_come_from_usable_regions_in_order() {
    let mut pmm = Global::new(vec![
        usable(0x1000, 0x2000),
        reserved(0x3000, 0x1000),
        usable(0x8000, 0x1800),
    ]);
    assert_eq!(pmm.free_frames(), Some(3));
    assert_eq!(pmm.allocate_frame(), Ok(frame(0x1000)));
    assert_eq!(pmm.allocate_frame(), Ok(frame(0x2000)));
    assert_eq!(pmm.allocate_frame(), Ok(frame(0x8000)));
    assert_eq!(pmm.allocate_frame(), Err(PhysAllocError));
    assert_eq!(pmm.free_frames(), Some(0));
}

#[test]
fn freed_frames_are_reused_last_in_first_out() {
    let mut pmm = Global::new(vec![usable(0x10_0000, 0x4000)]);
    let a = pmm.allocate_frame().unwrap();
    let b = pmm.allocate_frame().unwrap();
    pmm.deallocate_frame(a);
    pmm.deallocate_frame(b);
    assert_eq!(pmm.allocate_frame(), Ok(b));
    assert_eq!(pmm.allocate_frame(), Ok(a));
    assert_eq!(pmm.allocate_frame(), Ok(frame(0x10_2000)));
}

#[test]
fn empty_memory_map_has_no_frames() {
    let mut pmm = Global::new(vec![]);
    assert_eq!(pmm.allocate_frame(), Err(PhysAllocError));
    pmm.deallocate_frame(frame(0x5000));
    assert_eq!(pmm.allocate_frame(), Ok(frame(0x5000)));
}

#[test]
fn entry_encoding_keeps_flags_and_frame_apart() {
    let e = PageTableEntry::new(PageFlags::from_bits_truncate(PRESENT | WRITABLE), frame(0xabc_d000));
    assert_eq!(e.0, 0xabc_d003);
    assert_eq!(e.frame(), frame(0xabc_d000));
    assert_eq!(e.flags().bits(), 3);
    assert!(e.flags().contains(PageFlags::from_bits_truncate(PRESENT)));
    assert_eq!(PageTableEntry::missing().0, 0);
    assert_eq!(PageFlags::from_bits_truncate(u64::MAX).bits(), 0x97);
    assert_eq!(PageTableEntry(0x8000_0000_0000_1067).frame(), frame(0x1000));
}

#[test]
fn map_then_translate_gives_the_frame() {
    let mut pmm = Global::new(vec![usable(0x10_0000, 0x10_0000)]);
    let mut mapper = PageMapper::new(frame(0x1000));
    let p = page(WINDOW + 0x5000);
    assert_eq!(mapper.translate_page(p), None);
    let flags = PageFlags::from_bits_truncate(PRESENT | WRITABLE);
    assert_eq!(mapper.map_page(p, frame(0x7777_0000), flags, &mut pmm), Ok(()));
    assert_eq!(mapper.translate_page(p), Some(frame(0x7777_0000)));
    assert_eq!(mapper.translate_page(page(WINDOW + 0x6000)), None);
    assert_eq!(pmm.free_frames(), Some(256 - 3));
    assert_eq!(mapper.unmap_page(p), Ok(frame(0x7777_0000)));
    assert_eq!(mapper.translate_page(p), None);
    assert_eq!(mapper.unmap_page(p), Err(UnmapError::PageNotMapped));
}

#[test]
fn mapping_a_mapped_page_fails_and_keeps_the_mapping() {
    let mut pmm = Global::new(vec![usable(0x10_0000, 0x10_0000)]);
    let mut mapper = PageMapper::new(frame(0x1000));
    let p = page(WINDOW + 0x20_0000);
    let flags = PageFlags::from_bits_truncate(PRESENT);
    mapper.map_page(p, frame(0x5000), flags, &mut pmm).unwrap();
    let before = mapper.translate_page(p);
    let free = pmm.free_frames();
    assert_eq!(mapper.map_page(p, frame(0x6000), flags, &mut pmm), Err(MapError::PageAlreadyMapped));
    assert_eq!(mapper.translate_page(p), before);
    assert_eq!(before, Some(frame(0x5000)));
    assert_eq!(pmm.free_frames(), free);
}

#[test]
fn translation_reports_the_frame_but_not_the_flags() {
    let mut pmm = Global::new(vec![usable(0x10_0000, 0x10_0000)]);
    let mut mapper = PageMapper::new(frame(0x1000));
    let a = page(WINDOW);
    let b = page(WINDOW + 0x1000);
    mapper.map_page(a, frame(0x9000), PageFlags::from_bits_truncate(PRESENT), &mut pmm).unwrap();
    mapper
        .map_page(b, frame(0x9000), PageFlags::from_bits_truncate(PRESENT | WRITABLE | USER), &mut pmm)
        .unwrap();
    let ta: Option<Frame> = mapper.translate_page(a);
    let tb: Option<Frame> = mapper.translate_page(b);
    assert_eq!(ta, tb);
    assert_eq!(ta, Some(frame(0x9000)));
}

#[test]
fn map_without_present_flag_leaves_page_unmapped() {
    let mut pmm = Global::new(vec![usable(0x10_0000, 0x10_0000)]);
    let mut mapper = PageMapper::new(frame(0x1000));
    let p = page(WINDOW);
    assert_eq!(mapper.map_page(p, frame(0x9000), PageFlags::empty(), &mut pmm), Ok(()));
    assert_eq!(mapper.translate_page(p), None);
}

#[test]
fn map_page_runs_out_of_table_frames() {
    let mut pmm = Global::new(vec![usable(0x10_0000, 0x2000)]);
    let mut mapper = PageMapper::new(frame(0x1000));
    let p = page(WINDOW);
    let r = mapper.map_page(p, frame(0x9000), PageFlags::from_bits_truncate(PRESENT), &mut pmm);
    assert_eq!(r, Err(MapError::PhysAllocError(PhysAllocError)));
    assert_eq!(mapper.translate_page(p), None);
    assert_eq!(pmm.free_frames(), Some(0));
}

#[test]
fn allocate_backs_every_page_with_a_distinct_frame() {
    let mut space = space(16);
    let ptr = space.allocate(3).unwrap();
    assert_eq!(ptr, VirtAddr(WINDOW));
    let mut seen = Vec::new();
    for k in 0..3 {
        let f = space.translate_page(page(WINDOW + k * 4096)).unwrap();
        assert!(!seen.contains(&f));
        seen.push(f);
    }
    assert_eq!(space.translate_page(page(WINDOW + 3 * 4096)), None);
    assert_eq!(space.free_frames(), Some(16 - 3 - 3));
    assert_eq!(space.allocate(1).unwrap(), VirtAddr(WINDOW + 3 * 4096));
}

#[test]
fn allocate_rolls_back_when_frames_run_out_on_the_third_page() {
    let mut space = space(6);
    space.allocate(1).unwrap();
    assert_eq!(space.free_frames(), Some(2));
    let r = space.allocate(5);
    assert_eq!(r, Err(AllocError::PhysAllocError(PhysAllocError)));
    assert_eq!(space.free_frames(), Some(2));
    assert_eq!(space.translate_page(page(WINDOW + 4096)), None);
    assert_eq!(space.translate_page(page(WINDOW + 2 * 4096)), None);
    assert!(space.translate_page(page(WINDOW)).is_some());
    assert_eq!(space.allocate(1), Ok(VirtAddr(WINDOW + 6 * 4096)));
}

#[test]
fn allocate_returns_the_data_frame_when_a_table_cannot_be_had() {
    let mut space = space(2);
    assert_eq!(space.allocate(1), Err(AllocError::PhysAllocError(PhysAllocError)));
    assert_eq!(space.free_frames(), Some(1));
    assert_eq!(space.translate_page(page(WINDOW)), None);
}

#[test]
fn allocate_beyond_the_window_fails_without_change() {
    let mut space = AddrSpace::kernel(
        page(WINDOW)..page(WINDOW + 2 * 4096),
        vec![usable(0x10_0000, 0x10_0000)],
        PageMapper::new(frame(0x1000)),
    );
    assert_eq!(
        space.allocate(3),
        Err(AllocError::VirtAllocError(VirtAllocError::VirtualAddressSpaceExhausted))
    );
    assert_eq!(space.free_frames(), Some(256));
    assert_eq!(space.allocate(2), Ok(VirtAddr(WINDOW)));
}

#[test]
fn map_frames_of_empty_range_returns_sentinel() {
    let mut space = space(8);
    let r = space.map_frames(frame(0xfee0_0000)..frame(0xfee0_0000), MapOptions::default());
    assert_eq!(r, Ok(VirtAddr(1)));
    assert_eq!(space.free_frames(), Some(8));
    assert_eq!(space.translate_page(page(WINDOW)), None);
    assert_eq!(space.allocate(1), Ok(VirtAddr(WINDOW)));
}

#[test]
fn map_frames_maps_each_page_to_its_frame() {
    let mut space = space(8);
    let options = MapOptions { user: false, writable: true, disable_cache: true };
    let r = space.map_frames(frame(0xfee0_0000)..frame(0xfee0_3000), options).unwrap();
    assert_eq!(r, VirtAddr(WINDOW));
    for k in 0..3 {
        assert_eq!(
            space.translate_page(page(WINDOW + k * 4096)),
            Some(frame(0xfee0_0000 + k as u64 * 4096))
        );
    }
    assert_eq!(space.free_frames(), Some(5));
}

#[test]
fn kernel_space_maps_and_translates() {
    let mut space = KernelAddrSpace::new(
        page(WINDOW)..page(WINDOW + 0x10_0000),
        vec![usable(0x10_0000, 0x10_000)],
        PageMapper::new(frame(0x1000)),
    );
    let p = space.allocate(2).unwrap();
    assert_eq!(p, VirtAddr(WINDOW));
    assert!(space.translate_page(page(WINDOW + 4096)).is_some());
}

#[test]
fn frame_and_page_steps() {
    assert_eq!(Frame::steps_between(&frame(0x1000), &frame(0x5000)), Some(4));
    assert_eq!(Frame::steps_between(&frame(0x5000), &frame(0x1000)), None);
    assert_eq!(Frame::forward_checked(frame(0x1000), 2), Some(frame(0x3000)));
    assert_eq!(Frame::forward_checked(frame(u64::MAX - 0xfff), 1), None);
    assert_eq!(Frame::backward_checked(frame(0x3000), 3), Some(frame(0)));
    assert_eq!(Frame::backward_checked(frame(0x3000), 4), None);
    assert_eq!(Page::steps_between(&page(0x2000), &page(0x2fff)), Some(0));
    assert_eq!(Page::forward_checked(page(0x1000), usize::MAX), None);
    assert_eq!(Page::backward_checked(page(0x3000), 1), Some(page(0x2000)));
    assert_eq!(VirtAddr::zero().addr(), 0);
    assert_eq!(VirtAddr(0x1234).as_ptr(), 0x1234);
}

#[test]
fn flags_union_and_contains() {
    let rw = PageFlags::from_bits_truncate(PRESENT).union(PageFlags::from_bits_truncate(WRITABLE));
    assert_eq!(rw.bits(), 3);
    assert!(rw.contains(PageFlags::from_bits_truncate(WRITABLE)));
    assert!(!rw.contains(PageFlags::from_bits_truncate(USER)));
    assert!(rw.contains(PageFlags::empty()));
}

#[test]
fn trait_allocators_follow_the_same_policy() {
    let mut pmm = Global::new(vec![usable(0x10_0000, 0x2000)]);
    let a = PhysicalMemoryAllocator::allocate_frame(&mut pmm).unwrap();
    assert_eq!(a, frame(0x10_0000));
    PhysicalMemoryAllocator::deallocate_frame(&mut pmm, a);
    assert_eq!(pmm.allocate_frame(), Ok(a));
    let mut vmm = BumpAllocator::new(page(0x1000)..page(0x3000));
    assert_eq!(VirtualRegionAllocator::allocate_region(&mut vmm, 2), Ok(page(0x1000)..page(0x3000)));
    assert!(VirtualRegionAllocator::allocate_region(&mut vmm, 1).is_err());
}

fn table_words(m: &PageMapper) -> Vec<(u64, Vec<u64>)> {
    (0..m.table_count())
        .map(|t| (m.table_frame(t), (0..512).map(|i| m.table_word(t, i)).collect()))
        .collect()
}

#[test]
fn map_writes_the_entry_and_links_tables_permissively() {
    let mut pmm = Global::new(vec![usable(0x10_0000, 0x10_0000)]);
    let mut mapper = PageMapper::new(frame(0x1000));
    let p = page(WINDOW + 0x3000);
    let flags = PageFlags::from_bits_truncate(PRESENT | WRITABLE);
    mapper.map_page(p, frame(0x7000), flags, &mut pmm).unwrap();
    let tables = table_words(&mapper);
    assert_eq!(tables.len(), 4);
    // The top-level table links the first new table with present, writable, user.
    assert_eq!(tables[0].1[256], 0x10_0000 | 7);
    assert_eq!(tables[1].1[0], 0x10_1000 | 7);
    assert_eq!(tables[2].1[0], 0x10_2000 | 7);
    assert_eq!(tables[3].1[3], 0x7000 | 3);
    assert_eq!(mapper.unmap_page(p), Ok(frame(0x7000)));
    assert_eq!(table_words(&mapper)[3].1[3], 0);
}

#[test]
fn already_mapped_leaves_every_word() {
    let mut pmm = Global::new(vec![usable(0x10_0000, 0x10_0000)]);
    let mut mapper = PageMapper::new(frame(0x1000));
    let p = page(WINDOW);
    mapper.map_page(p, frame(0x7000), PageFlags::from_bits_truncate(PRESENT | USER), &mut pmm).unwrap();
    let before = table_words(&mapper);
    let r = mapper.map_page(p, frame(0x8000), PageFlags::from_bits_truncate(PRESENT), &mut pmm);
    assert_eq!(r, Err(MapError::PageAlreadyMapped));
    assert_eq!(table_words(&mapper), before);
    assert_eq!(mapper.unmap_page(page(WINDOW + 0x1000)), Err(UnmapError::PageNotMapped));
    assert_eq!(table_words(&mapper), before);
}

#[test]
fn existing_tables_are_taken_over_and_extended() {
    let mut pmm = Global::new(vec![usable(0x10_0000, 0x10_0000)]);
    let mut built = PageMapper::new(frame(0x1000));
    built.map_page(page(0x40_0000), frame(0x9000), PageFlags::from_bits_truncate(PRESENT), &mut pmm).unwrap();
    let words = table_words(&built);
    let frames: Vec<u64> = words.iter().map(|(f, _)| *f).collect();
    let entries: Vec<u64> = words.iter().flat_map(|(_, w)| w.clone()).collect();
    // Page 0x40_0000 has the indices 0, 0, 2 and 0 from the top down.
    let mut mapper = PageMapper::from_tables(frames, entries, vec![3, 2, 1, 0], vec![0, 0, 0, 2]).unwrap();
    assert_eq!(mapper.translate_page(page(0x40_0000)), Some(frame(0x9000)));
    assert!(mapper.range_unmapped(WINDOW as u64, WINDOW as u64 + 0x1000_0000));
    assert!(!mapper.range_unmapped(0, 0x100_0000));
    mapper.map_page(page(0x40_1000), frame(0xa000), PageFlags::from_bits_truncate(PRESENT), &mut pmm).unwrap();
    assert_eq!(mapper.table_count(), 4);
    assert_eq!(mapper.translate_page(page(0x40_1000)), Some(frame(0xa000)));
}

fn with_huge_page() -> PageMapper {
    // The top-level table links one table, whose entry 1 maps a 1 GiB page.
    let mut entries = vec![0u64; 1024];
    entries[0] = 0x2000 | PRESENT;
    entries[512 + 1] = 0x8000_0000 | PRESENT | WRITABLE | HUGE_PAGE;
    PageMapper::from_tables(vec![0x1000, 0x2000], entries, vec![3, 2], vec![0, 0]).unwrap()
}

#[test]
fn huge_pages_are_kept_and_translated() {
    let mapper = with_huge_page();
    assert_eq!(mapper.translate_page(page(0x4000_0000)), Some(frame(0x8000_0000)));
    assert_eq!(mapper.translate_page(page(0x4123_4000)), Some(frame(0x8123_4000)));
    assert_eq!(mapper.translate_page(page(0x8000_0000)), None);
}

#[test]
fn mapping_inside_a_huge_page_is_unsupported() {
    let mut mapper = with_huge_page();
    let mut pmm = Global::new(vec![usable(0x10_0000, 0x10_0000)]);
    let before = table_words(&mapper);
    let r = mapper.map_page(page(0x4000_5000), frame(0x9000), PageFlags::from_bits_truncate(PRESENT), &mut pmm);
    assert_eq!(r, Err(MapError::Unsupported));
    assert_eq!(mapper.unmap_page(page(0x4000_5000)), Err(UnmapError::Unsupported));
    assert_eq!(table_words(&mapper), before);
    assert_eq!(pmm.free_frames(), Some(256));
    // Outside the huge page the walk goes on as usual.
    mapper.map_page(page(0x8000_0000), frame(0x9000), PageFlags::from_bits_truncate(PRESENT), &mut pmm).unwrap();
    assert_eq!(mapper.translate_page(page(0x8000_0000)), Some(frame(0x9000)));
}

#[test]
fn existing_tables_that_are_not_a_tree_are_refused() {
    let mut entries = vec![0u64; 1024];
    entries[0] = 0x3000 | PRESENT;
    let malformed = |f: Vec<u64>, e: Vec<u64>, l: Vec<u8>, p: Vec<u64>| {
        matches!(PageMapper::from_tables(f, e, l, p), Err(TableError::Malformed))
    };
    assert!(malformed(vec![0x1000, 0x2000], entries.clone(), vec![3, 2], vec![0, 0]));
    assert!(malformed(vec![0x1000, 0x1000], vec![0u64; 1024], vec![3, 2], vec![0, 0]));
    assert!(malformed(vec![], vec![], vec![], vec![]));
    assert!(malformed(vec![0x1000], vec![0u64; 512], vec![2], vec![0]));
    entries[0] = 0x2000 | PRESENT;
    assert!(malformed(vec![0x1000, 0x2000], entries.clone(), vec![3, 1], vec![0, 0]));
    assert!(malformed(vec![0x1000, 0x2000], entries.clone(), vec![3, 2], vec![0, 5]));
    assert!(PageMapper::from_tables(vec![0x1000, 0x2000], entries, vec![3, 2], vec![0, 0]).is_ok());
}

#[test]
fn allocate_maps_present_writable_and_map_frames_uses_options() {
    let mut space = space(16);
    space.allocate(1).unwrap();
    let f = space.translate_page(page(WINDOW)).unwrap();
    assert_eq!(space.mapper().table_word(3, 0), f.0 .0 | PRESENT | WRITABLE);
    let options = MapOptions { user: true, writable: false, disable_cache: true };
    space.map_frames(frame(0xfee0_0000)..frame(0xfee0_1000), options).unwrap();
    assert_eq!(space.mapper().table_word(3, 1), 0xfee0_0000 | PRESENT | USER | 0x10);
}

#[test]
fn map_frames_keeps_the_pages_mapped_before_running_out() {
    // The three frames become the first tables; the 511th page of the second
    // mapping needs a new last-level table, for which no frame is left.
    let mut space = space(3);
    let r = space.map_frames(frame(0xa000)..frame(0xc000), MapOptions::default());
    assert_eq!(r, Ok(VirtAddr(WINDOW)));
    assert_eq!(space.free_frames(), Some(0));
    let far = frame(0xd000)..frame(0xd000 + 513 * 4096);
    let r = space.map_frames(far, MapOptions::default());
    assert_eq!(r, Err(AllocError::PhysAllocError(PhysAllocError)));
    let first = WINDOW + 2 * 4096;
    assert_eq!(space.translate_page(page(first)), Some(frame(0xd000)));
    assert_eq!(space.translate_page(page(first + 509 * 4096)), Some(frame(0xd000 + 509 * 4096)));
    assert_eq!(space.translate_page(page(first + 510 * 4096)), None);
    assert_eq!(space.translate_page(page(WINDOW)), Some(frame(0xa000)));
}

#[test]
fn usable_regions_may_come_in_any_order() {
    let mut pmm = Global::new(vec![usable(0x8000, 0x1000), usable(0x1000, 0x1000)]);
    assert_eq!(pmm.allocate_frame(), Ok(frame(0x8000)));
    assert_eq!(pmm.allocate_frame(), Ok(frame(0x1000)));
    assert_eq!(pmm.allocate_frame(), Err(PhysAllocError));
}
