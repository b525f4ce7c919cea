use pulseos::error::{AxError, MappingError};
use pulseos::mm::area::{MemoryArea, MemorySet};
use pulseos::mm::asid::{AsidAllocator, ASID_SLOTS};
use pulseos::mm::aspace::AddrSpace;
use pulseos::mm::backend::{Backend, CowMapping};
use pulseos::mm::file_map::{
    file_page_read_window, file_prefetch_range, FileMapping, FilePagePrepared,
    FileReadAheadState, FileSizes, COLD_FILE_FAULT_AROUND_PAGES, FILE_FAULT_AROUND_PAGES,
};
use pulseos::mm::flags::{
    effective_pte_flags, reg_flag_to_map_flag, FileFlags, MappingFlags, MemRegionFlags,
};
use pulseos::mm::frame_runs::{
    dealloc_frame_runs, dealloc_frame_values, frame_table_bounds, frame_table_range, PhysMemRegion,
};
use pulseos::mm::frame_table::{FrameRefTable, FrameTable, Frames};
use pulseos::mm::kernel::{new_kernel_aspace, new_user_aspace};
use pulseos::mm::paging::{
    align_down_4k, align_up_4k, is_aligned_4k, PageSize, PageTable, PAGE_SIZE_1G, PAGE_SIZE_2M,
    PAGE_SIZE_4K,
};
use pulseos::mm::pt_lock::{subtree_id, subtree_shard, PageTableScope, TableProbe};
use pulseos::mm::reclaim::{
    page_count, DeferredReclaims, FileWriteback, FileWritebacks, TlbInvalidationTracker,
    WritebackStep,
};
use pulseos::mm::remap::{MREMAP_FIXED, MREMAP_MAYMOVE};
use pulseos::mm::retire::AddrSpaceUnmapPreparation;
use pulseos::mm::space_data::CopyChunk;
use pulseos::mm::space_fault::{PageFaultOutcome, PageFaultResult};
use pulseos::mm::tlb::{
    flush_tlb_invalidation, FlushOutcome, LocalFlush, TlbInvalidation, TlbShootdown,
};

const RAM: usize = 0x8000_0000;
const PAGE: usize = PAGE_SIZE_4K;

fn frames(n: usize) -> Frames {
    let available = (0..n).rev().map(|i| RAM + i * PAGE).collect();
    match Frames::new(FrameTable::new(RAM, n * PAGE), available) {
        Some(f) => f,
        None => panic!("no frames"),
    }
}

fn flags(read: bool, write: bool) -> MappingFlags {
    MappingFlags { read, write, user: true, ..MappingFlags::empty() }
}

fn rw() -> MappingFlags {
    flags(true, true)
}

fn table() -> PageTable {
    PageTable::new(true, usize::MAX)
}

fn space() -> AddrSpace {
    AddrSpace::new_empty(PAGE, 0x1000_0000, 3, table())
}

fn no_files() -> FileSizes {
    FileSizes::new(vec![])
}

fn fault(s: &mut AddrSpace, addr: usize, access: MappingFlags, sizes: &FileSizes, f: &mut Frames) -> PageFaultResult {
    s.handle_page_fault(addr, access, sizes, &mut FileReadAheadState::default(), f).result
}

#[test]
fn cow_refcount_roundtrip() {
    let mut all = frames(4);
    let frame = all.alloc_frame().unwrap();

    all.table.get_ref(frame);

    all.cow_inc_frame_ref(frame);
    assert_eq!(all.table.get_ref(frame), 2);

    assert!(!all.cow_dec_frame_ref(frame));
    assert_eq!(all.table.get_ref(frame), 1);

    assert!(all.cow_dec_frame_ref(frame));
    assert_eq!(all.table.get_ref(frame), 0);
}

#[test]
fn page_window_tracks_truncate_and_extend_without_exceeding_mapping() {
    let start = 0x10_0000;
    let page = PAGE_SIZE_4K;

    assert_eq!(
        file_page_read_window(start, 0, 4 * page, page + 123, start + page),
        Some((page as u64, 123))
    );
    assert_eq!(
        file_page_read_window(start, 0, 4 * page, page + 123, start + 2 * page),
        None
    );

    assert_eq!(
        file_page_read_window(start, 0, 4 * page, 3 * page + 17, start + 3 * page),
        Some(((3 * page) as u64, 17))
    );
    assert_eq!(
        file_page_read_window(start, 0, 4 * page, 8 * page, start + 4 * page),
        None
    );
}

#[test]
fn page_window_respects_file_offset_and_checked_bounds() {
    let start = 0x20_0000;
    let page = PAGE_SIZE_4K;

    assert_eq!(
        file_page_read_window(start, page, 2 * page, 3 * page, start),
        Some((page as u64, page))
    );
    assert_eq!(
        file_page_read_window(start, page, 2 * page, page, start),
        None
    );
    assert_eq!(
        file_page_read_window(start, usize::MAX, page, usize::MAX, start),
        None
    );
    assert_eq!(
        file_page_read_window(start, 0, page, page, start - page),
        None
    );
}

#[test]
fn prefetch_range_is_bounded_by_mapping_and_file_end() {
    let start = 0x30_0000;
    let page = PAGE_SIZE_4K;

    assert_eq!(
        file_prefetch_range(
            start,
            0,
            32 * page,
            64 * page,
            start + 16 * page,
            start + 40 * page
        ),
        Some((16, FILE_FAULT_AROUND_PAGES))
    );
    assert_eq!(
        file_prefetch_range(
            start,
            0,
            20 * page,
            64 * page,
            start + 16 * page,
            start + 40 * page
        ),
        Some((16, 4))
    );
    assert_eq!(
        file_prefetch_range(
            start,
            0,
            32 * page,
            18 * page,
            start + 16 * page,
            start + 40 * page
        ),
        Some((16, 2))
    );
}

#[test]
fn readahead_advances_over_fault_around_window() {
    let mut state = FileReadAheadState::default();
    assert_eq!(state.plan(10, 4), 4);
    state.finish(10, 4, 4);
    assert_eq!(state.plan(14, 4), 4);
    state.finish(14, 4, 4);
    assert_eq!(state.plan(18, 4), 4);
}

#[test]
fn readahead_resets_after_nonsequential_fault() {
    let mut state = FileReadAheadState::default();
    assert_eq!(state.plan(3, 4), 4);
    assert_eq!(state.plan(20, 4), 4);
    assert_eq!(state.plan(24, 4), 4);
}

#[test]
fn cold_fault_is_capped_below_the_sequential_window() {
    let mut state = FileReadAheadState::default();
    assert_eq!(
        state.plan(3, FILE_FAULT_AROUND_PAGES),
        COLD_FILE_FAULT_AROUND_PAGES
    );
    assert_eq!(
        state.plan(
            3 + COLD_FILE_FAULT_AROUND_PAGES as u32,
            FILE_FAULT_AROUND_PAGES
        ),
        FILE_FAULT_AROUND_PAGES
    );
}

#[test]
fn readahead_tracks_short_result_at_mapping_end() {
    let mut state = FileReadAheadState::default();
    assert_eq!(state.plan(7, 2), 2);
    state.finish(7, 2, 1);
    assert_eq!(state.plan(8, 4), 4);
    assert_eq!(state.next_page, Some(12));
}

#[test]
fn readahead_overflow_disables_sequential_hint() {
    let mut state = FileReadAheadState::default();
    assert_eq!(state.plan(u32::MAX, 4), 4);
    assert_eq!(state.next_page, None);
    assert_eq!(state.plan(0, 4), 4);
}

#[test]
fn only_anonymous_backends_are_discardable() {
    assert!(Backend::new_alloc(false).is_discardable());
    assert!(Backend::new_alloc(true).is_discardable());
    assert!(Backend::Cow(CowMapping::new(Box::new(Backend::new_alloc(false)))).is_discardable());
    assert!(!Backend::Linear { pa_va_offset: 0 }.is_discardable());
}

fn region(paddr: usize, size: usize, free: bool) -> PhysMemRegion {
    let flags = MemRegionFlags {
        read: true,
        write: true,
        execute: false,
        device: false,
        uncached: false,
        reserved: !free,
        free,
    };
    PhysMemRegion { paddr, size, flags }
}

#[test]
fn frame_table_bounds_include_discontiguous_free_ram() {
    let low = region(0x1_000, 0x0fff_f000, true);
    let reserved = region(0x1000_0000, 0x1000, false);
    let high = region(0x8000_0000, 0x1000_0000, true);

    let (start, end) = frame_table_bounds(&vec![low, reserved, high]).unwrap();
    assert_eq!(start, 0x1_000);
    assert_eq!(end, 0x9000_0000);
}

#[test]
fn frame_table_falls_back_to_the_whole_memory() {
    let reserved = region(0x1000_0000, 0x1000, false);
    assert_eq!(frame_table_bounds(&vec![reserved]), None);
    assert_eq!(frame_table_range(&vec![reserved], 0x1000, 0x2000), (0x1000, 0x3000));
    let free = region(0x4000, 0x1000, true);
    assert_eq!(frame_table_range(&vec![free], 0x1000, 0x2000), (0x4000, 0x5000));
}

#[test]
fn released_frames_form_runs() {
    assert_eq!(
        dealloc_frame_runs(vec![0x3000, 0x1000, 0x2000, 0x9000]),
        vec![(0x1000, 3), (0x9000, 1)]
    );
    assert_eq!(dealloc_frame_runs(vec![]), vec![]);
    let mut all = frames(4);
    let taken: Vec<usize> = (0..3).map(|_| all.alloc_frame().unwrap()).collect();
    all.cow_inc_frame_ref(taken[1]);
    let values = vec![taken[2], taken[0], taken[1]];
    assert_eq!(
        dealloc_frame_values(&mut all, &values),
        vec![(taken[0], 1), (taken[2], 1)]
    );
    assert_eq!(all.table.get_ref(taken[1]), 1);
    assert_eq!(all.table.total_refs(), 1);
}

#[test]
fn frames_come_from_the_pool() {
    let mut all = frames(2);
    assert_eq!(all.alloc_frame(), Some(RAM));
    assert_eq!(all.alloc_frame(), Some(RAM + PAGE));
    assert_eq!(all.alloc_frame(), None);
    assert_eq!(all.sharers(RAM), 1);
    assert_eq!(all.sharers(0), 2);
    all.dealloc_frame(RAM);
    all.dealloc_frame(0x1000);
    assert_eq!(all.take_released(), vec![RAM]);
    assert!(Frames::new(FrameTable::new(RAM, PAGE), vec![RAM, RAM]).is_none());
    assert!(Frames::new(FrameTable::new(RAM, PAGE), vec![0]).is_none());
    let mut raw = FrameRefTable::new(RAM, 2);
    assert_eq!(raw.compare_exchange(RAM, 0, 5), Ok(0));
    assert_eq!(raw.compare_exchange(RAM, 0, 6), Err(5));
    raw.set_raw(RAM + PAGE, 9);
    assert_eq!((raw.get_raw(RAM), raw.get_raw(RAM + PAGE)), (5, 9));
    let mut few = frames(1);
    assert!(!few.provide(0) && !few.provide(RAM + 1) && !few.provide(RAM));
    assert!(few.provide(RAM + PAGE));
    assert!(!few.provide(RAM + PAGE));
    assert_eq!(few.at_hand(), 2);
    assert_eq!(few.alloc_frame(), Some(RAM + PAGE));
    assert_eq!(few.alloc_frame(), Some(RAM));
    assert_eq!(few.alloc_frame(), None);
}

#[test]
fn flags_are_kept_as_the_hardware_wants() {
    let write = flags(false, true);
    assert_eq!(effective_pte_flags(write, true), rw());
    assert_eq!(effective_pte_flags(write, false), write);
    let ram = reg_flag_to_map_flag(region(0, 0, true).flags);
    assert!(ram.read && ram.write && !ram.user && !ram.execute);
    assert!(rw().contains(write));
    assert!(!write.contains(rw()));
    assert_eq!(write.union(flags(true, false)), rw());
    assert!(MappingFlags::empty().is_empty());
    assert_eq!(rw().set_write(false), flags(true, false));
}

#[test]
fn page_table_keeps_entries_apart() {
    let mut pt = PageTable::new(false, 2);
    assert!(pt.map(PAGE_SIZE_2M, PAGE_SIZE_1G, PageSize::Size2M, rw()));
    assert!(!pt.map(PAGE_SIZE_2M + PAGE, RAM, PageSize::Size4K, rw()));
    assert!(pt.map(0, RAM, PageSize::Size4K, flags(true, false)));
    assert!(!pt.map(PAGE, RAM, PageSize::Size4K, rw()));
    assert_eq!(
        pt.query(PAGE_SIZE_2M + 0x1234),
        Some((PAGE_SIZE_1G + 0x1234, rw(), PageSize::Size2M))
    );
    assert_eq!(pt.query(PAGE), None);
    assert_eq!(pt.protect(0, rw()), Some(PageSize::Size4K));
    assert_eq!(pt.protect(PAGE, rw()), None);
    assert!(pt.remap(0, RAM + PAGE, rw()));
    assert_eq!(pt.unmap(0), Some((RAM + PAGE, PageSize::Size4K)));
    assert_eq!(pt.unmap(0), None);
    pt.clear();
    assert!(pt.entry(PAGE_SIZE_2M).is_none());
    assert_eq!((align_down_4k(0x1fff), align_up_4k(0x1001)), (0x1000, 0x2000));
    assert!(is_aligned_4k(0x2000) && !is_aligned_4k(0x2001));
    assert_eq!(PageSize::Size1G.bytes(), PAGE_SIZE_1G);
    assert!(PageSize::Size2M.is_huge() && !PageSize::Size4K.is_huge());
}

#[test]
fn areas_do_not_overlap() {
    let area = |start: usize, end: usize| MemoryArea {
        start,
        end,
        flags: rw(),
        backend: Backend::new_alloc(false),
    };
    let mut set = MemorySet::new();
    let (mut pt, mut all) = (table(), frames(4));
    assert!(set.map(area(0x1000, 0x4000), &mut pt, &mut all).is_ok());
    assert_eq!(
        set.map(area(0x3000, 0x5000), &mut pt, &mut all),
        Err(MappingError::AlreadyExists)
    );
    assert!(set.overlaps(0x3fff, 0x5000) && !set.overlaps(0x4000, 0x5000));
    assert_eq!(set.find(0x3fff), Some(0));
    assert_eq!(set.find(0x4000), None);
    assert_eq!(set.find_free_area(0x1000, 0x1000, 0, 0x8000), Some(0x4000));
    assert_eq!(set.find_free_area(0x1000, 0x1000, 0, 0x4000), None);
    assert!(set.map(area(0x10000, 0x11000), &mut pt, &mut all).is_ok());
    assert_eq!(set.find_free_area(0x1000, 0x2000, 0, 0x5000), None);
    let mut reclaimed = DeferredReclaims::default();
    let mut changed = TlbInvalidationTracker::default();
    assert!(set
        .unmap_tracked(0x10000, 0x11000, &no_files(), &mut pt, &mut reclaimed, &mut changed)
        .is_ok());
    let mut reclaim = DeferredReclaims::default();
    let mut tracker = TlbInvalidationTracker::default();
    assert!(set
        .unmap_tracked(0x2000, 0x3000, &no_files(), &mut pt, &mut reclaim, &mut tracker)
        .is_ok());
    assert_eq!(set.len(), 2);
    assert_eq!((set.get(0).start, set.get(0).end), (0x1000, 0x2000));
    assert_eq!((set.get(1).start, set.get(1).end), (0x3000, 0x4000));
    assert!(set
        .protect_tracked(0x1000, 0x2000, flags(true, false), &mut pt, &mut tracker)
        .is_ok());
    assert_eq!(set.get(0).flags, flags(true, false));
    assert_eq!(set.get(1).flags, rw());
    assert!(!set.is_empty());
    assert_eq!(set.duplicate().len(), 2);
}

#[test]
fn free_hint_is_found_again() {
    let mut all = frames(2);
    let mut a = AddrSpace::new_empty(0x10000, 0x100000, 1, table());
    assert_eq!(a.find_free_area(0x10000, 0x1000, 0x10000, 0x110000), Some(0x10000));
    assert_eq!(a.find_free_area(0x10000, 0x1000, 0x10000, 0x110000), Some(0x10000));
    assert_eq!(a.map_alloc(0x10000, 0x1000, rw(), false, &mut all), Ok(()));
    assert_eq!(a.find_free_area(0x10000, 0x1000, 0x10000, 0x110000), Some(0x11000));
    assert_eq!(a.find_free_area(0x10000, 0x100000, 0x10000, 0x110000), None);
}

#[test]
fn anonymous_memory_is_filled_on_demand() {
    let (mut s, mut all, sizes) = (space(), frames(8), no_files());
    assert_eq!(s.map_alloc(0x2000, 0x3000, rw(), false, &mut all), Ok(()));
    assert_eq!(
        s.map_alloc(0x3000, 0x1000, rw(), false, &mut all),
        Err(AxError::AlreadyExists)
    );
    assert_eq!(s.map_alloc(0x2001, 0x1000, rw(), false, &mut all), Err(AxError::InvalidInput));
    assert_eq!(s.query_vaddr(0x2000), None);
    match fault(&mut s, 0x2345, rw(), &sizes, &mut all) {
        PageFaultResult::NeedAnonPage(load) => {
            assert_eq!((load.page, load.page_count), (0x2000, 3));
            let mut prepared = match load.prepare(&mut all) {
                Ok(p) => p,
                Err(_) => panic!("no frames"),
            };
            let mut ra = FileReadAheadState::default();
            let r = s.handle_prepared_anon_page(0x2345, rw(), &sizes, &mut ra, &mut all, &mut prepared);
            assert!(matches!(r.result, PageFaultResult::Handled(true)));
            prepared.release(&mut all);
        }
        _ => panic!("no request"),
    }
    assert_eq!(s.query_vaddr(0x2345), Some((RAM + 0x345, rw(), PageSize::Size4K)));
    assert_eq!(s.query_vaddr(0x4000), Some((RAM + 2 * PAGE, rw(), PageSize::Size4K)));
    assert!(all.take_released().is_empty());
    assert!(matches!(
        fault(&mut s, 0x2000, rw(), &sizes, &mut all),
        PageFaultResult::Handled(true)
    ));
    assert!(matches!(
        fault(&mut s, 0x8000, rw(), &sizes, &mut all),
        PageFaultResult::Handled(false)
    ));
    let m = s.unmap(0x2000, 0x2000, &sizes);
    assert_eq!(m.result, Ok(()));
    let shootdown = m.shootdown.unwrap();
    assert_eq!(
        shootdown.flushes(),
        vec![(3, TlbInvalidation::Range { start: 0x2000, end: 0x4000, changed_pages: 2 })]
    );
    assert!(shootdown.complete_after_unlock(&vec![FlushOutcome::Done], &mut all).is_ok());
    assert_eq!(all.take_released(), vec![RAM, RAM + PAGE]);
    assert_eq!(s.for_each_area(), vec![(0x4000, 0x5000, rw())]);
}

#[test]
fn discarded_page_comes_back_with_a_frame_at_hand() {
    let (mut s, mut all, sizes) = (space(), frames(8), no_files());
    let mut ra = FileReadAheadState::default();
    assert_eq!(s.map_alloc(0x2000, 0x1000, rw(), false, &mut all), Ok(()));
    for frame in [RAM, RAM + PAGE] {
        let load = match fault(&mut s, 0x2000, rw(), &sizes, &mut all) {
            PageFaultResult::NeedAnonPage(load) => load,
            _ => panic!("no request"),
        };
        let mut prepared = match load.prepare(&mut all) {
            Ok(p) => p,
            Err(_) => panic!("no frames"),
        };
        let r = s.handle_prepared_anon_page(0x2000, rw(), &sizes, &mut ra, &mut all, &mut prepared);
        assert!(matches!(r.result, PageFaultResult::Handled(true)));
        assert_eq!(r.copied, None);
        prepared.release(&mut all);
        assert_eq!(s.query_vaddr(0x2000), Some((frame, rw(), PageSize::Size4K)));
        assert_eq!(s.discard_range(0x2000, 0x1000, &sizes).result, Ok(()));
        assert_eq!(s.query_vaddr(0x2000), None);
    }
}

#[test]
fn lost_answer_keeps_frames_for_ever() {
    let (mut s, mut all, sizes) = (space(), frames(8), no_files());
    assert_eq!(s.map_alloc(0x2000, 0x1000, rw(), true, &mut all), Ok(()));
    assert_eq!(s.query_vaddr(0x2000), Some((RAM, rw(), PageSize::Size4K)));
    let m = s.unmap(0x2000, 0x1000, &sizes);
    let (result, writebacks) = m.complete_after_unlock(&vec![FlushOutcome::Lost], &mut all);
    assert_eq!(result, Err(AxError::BadState));
    assert!(writebacks.is_empty());
    assert!(all.take_released().is_empty());
    assert_eq!(all.sharers(RAM), 1);
}

#[test]
fn copy_is_lost_with_an_answer() {
    let (mut s, mut all) = (space(), frames(8));
    assert_eq!(s.map_alloc(0x2000, 0x1000, rw(), true, &mut all), Ok(()));
    let cloned = s.try_clone(9, table(), &mut all);
    assert!(matches!(
        cloned.complete_after_unlock(&vec![FlushOutcome::Lost], &mut all),
        Err(AxError::BadState)
    ));
}

#[test]
fn pages_at_the_start_of_memory_are_told_apart() {
    let (mut s, mut all, sizes) = (space(), frames(8), no_files());
    let large = Backend::new_shared(0x20_0000, PageSize::Size2M, Some((0, 0))).unwrap();
    let at = 0x40_0000;
    assert_eq!(s.map_with_backend(at, 0x20_0000, rw(), large, &mut all), Ok(()));
    assert_eq!(s.query_vaddr(at + PAGE), Some((PAGE, rw(), PageSize::Size2M)));
    assert!(matches!(
        fault(&mut s, at + PAGE, flags(true, false), &sizes, &mut all),
        PageFaultResult::Handled(true)
    ));
    assert!(matches!(
        fault(&mut s, at, flags(true, false), &sizes, &mut all),
        PageFaultResult::Handled(false)
    ));
    assert_eq!(s.unmap(at, 0x20_0000, &sizes).result, Ok(()));
    assert_eq!(s.query_vaddr(at + PAGE), None);
}

#[test]
fn forked_page_is_copied_by_its_writer() {
    let (mut s, mut all, sizes) = (space(), frames(8), no_files());
    assert_eq!(s.map_alloc(0x2000, 0x1000, rw(), true, &mut all), Ok(()));
    let cloned = s.try_clone(9, table(), &mut all);
    assert!(cloned.shootdown.is_some());
    let mut child = match cloned.complete_after_unlock(&vec![], &mut all) {
        Ok(c) => c,
        Err(_) => panic!("no copy"),
    };
    assert_eq!(child.asid(), 9);
    assert_eq!(s.query_vaddr(0x2000), Some((RAM, flags(true, false), PageSize::Size4K)));
    assert_eq!(child.query_vaddr(0x2000), Some((RAM, flags(true, false), PageSize::Size4K)));
    assert_eq!(all.sharers(RAM), 2);
    let mut ra = FileReadAheadState::default();
    let report = child.handle_page_fault(0x2000, flags(false, true), &sizes, &mut ra, &mut all);
    assert_eq!(report.copied, Some((RAM, RAM + PAGE)));
    assert_eq!(child.query_vaddr(0x2000), Some((RAM + PAGE, rw(), PageSize::Size4K)));
    assert_eq!(s.query_vaddr(0x2000), Some((RAM, flags(true, false), PageSize::Size4K)));
    match report.result {
        PageFaultResult::HandledWithShootdown { handled, shootdown } => {
            assert!(handled);
            assert!(shootdown.complete_after_unlock(&vec![], &mut all).is_ok());
        }
        _ => panic!("no shootdown"),
    }
    assert_eq!(all.sharers(RAM), 1);
    let report = s.handle_page_fault(0x2000, flags(false, true), &sizes, &mut ra, &mut all);
    assert_eq!(report.copied, None);
    assert_eq!(s.query_vaddr(0x2000), Some((RAM, rw(), PageSize::Size4K)));
}

#[test]
fn file_page_is_mapped_once_it_is_loaded() {
    let (mut s, mut all) = (space(), frames(8));
    let sizes = FileSizes::new(vec![(7, 0x1800)]);
    let ro = FileFlags { read: true, write: false };
    assert_eq!(
        s.map_file(0x4000, 0x3000, rw(), 7, ro, 0, 0x3000, false, &mut all),
        Ok(())
    );
    let load = match fault(&mut s, 0x4000, flags(true, false), &sizes, &mut all) {
        PageFaultResult::NeedFilePage(load) => load,
        _ => panic!("no request"),
    };
    assert_eq!((load.file, load.page_number, load.page_count), (7, 0, 2));
    let pages = vec![(0, all.alloc_frame().unwrap()), (1, all.alloc_frame().unwrap())];
    let mut ra = FileReadAheadState::default();
    let mut prepared: FilePagePrepared = match load.prepare(Ok(pages), &mut ra) {
        Ok(p) => p,
        Err(_) => panic!("nothing loaded"),
    };
    assert_eq!(prepared.page_count(), 2);
    assert!(prepared.matches(7, 0));
    let (report, _) =
        s.handle_prepared_file_page(0x4000, flags(true, false), &sizes, &mut ra, &mut all, &mut prepared);
    assert!(matches!(report.result, PageFaultResult::Handled(true)));
    assert_eq!(s.query_vaddr(0x4000), Some((RAM, flags(true, false), PageSize::Size4K)));
    assert_eq!(s.query_vaddr(0x5000), Some((RAM + PAGE, flags(true, false), PageSize::Size4K)));
    assert!(prepared.into_left_over().is_empty());
    let report = s.handle_page_fault(0x5000, flags(false, true), &sizes, &mut ra, &mut all);
    assert_eq!(report.copied, Some((RAM + PAGE, RAM + 2 * PAGE)));
    assert!(matches!(
        fault(&mut s, 0x6000, flags(true, false), &sizes, &mut all),
        PageFaultResult::Handled(false)
    ));
    assert_eq!(s.file_page_at(0x5000, &sizes), Some((7, 1)));
    assert!(s.page_is_resident(0x5000, &sizes, &vec![]));
    assert!(!s.page_is_resident(0x6000, &sizes, &vec![(7, 2)]));
}

#[test]
fn shared_file_pages_are_written_back() {
    let (mut s, mut all) = (space(), frames(8));
    let sizes = FileSizes::new(vec![(7, 0x2000)]);
    let both = FileFlags { read: true, write: true };
    assert_eq!(s.map_file(0x4000, 0x2000, rw(), 7, both, 0, 0x2000, true, &mut all), Ok(()));
    let frame = all.alloc_frame().unwrap();
    let load = match fault(&mut s, 0x4000, rw(), &sizes, &mut all) {
        PageFaultResult::NeedFilePage(load) => load,
        _ => panic!("no request"),
    };
    let mut ra = FileReadAheadState::default();
    let mut prepared = match load.prepare(Ok(vec![(0, frame)]), &mut ra) {
        Ok(p) => p,
        Err(_) => panic!("nothing loaded"),
    };
    s.handle_prepared_file_page(0x4000, rw(), &sizes, &mut ra, &mut all, &mut prepared);
    assert_eq!(s.query_vaddr(0x4000), Some((frame, rw(), PageSize::Size4K)));
    match s.prepare_file_writeback_range(0x4000, 0x2000, true, &sizes) {
        Ok(w) => assert_eq!(
            w.complete(),
            vec![WritebackStep::MarkDirty { file: 7, page: 0 }, WritebackStep::Sync { file: 7 }]
        ),
        Err(_) => panic!("nothing to write"),
    }
    assert!(matches!(
        s.prepare_file_writeback_range(0x4001, 0x1000, true, &sizes),
        Err(AxError::InvalidInput)
    ));
}

#[test]
fn mappings_grow_shrink_and_move() {
    let (mut s, mut all, sizes) = (space(), frames(8), no_files());
    assert_eq!(s.map_alloc(0x2000, 0x1000, rw(), true, &mut all), Ok(()));
    let grown = s.mremap(0x2000, 0x1000, 0x2000, 0, None, &sizes, &mut all);
    assert_eq!(grown.result, Ok(0x2000));
    assert!(s.can_access_range(0x2000, 0x2000, rw()));
    let shrunk = s.mremap(0x2000, 0x2000, 0x1000, 0, None, &sizes, &mut all);
    assert_eq!(shrunk.result, Ok(0x2000));
    assert!(!s.can_access_range(0x2000, 0x2000, rw()));
    assert_eq!(s.map_alloc(0x3000, 0x1000, rw(), false, &mut all), Ok(()));
    let stuck = s.mremap(0x2000, 0x1000, 0x2000, 0, None, &sizes, &mut all);
    assert_eq!(stuck.result, Err(AxError::NoMemory));
    let bad = s.mremap(0x2001, 0x1000, 0x2000, 0, None, &sizes, &mut all);
    assert_eq!(bad.result, Err(AxError::InvalidInput));
    let before = s.query_vaddr(0x2000).unwrap();
    let moved = s.mremap(
        0x2000,
        0x1000,
        0x1000,
        MREMAP_MAYMOVE | MREMAP_FIXED,
        Some(0x10_0000),
        &sizes,
        &mut all,
    );
    assert_eq!(moved.result, Ok(0x10_0000));
    assert_eq!(s.query_vaddr(0x10_0000), Some(before));
    assert_eq!(s.query_vaddr(0x2000), None);
}

#[test]
fn memory_is_read_and_written_where_allowed() {
    let (mut s, mut all, sizes) = (space(), frames(8), no_files());
    assert_eq!(s.map_alloc(0x2000, 0x2000, rw(), true, &mut all), Ok(()));
    let plan = s.write(0x2ff0, 0x20);
    assert_eq!(plan.result, Ok(()));
    let first = s.query_vaddr(0x2000).unwrap().0;
    let second = s.query_vaddr(0x3000).unwrap().0;
    assert_eq!(
        plan.chunks,
        vec![
            CopyChunk { paddr: first + 0xff0, offset: 0, size: 0x10 },
            CopyChunk { paddr: second, offset: 0x10, size: 0x10 },
        ]
    );
    assert_eq!(s.read(0x3ff0, 0x20).result, Err(AxError::BadAddress));
    assert_eq!(s.protect(0x2000, 0x1000, flags(true, false)).result, Ok(()));
    assert_eq!(s.write(0x2000, 1).result, Err(AxError::BadAddress));
    assert_eq!(s.read(0x2000, 1).result, Ok(()));
    assert_eq!(s.protect(0x4000, 0x1000, rw()).result, Err(AxError::BadAddress));
    assert_eq!(s.pin_user_frame(0x2010, flags(true, false), &mut all), Ok(first + 0x10));
    assert_eq!(all.sharers(first), 2);
    assert_eq!(s.pin_user_frame(0x2010, rw(), &mut all), Err(AxError::BadAddress));
    assert_eq!(s.discard_range(0x3000, 0x1000, &sizes).result, Ok(()));
    assert_eq!(s.query_vaddr(0x3000), None);
    assert!(s.can_access_range(0x3000, 0x1000, rw()));
}

#[test]
fn stack_grows_down_under_the_write_lock() {
    let (mut s, mut all, sizes) = (space(), frames(8), no_files());
    let top = 0x80_0000;
    assert_eq!(
        s.map_with_backend(top, 0x1000, rw(), Backend::new_alloc_grows_down(false, true), &mut all),
        Ok(())
    );
    let below = top - 8;
    match fault(&mut s, below, rw(), &sizes, &mut all) {
        PageFaultResult::NeedWriteLock => {}
        _ => panic!("not the stack"),
    }
    let mut ra = FileReadAheadState::default();
    let report = s.handle_page_fault_write(below, rw(), &sizes, &mut ra, &mut all);
    let outcome = report.result.complete_after_unlock(&vec![], &mut all);
    assert!(matches!(outcome, Ok(PageFaultOutcome::PrepareAnonPage(_))));
    assert!(s.can_access_range(top - PAGE, 0x2000, rw()));
}

#[test]
fn space_is_cleared_and_retired() {
    let (mut s, mut all, sizes) = (space(), frames(8), no_files());
    assert_eq!(s.map_alloc(0x2000, 0x2000, rw(), true, &mut all), Ok(()));
    let step = s.retire_step(1, &sizes).unwrap();
    assert!(step.ok);
    step.reclaims.reclaim(&mut all);
    let mut released = all.take_released();
    released.sort();
    assert_eq!(released, vec![RAM, RAM + PAGE]);
    assert!(s.retire_step(1, &sizes).is_none());
    assert_eq!(s.map_alloc(0x2000, 0x1000, rw(), false, &mut all), Ok(()));
    assert_eq!(s.clear(&sizes).result, Ok(()));
    assert!(s.for_each_area_with_backend().is_empty());
    assert_eq!(s.map_alloc(0x2000, 0x1000, rw(), false, &mut all), Ok(()));
    let m = s.unmap_prepared(0x2000, 0x1000, &sizes, AddrSpaceUnmapPreparation::new(0x1000));
    assert_eq!(m.result, Ok(()));
}

#[test]
fn invalidations_are_merged() {
    let mut tracker = TlbInvalidationTracker::default();
    assert!(tracker.is_empty());
    tracker.record(0x3000, 0x1000);
    tracker.record(0x1000, 0x1000);
    assert_eq!((tracker.start, tracker.end, tracker.changed_pages), (Some(0x1000), Some(0x4000), 2));
    let mut a = TlbInvalidation::from_tracker(tracker).unwrap();
    a.merge(TlbInvalidation::Range { start: 0x8000, end: 0x9000, changed_pages: 1 });
    assert_eq!(a, TlbInvalidation::Range { start: 0x1000, end: 0x9000, changed_pages: 3 });
    a.merge(TlbInvalidation::FullAsid);
    assert_eq!(a, TlbInvalidation::FullAsid);
    assert_eq!(flush_tlb_invalidation(4, a), vec![LocalFlush::Asid { asid: 4 }]);
    assert_eq!(
        flush_tlb_invalidation(
            4,
            TlbInvalidation::Range { start: 0x1000, end: 0x3000, changed_pages: 1 }
        ),
        vec![
            LocalFlush::Page { asid: 4, page: 0x1000 },
            LocalFlush::Page { asid: 4, page: 0x2000 }
        ]
    );
    let wide = TlbInvalidation::Range { start: 0, end: 33 * PAGE, changed_pages: 1 };
    assert_eq!(flush_tlb_invalidation(4, wide), vec![LocalFlush::Asid { asid: 4 }]);
    let mut one = TlbShootdown::without_reclaims(4);
    one.merge(TlbShootdown::for_range(5, 0x1000, 0x1000, DeferredReclaims::default()));
    one.merge(TlbShootdown::for_range(4, 0x1000, 0x1000, DeferredReclaims::default()));
    assert_eq!(
        one.flushes(),
        vec![
            (4, TlbInvalidation::FullAsid),
            (5, TlbInvalidation::Range { start: 0x1000, end: 0x2000, changed_pages: 1 })
        ]
    );
    assert_eq!(page_count(0x1001), 2);
}

#[test]
fn writebacks_of_one_file_are_ordered() {
    let mut w = FileWriteback::for_unmap(5);
    assert!(w.is_empty());
    w.push_page(2);
    w.push_page(3);
    let mut all = FileWritebacks::default();
    all.push(w);
    assert_eq!(
        all.complete(),
        vec![
            WritebackStep::MarkDirty { file: 5, page: 2 },
            WritebackStep::MarkDirty { file: 5, page: 3 },
        ]
    );
}

#[test]
fn asids_are_handed_out_round() {
    let mut ids = AsidAllocator::new();
    for i in 1..ASID_SLOTS {
        assert!(ids.has_unused());
        assert_eq!(ids.alloc_asid(), i);
    }
    assert!(!ids.has_unused());
    ids.free(0);
    ids.free(ASID_SLOTS);
    assert!(!ids.has_unused());
    ids.free(5);
    ids.free(9);
    assert_eq!(ids.alloc_asid(), 5);
    assert_eq!(ids.alloc_asid(), 9);
}

#[test]
fn page_table_locks_are_sharded() {
    assert_eq!(subtree_id(PAGE_SIZE_2M * 3 + 5), 3);
    assert_eq!(subtree_shard(PAGE_SIZE_2M * 65), 1);
    let scope = PageTableScope::read_for_addr(PAGE_SIZE_2M);
    assert!(scope.covers(2 * PAGE_SIZE_2M - 1));
    assert!(!scope.covers(2 * PAGE_SIZE_2M));
    assert!(PageTableScope::Whole.covers(5));
    assert_eq!(
        PageTableScope::lock_for_addr(0, TableProbe::Mapped(PageSize::Size4K)),
        PageTableScope::Subtree { subtree_id: 0 }
    );
    assert_eq!(
        PageTableScope::lock_for_addr(0, TableProbe::Mapped(PageSize::Size1G)),
        PageTableScope::Whole
    );
}

#[test]
fn kernel_space_maps_memory_linearly() {
    let mut all = frames(2);
    let base = 0x1_0000_0000;
    let regions = vec![region(0x1000, 0x2000, true)];
    let kernel =
        match new_kernel_aspace(base, 0x1000_0000, 0, table(), &regions, base, &mut all) {
            Ok(k) => k,
            Err(_) => panic!("no kernel space"),
        };
    assert_eq!(kernel.query_vaddr(base + 0x1234).unwrap().0, 0x1234);
    let (user, copied) =
        match new_user_aspace(PAGE, 0x1000_0000, 1, table(), &kernel, false) {
            Ok(u) => u,
            Err(_) => panic!("no user space"),
        };
    assert_eq!(copied, Some((base, 0x1000_0000)));
    assert_eq!((user.base(), user.end(), user.size()), (PAGE, 0x1000_1000, 0x1000_0000));
    assert!(matches!(
        new_user_aspace(base, PAGE, 1, table(), &kernel, false),
        Err(AxError::InvalidInput)
    ));
    assert!(user.contains_range(PAGE, PAGE) && !user.contains_range(0, PAGE));
    assert!(!user.has_overlap(PAGE, PAGE));
}

#[test]
fn physical_pages_and_shared_memory_are_mapped() {
    let (mut s, mut all) = (space(), frames(8));
    let a = all.alloc_frame().unwrap();
    let b = all.alloc_frame().unwrap();
    assert_eq!(s.map_phys_pages(0x2000, 0x2000, rw(), &vec![b, a], &mut all), Ok(()));
    assert_eq!(s.query_vaddr(0x2000), Some((b, rw(), PageSize::Size4K)));
    assert_eq!(s.query_vaddr(0x3000), Some((a, rw(), PageSize::Size4K)));
    assert_eq!(s.map_linear(0x10_0000, 0x4000, 0x1000, rw(), &mut all), Ok(()));
    assert_eq!(s.query_vaddr(0x10_0010).unwrap().0, 0x4010);
    assert_eq!(s.find_free_area(0x2000, 0x1000, 0, 0x1000_0000), Some(0x4000));
    assert_eq!(s.remap_page(0x3001, b, rw()).result, Err(AxError::InvalidInput));
    let remapped = s.remap_page(0x3000, b, rw());
    assert_eq!(remapped.result, Ok(()));
    assert!(remapped.shootdown.is_some());
    assert_eq!(s.query_vaddr(0x3000), Some((b, rw(), PageSize::Size4K)));
    assert!(s.remap_page(0x3000, b, rw()).shootdown.is_none());
    let large = Backend::new_shared(0x20_0000, PageSize::Size2M, Some((0, 0x4000_0000)));
    let at = 0x40_0000;
    assert_eq!(s.map_with_backend(at, 0x20_0000, rw(), large.unwrap(), &mut all), Ok(()));
    assert_eq!(s.query_vaddr(at + PAGE), Some((0x4000_1000, rw(), PageSize::Size2M)));
    assert!(s.remap_page(at + PAGE, 0x4000_1000, rw()).shootdown.is_none());
    assert!(s.remap_page(at + PAGE, 0x4000_1000, rw()).shootdown.is_some());
    let top = usize::MAX - 0x1fff;
    assert_eq!(s.map_linear(0x80_0000, top, 0x1000, rw(), &mut all), Ok(()));
    assert_eq!(s.query_vaddr(0x80_0000).unwrap().0, top);
    assert!(s.map_linear(0x90_0000, top, 0x3000, rw(), &mut all).is_err());
    let m = FileMapping {
        start: 0x1000,
        file: 1,
        file_flags: FileFlags { read: true, write: false },
        file_offset: 0x3000,
        file_bytes: 0x1000,
        shared: true,
    };
    assert!(m.permits(flags(true, false)) && !m.permits(rw()));
    assert!(m.is_shared());
    assert_eq!((m.file(), m.file_offset()), (1, 0x3000));
    assert_eq!(m.file_bytes(&FileSizes::new(vec![(1, 99)])), 99);
}
