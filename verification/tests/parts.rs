use pulseos::error::{mapping_err_to_ax_err, AxError, MappingError};
use pulseos::mm::aspace::AddrSpace;
use pulseos::mm::backend::Backend;
use pulseos::mm::file_map::{FileMapping, FileReadAheadState, FileSizes};
use pulseos::mm::flags::{FileFlags, MappingFlags};
use pulseos::mm::frame_table::{FrameTable, Frames};
use pulseos::mm::paging::{PageSize, PageTable};
use pulseos::mm::reclaim::{DeferredReclaims, FileWriteback, TlbInvalidationTracker};
use pulseos::mm::tlb::leave_behind;
use pulseos::plat::dtb::{CpuNode, DeviceNode};
use pulseos::plat::topology::{
    cpu_hardware_id, find_liointc, is_available, is_available_cpu, number_cpus, read_liointc,
};
use pulseos::plat::cpu_topology::CpuTopology;
use pulseos::task::context::{WaitContext, WaitReason};
use pulseos::task::state::{TaskIdCounter, TaskInner};
use pulseos::task::time::TimeValue;
use pulseos::vfs::entry::Entry;
use pulseos::vfs::mount::{Location, MountTable};
use pulseos::vfs::node::NodePermission;
use pulseos::vfs::propagation::PropagationMode;

const RAM: usize = 0x8000_0000;
const PAGE: usize = 0x1000;

fn frames(n: usize) -> Frames {
    let available = (0..n).rev().map(|i| RAM + i * PAGE).collect();
    match Frames::new(FrameTable::new(RAM, n * PAGE), available) {
        Some(f) => f,
        None => panic!("no frames"),
    }
}

fn flags(read: bool, write: bool) -> MappingFlags {
    MappingFlags { read, write, user: true, ..MappingFlags::empty() }
}

fn rw() -> MappingFlags {
    flags(true, true)
}

#[test]
fn mapping_errors_become_kernel_errors() {
    assert_eq!(mapping_err_to_ax_err(MappingError::InvalidParam), AxError::InvalidInput);
    assert_eq!(mapping_err_to_ax_err(MappingError::AlreadyExists), AxError::AlreadyExists);
    assert_eq!(mapping_err_to_ax_err(MappingError::BadState), AxError::BadState);
}

#[test]
fn anonymous_fault_takes_what_frames_there_are() {
    let (mut pt, mut all) = (PageTable::new(false, usize::MAX), frames(2));
    let r = Backend::handle_page_fault_alloc(0x1234, 0x9000, rw(), false, &mut pt, &mut all);
    assert!(r.handled);
    assert_eq!(pt.query(0x1000), Some((RAM, rw(), PageSize::Size4K)));
    assert_eq!(pt.query(0x2000), Some((RAM + PAGE, rw(), PageSize::Size4K)));
    assert_eq!(pt.query(0x3000), None);
    let r = Backend::handle_page_fault_alloc(0x3000, 0x9000, rw(), false, &mut pt, &mut all);
    assert!(!r.handled);
    assert!(Backend::new_alloc(false).page_fault_alloc_request(0x1000, 0x9000, &pt).is_none());
    let load = Backend::new_alloc(false).page_fault_alloc_request(0x3000, 0x5000, &pt).unwrap();
    assert_eq!((load.page, load.page_count), (0x3000, 2));
    assert!(Backend::new_alloc(true).page_fault_alloc_request(0x3000, 0x5000, &pt).is_none());
}

#[test]
fn unused_frames_go_back() {
    let (mut pt, mut all) = (PageTable::new(false, usize::MAX), frames(4));
    let load = Backend::new_alloc(false).page_fault_alloc_request(0x1000, 0x4000, &pt).unwrap();
    let mut prepared = match load.prepare(&mut all) {
        Ok(p) => p,
        Err(_) => panic!("no frames"),
    };
    assert!(pt.map(0x2000, 0x5000, PageSize::Size4K, rw()));
    let r = Backend::handle_prepared_page_fault_alloc(0x1000, 0x4000, rw(), &mut pt, &mut prepared);
    assert!(r.handled);
    assert_eq!(pt.query(0x2000), Some((0x5000, rw(), PageSize::Size4K)));
    prepared.release(&mut all);
    assert!(!all.take_released().is_empty());
}

#[test]
fn shared_memory_follows_its_buffer() {
    assert!(Backend::new_shared(PAGE, PageSize::Size4K, None).is_none());
    match Backend::new_shared(PAGE + 1, PageSize::Size4K, Some((0x7000, RAM))) {
        Some(Backend::Shared { shared_frame, frame_paddr, .. }) => {
            assert_eq!((shared_frame.vaddr, shared_frame.page_count, frame_paddr), (0x7000, 2, RAM));
        }
        _ => panic!("no memory"),
    }
    match Backend::new_linear(0x3000).update_address(0x4000, 0x6000, PAGE) {
        Backend::Linear { pa_va_offset } => assert_eq!(pa_va_offset, 0x5000),
        _ => panic!("not linear"),
    }
    assert!(Backend::new_alloc_grows_down(false, true).is_grows_down());
}

fn file(shared: bool) -> FileMapping {
    FileMapping {
        start: 0x4000,
        file: 7,
        file_flags: FileFlags { read: true, write: true },
        file_offset: 0,
        file_bytes: 0x2000,
        shared,
    }
}

#[test]
fn private_file_pages_stay_read_only() {
    for shared in [false, true] {
        let mut pt = PageTable::new(false, usize::MAX);
        assert!(pt.map(0x4000, RAM, PageSize::Size4K, flags(true, false)));
        let mut tracker = TlbInvalidationTracker::default();
        assert!(file(shared).protect_file(0x4000, PAGE, rw(), &mut pt, &mut tracker));
        assert_eq!(pt.query(0x4000).unwrap().1.write, shared);
    }
}

#[test]
fn file_faults_copy_or_upgrade_pages() {
    let (mut pt, mut all) = (PageTable::new(false, usize::MAX), frames(4));
    let page = all.alloc_frame().unwrap();
    assert!(pt.map(0x4000, page, PageSize::Size4K, flags(true, false)));
    let mut reclaim = DeferredReclaims::default();
    let write = flags(false, true);
    let r = file(false).handle_page_fault_file(
        0x4000, 0x6000, rw(), write, 0x2000, &mut pt, &mut all, &mut reclaim,
    );
    assert!(r.handled);
    assert_eq!(r.copied, Some((page, RAM + PAGE)));
    assert_eq!(pt.query(0x4000), Some((RAM + PAGE, rw(), PageSize::Size4K)));
    assert_eq!(reclaim.leaked(), 1);
    let r = file(false).handle_page_fault_file(
        0x5000, 0x6000, rw(), write, 0x2000, &mut pt, &mut all, &mut reclaim,
    );
    assert!(!r.handled);
    let mut ra = FileReadAheadState::default();
    let load = file(false).page_load_request(0x5000, 0x6000, rw(), &pt, 0x2000, &mut ra).unwrap();
    assert_eq!((load.page_number, load.page_count), (1, 1));
    assert_eq!(ra.next_page, Some(2));
    assert!(ra.is_sequential(2));
    assert_eq!(file(true).page_read_window_at_size(0x5000, 0x1800), Some((0x1000, 0x800)));
}

#[test]
fn deferred_work_waits_for_the_shootdown() {
    let mut all = frames(2);
    let frame = all.alloc_frame().unwrap();
    let mut reclaim = DeferredReclaims::with_capacity(2);
    assert!(reclaim.is_empty());
    reclaim.defer_frame(frame);
    reclaim.defer_backend(Backend::new_alloc(false));
    let mut w = FileWriteback::for_unmap(3);
    w.push_page(1);
    reclaim.defer_file_writeback(w);
    assert_eq!(reclaim.leaked(), 3);
    let mut other = DeferredReclaims::default();
    other.append(reclaim);
    let shootdown = leave_behind(5, TlbInvalidationTracker::default(), other).unwrap();
    assert!(shootdown.flushes().is_empty());
    assert!(all.take_released().is_empty());
    assert!(shootdown.complete_after_unlock(&vec![], &mut all).is_ok());
    assert_eq!(all.take_released(), vec![frame]);
    let nothing = leave_behind(5, TlbInvalidationTracker::default(), DeferredReclaims::default());
    assert!(nothing.is_none());
}

#[test]
fn counts_follow_references() {
    let mut table = FrameTable::new(RAM, 2 * PAGE);
    table.mark_used(RAM);
    table.mark_used(RAM);
    assert_eq!(table.get_ref(RAM), 1);
    table.inc_ref(RAM);
    table.inc_ref(RAM + PAGE);
    assert_eq!(table.dec_ref(RAM), 1);
    assert_eq!((table.get_ref(RAM + PAGE), table.total_refs()), (1, 2));
    assert!(table.contains(RAM + 2 * PAGE - 1) && !table.contains(RAM + 2 * PAGE));
}

#[test]
fn entries_change_without_their_areas() {
    let mut all = frames(2);
    let mut s = AddrSpace::new_empty(PAGE, 0x10_0000, 1, PageTable::new(false, usize::MAX));
    assert_eq!(s.map_alloc(0x2000, PAGE, rw(), true, &mut all), Ok(()));
    assert_eq!(s.protect_pte_only(0x2000, PAGE, flags(true, false)).result, Ok(()));
    assert!(!s.query_vaddr(0x2000).unwrap().1.write);
    assert!(s.can_access_range(0x2000, PAGE, rw()));
    assert_eq!(s.process_area_data(0x2000, 8).chunks.len(), 1);
    let (result, shootdown) = s.unmap(0x2000, PAGE, &FileSizes::new(vec![])).into_parts();
    assert_eq!(result, Ok(()));
    assert!(shootdown.is_some());
}

#[test]
fn times_are_added_and_ordered() {
    let t = |secs, subsec| TimeValue { secs, subsec };
    assert_eq!(t(1, 600_000_000).checked_add(&t(2, 600_000_000)), Some(t(4, 200_000_000)));
    assert_eq!(t(u64::MAX, 999_999_999).checked_add(&t(0, 1)), None);
    assert!(t(1, 5).earlier(&t(1, 6)) && !t(2, 0).earlier(&t(1, 6)));
    assert_eq!(t(2, 3).as_nanos_u64(), 2_000_000_003);
}

#[test]
fn pending_contexts_are_taken_once() {
    let mut counter = TaskIdCounter::new();
    let mut task = TaskInner::new(&mut counter, "t".to_string(), 1);
    let context = WaitContext::new(WaitReason::Futex, 1, 2);
    task.set_qperf_pending_wait_context(context);
    assert_eq!(task.take_qperf_pending_wait_context(), Some(context));
    assert_eq!(task.take_qperf_pending_wait_context(), None);
    task.set_qperf_pending_wait_context(context);
    task.clear_qperf_pending_wait_context();
    assert_eq!(task.take_qperf_pending_wait_context(), None);
}

fn cpu(name: &[u8], status: Option<&[u8]>, reg: u64) -> CpuNode {
    CpuNode {
        name: name.to_vec(),
        status: status.map(|s| s.to_vec()),
        device_type: Some(b"cpu".to_vec()),
        reg: Some(vec![reg]),
    }
}

#[test]
fn only_available_nodes_count() {
    assert!(is_available(&None));
    assert!(is_available(&Some(b"okay".to_vec())));
    assert!(!is_available(&Some(b"disabled".to_vec())));
    assert!(is_available_cpu(&cpu(b"cpu@1", None, 1)));
    assert!(!is_available_cpu(&cpu(b"cpu@1", Some(b"disabled"), 1)));
    assert_eq!(cpu_hardware_id(&cpu(b"cpu@2", None, 2)), Some(2));
    let topology: CpuTopology<4> = match number_cpus(&vec![7, 3], 3) {
        Some(t) => t,
        None => panic!("no topology"),
    };
    assert_eq!(topology.logical_cpu_id(3), Some(0));
    assert_eq!(topology.logical_cpu_id(7), Some(1));
    let other = DeviceNode {
        status: None,
        compatibles: vec![b"other".to_vec()],
        reg: None,
        interrupts: None,
    };
    assert!(read_liointc(&other).is_none());
    assert!(find_liointc(&vec![other]).is_none());
}

fn entry(inode: u64, parent: Option<usize>, name: &str) -> Entry {
    Entry { inode, fs: 0, parent, is_dir: true, name: name.to_string() }
}

#[test]
fn lower_mounts_are_unmounted_first() {
    let mut table = MountTable::new();
    let root = table.add_entry(entry(1, None, ""));
    let a = table.add_entry(entry(2, Some(root), "a"));
    let c = table.add_entry(entry(3, Some(root), "c"));
    let main = table.new_root(root);
    let group = table.make_shared(main);
    let at = |mountpoint, entry| Location { mountpoint, entry };
    let slave = table.mount_bind(at(main, c), at(main, root)).unwrap();
    table.make_slave(slave);
    assert_eq!(table.propagation(slave), PropagationMode::Slave { master_group: group });
    assert!(table.is_slave_of(slave, group) && !table.is_slave_of(main, group));
    let new = table.mount(at(main, a), root).unwrap();
    let spread = table.propagate_new_mount(main, None, new);
    assert!(spread.complete);
    assert!(spread.created.iter().any(|(under, _)| *under == slave));
    let list = table.collect_propagate_unmount(new);
    for (i, m) in list.iter().enumerate() {
        for later in &list[i + 1..] {
            assert!(!table.is_mount_ancestor_of(*m, *later));
        }
    }
    let bare = table.propagate_subtree(slave, main);
    assert!(bare.complete);
    table.change_propagation(slave, PropagationMode::Private);
    assert_eq!(table.propagation(slave), PropagationMode::Private);
    assert!(NodePermission { bits: 0 }.add_set_gid().has_set_gid());
}
