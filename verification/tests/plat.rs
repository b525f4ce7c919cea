use pulseos::plat::boot::{boot_paddr, init_boot_page_table, BootEntry, BootTableAddrs};
use pulseos::plat::console::write_bytes;
use pulseos::plat::cpu_topology::{CpuTopology, INVALID_CPU_ID};
use pulseos::plat::dtb::{check_tree, read_cpus, read_devices, read_memory};
use pulseos::plat::irq::{
    liointc_route_value, parent_index_from_cpu_irq, IpiError, IpiTarget, IrqCall, IrqTable,
    LineWrite, IPI_IRQ, RAW_IPI_IRQ, RAW_TIMER_IRQ, TIMER_IRQ,
};
use pulseos::plat::mem::{
    align_reserved, init_from_fdt, intersect, memory_layout, phys_to_virt, push_u64_range,
    virt_to_phys, FirmwareMemory, MemoryError, RangeList,
};
use pulseos::plat::mp::{start_secondary_cpu, CpuBootError};
use pulseos::plat::mp_common::{
    firmware_to_phys, kernel_virt_to_cached_dmw, l1_block_index, phys_to_cached_dmw,
    phys_to_uncached_dmw, valid_stack_top,
};
use pulseos::plat::time::{nanos_per_tick, nanos_to_ticks, ticks_to_nanos};
use pulseos::plat::topology::{
    boot_fdt_paddr, canonical_phys, fdt_from_phys, fdt_headers, list_fills_up, number_cpus, parse_cpu_topology,
    parse_liointc_topology, parse_uboot_go_addr_arg, single_cpu_topology, uboot_go_arg_address,
    uboot_go_args_address, uboot_go_fdt_arg, LioIntcTopology, UHI_FDT_ARG0,
};

const PHYS_VIRT_OFFSET: u64 = 0xffff_ffff_0000_0000;

#[test]
fn places_kernel_in_the_third_one_gib_block() {
    assert_eq!(l1_block_index(0x9800_0000), 2);
}

#[test]
fn keeps_ls2k1000_ahci_in_the_second_one_gib_block() {
    assert_eq!(l1_block_index(0x400e_0000), 1);
}

#[test]
fn maps_non_dense_hardware_ids_to_logical_cpus() {
    let mut topology = CpuTopology::<4>::empty();

    assert!(topology.add_hardware_id(1));
    assert!(topology.add_hardware_id(3));
    assert!(topology.add_hardware_id(7));

    assert_eq!(topology.cpu_count(), 3);
    assert_eq!(topology.logical_cpu_id(1), Some(0));
    assert_eq!(topology.logical_cpu_id(3), Some(1));
    assert_eq!(topology.logical_cpu_id(7), Some(2));
    assert_eq!(topology.hardware_id(2), Some(7));
    assert_eq!(topology.logical_cpu_id(2), None);
}

#[test]
fn rejects_duplicate_ids_and_ids_beyond_capacity() {
    let mut topology = CpuTopology::<2>::empty();

    assert!(topology.add_hardware_id(2));
    assert!(!topology.add_hardware_id(2));
    assert!(topology.add_hardware_id(4));
    assert!(!topology.add_hardware_id(6));

    assert_eq!(topology.cpu_count(), 2);
    assert_eq!(topology.hardware_id(0), Some(2));
    assert_eq!(topology.hardware_id(1), Some(4));
}

#[test]
fn routes_reference_cascade_hwi1_to_cpu0_int1() {
    assert_eq!(liointc_route_value(3), Some(0x21));
}

#[test]
fn rejects_cpu_interrupts_outside_liointc_parent_lines() {
    assert_eq!(liointc_route_value(1), None);
    assert_eq!(liointc_route_value(6), None);
}

#[test]
fn preserves_discontiguous_ls2k1000_ranges() {
    let mut ranges = RangeList::<4>::new();
    assert!(ranges.push((0x0020_0000, 0x0fe0_0000)));
    assert!(ranges.push((0x9000_0000, 0x3000_0000)));
    ranges.normalize();
    assert_eq!(
        ranges.as_slice(),
        &[(0x0020_0000, 0x0fe0_0000), (0x9000_0000, 0x3000_0000)]
    );
}

#[test]
fn aligns_and_intersects_reserved_ranges() {
    let aligned = align_reserved((0x0a00_0123, 0x1000)).unwrap();
    assert_eq!(aligned, (0x0a00_0000, 0x2000));
    assert_eq!(
        intersect(aligned, (0x0a00_1000, 0x1000)),
        Some((0x0a00_1000, 0x1000))
    );
}

#[test]
fn converts_kernel_entry_to_cached_dmw() {
    assert_eq!(
        kernel_virt_to_cached_dmw(0xffff_ffff_9800_0000, PHYS_VIRT_OFFSET),
        Some(0x9000_0000_9800_0000)
    );
    assert_eq!(
        kernel_virt_to_cached_dmw(0x8000_0000, PHYS_VIRT_OFFSET),
        None
    );
}

#[test]
fn converts_physical_stack_to_cached_dmw() {
    assert_eq!(
        phys_to_cached_dmw(0x27fff_0000),
        Some(0x9000_0002_7fff_0000)
    );
    assert_eq!(phys_to_cached_dmw(0x1000_0000_0000_0000), None);
}

#[test]
fn converts_firmware_memory_to_uncached_dmw() {
    assert_eq!(
        phys_to_uncached_dmw(0x0a00_0000),
        Some(0x8000_0000_0a00_0000)
    );
    assert_eq!(phys_to_uncached_dmw(0x1000_0000_0000_0000), None);
}

#[test]
fn converts_firmware_dmw_addresses_to_physical() {
    assert_eq!(firmware_to_phys(0x9000_0000_0000_0000), Some(0));
    assert_eq!(firmware_to_phys(0x9000_0000_9000_0000), Some(0x9000_0000));
    assert_eq!(firmware_to_phys(0x8000_0000_1fe0_1400), Some(0x1fe0_1400));
    assert_eq!(firmware_to_phys(0xa000_0000_0000_0000), None);
}

#[test]
fn checks_stack_top_against_ram_bounds() {
    let ram_base = 0x9000_0000;
    let ram_size = 0x3000_0000;

    assert!(!valid_stack_top(ram_base, ram_base, ram_size));
    assert!(valid_stack_top(ram_base + 0x4000, ram_base, ram_size));
    assert!(valid_stack_top(ram_base + ram_size, ram_base, ram_size));
    assert!(!valid_stack_top(
        ram_base + ram_size + 1,
        ram_base,
        ram_size
    ));
}

#[test]
fn recognizes_cached_uboot_addresses() {
    assert_eq!(canonical_phys(0x9000_0000_0a00_0000), Some(0x0a00_0000));
    assert_eq!(canonical_phys(0x0a00_0000), Some(0x0a00_0000));
}

#[test]
fn preserves_the_reference_liointc_parent_line() {
    assert_eq!(parent_index_from_cpu_irq(3), Some(1));
    assert_eq!(parent_index_from_cpu_irq(2), Some(0));
    assert_eq!(parent_index_from_cpu_irq(6), None);
}

#[test]
fn boot_tables_show_memory_twice() {
    let a = BootTableAddrs {
        l1: 0x1000,
        l2_low: 0x2000,
        l2_device: 0x3000,
        l2_kernel: 0x4000,
        invalid: 0x5000,
    };
    let t = init_boot_page_table(&a);
    assert_eq!(t.l0[0], BootEntry::Table { paddr: 0x1000 });
    assert_eq!(t.l0[0x1ff], BootEntry::Table { paddr: 0x1000 });
    assert_eq!(t.l0[1], BootEntry::Table { paddr: 0x5000 });
    assert_eq!(t.l1[0x1fe], BootEntry::Table { paddr: 0x4000 });
    assert_eq!(t.l1[2], BootEntry::Table { paddr: 0x5000 });
    assert_eq!(
        t.l2_kernel[1],
        BootEntry::Page { paddr: 0x8020_0000, execute: true, device: false }
    );
    assert_eq!(
        t.l2_device[0],
        BootEntry::Page { paddr: 0x4000_0000, execute: false, device: true }
    );
    assert_eq!(boot_paddr(0xffff_ffff_8000_1000), 0x8000_1000);
    assert_eq!(boot_paddr(0x9000_0000_8000_1000), 0x8000_1000);
}

#[test]
fn line_feeds_get_a_carriage_return() {
    assert_eq!(write_bytes(&b"a\nb".to_vec()), b"a\r\nb".to_vec());
}

#[test]
fn ticks_cover_a_deadline() {
    assert_eq!(nanos_per_tick(100_000_000), 10);
    assert_eq!(ticks_to_nanos(5, 10), 50);
    assert_eq!(ticks_to_nanos(u64::MAX, 10), u64::MAX);
    assert_eq!(nanos_to_ticks(50, 10), 5);
    assert_eq!(nanos_to_ticks(51, 10), 6);
}

fn two_cpus() -> CpuTopology<4> {
    let mut topology = CpuTopology::<4>::empty();
    assert!(topology.add_hardware_id(1));
    assert!(topology.add_hardware_id(3));
    topology
}

#[test]
fn secondary_cpu_is_sent_its_stack_and_entry() {
    let topology = two_cpus();
    let ram = vec![(0x9000_0000, 0x1000_0000)];
    let entry = 0xffff_ffff_9800_0000;
    let start =
        start_secondary_cpu(1, 0x9000_4000, &topology, &ram, entry, PHYS_VIRT_OFFSET).unwrap();
    assert_eq!(start.hardware_id, 3);
    assert_eq!(start.stack_top, 0x9000_0000_9000_4000);
    assert_eq!(start.entry, 0x9000_0000_9800_0000);
    assert_eq!(start.action, 1);
    assert_eq!(
        start_secondary_cpu(0, 0x9000_4000, &topology, &ram, entry, PHYS_VIRT_OFFSET),
        Err(CpuBootError::InvalidParameter)
    );
    assert_eq!(
        start_secondary_cpu(2, 0x9000_4000, &topology, &ram, entry, PHYS_VIRT_OFFSET),
        Err(CpuBootError::InvalidParameter)
    );
    assert_eq!(
        start_secondary_cpu(1, 0x9000_0000, &topology, &ram, entry, PHYS_VIRT_OFFSET),
        Err(CpuBootError::InvalidAddress)
    );
}

#[test]
fn interrupt_lines_keep_their_handlers() {
    let mut irqs = IrqTable::new();
    assert_eq!(irqs.register(5, 50), Some(LineWrite::InputsOn { mask: 0x20 }));
    assert_eq!(irqs.register(5, 51), None);
    assert_eq!(irqs.register(40, 1), None);
    assert_eq!(irqs.register(TIMER_IRQ, 90), Some(LineWrite::Timer { enabled: true }));
    assert_eq!(irqs.handler(5), Some(50));
    assert_eq!(irqs.handler(6), None);
    assert_eq!(irqs.unregister(5), Some((50, LineWrite::InputsOff { mask: 0x20 })));
    assert_eq!(irqs.unregister(5), None);
    assert_eq!(
        irqs.cpu_online(0),
        LineWrite::Ipi { senders: u32::MAX, enabled: true }
    );
    irqs.cpu_online(1);
    assert_eq!(irqs.cpu_online(64), LineWrite::Nothing);
    assert_eq!(irqs.unregister(TIMER_IRQ), None);
    assert_eq!(irqs.set_enable(IPI_IRQ, false), LineWrite::Ipi { senders: 0, enabled: false });
}

#[test]
fn raised_lines_lead_to_calls_in_order() {
    let mut irqs = IrqTable::new();
    irqs.register(5, 50);
    irqs.register(2, 20);
    irqs.register(IPI_IRQ, 70);
    let d = irqs.handle(3, 0, 0xff, 3);
    assert_eq!(
        d.calls,
        vec![
            IrqCall { irq: 2, handler: Some(20) },
            IrqCall { irq: 5, handler: Some(50) },
        ]
    );
    let d = irqs.handle(RAW_IPI_IRQ, 0b101, 0, 3);
    assert_eq!(d.ipi_clear, Some(0b101));
    assert_eq!(d.calls.len(), 2);
    let d = irqs.handle(RAW_TIMER_IRQ, 0, 0, 3);
    assert!(d.timer_clear);
    assert_eq!(d.calls, vec![IrqCall { irq: TIMER_IRQ, handler: None }]);
    assert!(irqs.handle(4, 0, 0xff, 3).calls.is_empty());
}

#[test]
fn cpus_are_interrupted_by_their_hardware_ids() {
    let topology = two_cpus();
    let mut irqs = IrqTable::new();
    irqs.cpu_online(0);
    irqs.cpu_online(1);
    assert_eq!(irqs.send_ipi_to_cpu(1, &topology), Ok((3 << 16) | (1 << 31)));
    assert_eq!(irqs.send_ipi_to_cpu(2, &topology), Err(IpiError::InvalidTarget));
    let (sent, result) =
        irqs.send_ipi(IpiTarget::AllExceptCurrent { cpu_id: 1, cpu_num: 2 }, &topology);
    assert_eq!(sent, vec![(1 << 16) | (1 << 31)]);
    assert_eq!(result, Ok(()));
    let (sent, result) = IrqTable::new().send_ipi(IpiTarget::One { cpu_id: 0 }, &topology);
    assert!(sent.is_empty());
    assert_eq!(result, Err(IpiError::CpuOffline));
}

#[test]
fn controller_starts_with_its_inputs_off() {
    let mut irqs = IrqTable::new();
    irqs.register(4, 9);
    let before = irqs.handle(3, 0, 1 << 4, 3).calls.len();
    let setup = irqs.init_early(3);
    let after = irqs.handle(3, 0, 1 << 4, 3).calls.len();
    assert_eq!((before, after), (1, 0));
    assert_eq!(irqs.handler(4), Some(9));
    assert_eq!(setup.routes, vec![0x21; 32]);
    assert_eq!(setup.disable, u32::MAX);
    assert_eq!(setup.edge, 0);
    assert_eq!(setup.polarity, 0);
    assert_eq!(setup.cascade_mask, 8);
    assert_eq!(liointc_route_value(6), None);
}

#[test]
fn ranges_are_ordered_and_joined() {
    let mut ranges = RangeList::<4>::new();
    assert!(ranges.is_empty());
    assert!(ranges.push((0x5000, 0x1000)));
    assert!(ranges.push((0x1000, 0x2000)));
    assert!(ranges.push((0x2000, 0x3000)));
    assert!(ranges.push((0x9000, 0)));
    assert!(ranges.push((u64::MAX, 0x10)));
    assert!(!ranges.push((0xa000, 0x1000)));
    ranges.normalize();
    assert_eq!(ranges.as_slice(), &[(0x1000, 0x5000)]);
    ranges.normalize();
    assert_eq!(ranges.as_slice(), &[(0x1000, 0x5000)]);
    assert_eq!(ranges.len(), 1);
    assert!(!push_u64_range(&mut ranges, 0xa000_0000_0000_0000, 1));
    assert!(push_u64_range(&mut ranges, 0x9000_0000_0000_8000, 0x10));
    assert_eq!(ranges.as_slice()[1], (0x8000, 0x10));
    assert_eq!(align_reserved((u64::MAX, 1)), None);
    assert_eq!(intersect((0, 0x1000), (0x1000, 0x1000)), None);
}

#[test]
fn reserved_memory_lies_in_memory() {
    let fw = FirmwareMemory {
        regions: vec![(0x20_0000, 0x100_0000), (0x9000_0000, 0x1000_0000)],
        reserved: vec![(0x20_0800, 0x1000), (0xf000_0000, 0x1000)],
        dtb_size: 0x900,
    };
    let layout = match memory_layout(&fw, 0x9000_0100, 0, 0xa000_0000) {
        Ok(layout) => layout,
        Err(_) => panic!("no layout"),
    };
    assert_eq!(
        layout.ram.as_slice(),
        &[(0x20_0000, 0x100_0000), (0x9000_0000, 0x1000_0000)]
    );
    assert_eq!(
        layout.reserved.as_slice(),
        &[(0x20_0000, 0x2000), (0x9000_0000, 0x1000)]
    );
}

#[test]
fn missing_or_bad_memory_is_told() {
    let none = FirmwareMemory { regions: vec![], reserved: vec![], dtb_size: 1 };
    assert!(matches!(memory_layout(&none, 0x1000, 0, 0x1000), Err(MemoryError::NoRam)));
    let bad = FirmwareMemory {
        regions: vec![(0, 0x1000)],
        reserved: vec![(0xa000_0000_0000_0000, 1)],
        dtb_size: 1,
    };
    assert!(matches!(memory_layout(&bad, 0x1000, 0, 0x1000), Err(MemoryError::BadReservation)));
    let end = FirmwareMemory { regions: vec![(0, 0x1000)], reserved: vec![], dtb_size: 1 };
    assert!(matches!(
        memory_layout(&end, u64::MAX - 1, 0, 0x1000),
        Err(MemoryError::BadReservedPages)
    ));
    assert_eq!(phys_to_virt(0x1000, PHYS_VIRT_OFFSET), 0xffff_ffff_0000_1000);
    assert_eq!(virt_to_phys(0xffff_ffff_0000_1000, PHYS_VIRT_OFFSET), 0x1000);
}

struct Tree {
    body: Vec<u8>,
    strings: Vec<u8>,
}

impl Tree {
    fn new() -> Self {
        Tree { body: vec![], strings: vec![] }
    }

    fn word(&mut self, n: u32) {
        self.body.extend_from_slice(&n.to_be_bytes());
    }

    fn pad(&mut self) {
        while self.body.len() % 4 != 0 {
            self.body.push(0);
        }
    }

    fn begin(&mut self, name: &str) {
        self.word(1);
        self.body.extend_from_slice(name.as_bytes());
        self.body.push(0);
        self.pad();
    }

    fn end(&mut self) {
        self.word(2);
    }

    fn prop(&mut self, name: &str, data: &[u8]) {
        let offset = self.strings.len() as u32;
        self.strings.extend_from_slice(name.as_bytes());
        self.strings.push(0);
        self.word(3);
        self.word(data.len() as u32);
        self.word(offset);
        self.body.extend_from_slice(data);
        self.pad();
    }

    fn cells(&mut self, name: &str, cells: &[u32]) {
        let mut data = vec![];
        for c in cells {
            data.extend_from_slice(&c.to_be_bytes());
        }
        self.prop(name, &data);
    }

    fn finish(mut self, reservations: &[(u64, u64)]) -> Vec<u8> {
        self.word(9);
        let mut rsv = vec![];
        for (a, s) in reservations {
            rsv.extend_from_slice(&a.to_be_bytes());
            rsv.extend_from_slice(&s.to_be_bytes());
        }
        rsv.extend_from_slice(&[0; 16]);
        let off_struct = 40 + rsv.len();
        let off_strings = off_struct + self.body.len();
        let total = off_strings + self.strings.len();
        let mut out = vec![];
        for n in [
            0xd00dfeed,
            total as u32,
            off_struct as u32,
            off_strings as u32,
            40,
            17,
            16,
            0,
            self.strings.len() as u32,
            self.body.len() as u32,
        ] {
            out.extend_from_slice(&(n as u32).to_be_bytes());
        }
        out.extend_from_slice(&rsv);
        out.extend_from_slice(&self.body);
        out.extend_from_slice(&self.strings);
        out
    }
}

/// A node with a property whose name is not among the strings.
fn trouble(t: &mut Tree) {
    t.begin("bad");
    t.word(3);
    t.word(0);
    t.word(0x1000);
    t.end();
}

fn board() -> Vec<u8> {
    board_with_trouble(0)
}

/// The tree of a board, with trouble among the CPUs (1), behind them (2) or at
/// the end (3).
fn board_with_trouble(place: usize) -> Vec<u8> {
    let mut t = Tree::new();
    t.begin("");
    t.cells("#address-cells", &[2]);
    t.cells("#size-cells", &[2]);
    t.begin("cpus");
    t.cells("#address-cells", &[1]);
    t.cells("#size-cells", &[0]);
    t.begin("cpu@0");
    t.prop("device_type", b"cpu\0");
    t.cells("reg", &[0]);
    t.end();
    t.begin("cpu@1");
    t.prop("status", b"okay\0");
    t.cells("reg", &[5]);
    t.end();
    if place == 1 {
        trouble(&mut t);
    }
    t.begin("cpu@2");
    t.prop("status", b"disabled\0");
    t.cells("reg", &[6]);
    t.end();
    t.begin("l2-cache");
    t.end();
    t.end();
    t.begin("memory@200000");
    t.prop("device_type", b"memory\0");
    t.cells("reg", &[0, 0x20_0000, 0, 0x0fe0_0000, 0, 0x9000_0000, 0, 0x1000_0000]);
    t.end();
    if place == 2 {
        trouble(&mut t);
    }
    t.begin("reserved-memory");
    t.cells("#address-cells", &[2]);
    t.cells("#size-cells", &[2]);
    t.begin("fb@a000000");
    t.cells("reg", &[0, 0x0a00_0000, 0, 0x1800]);
    t.end();
    t.end();
    t.begin("interrupt-controller@1fe11400");
    t.prop("compatible", b"vendor,other\0loongson,liointc\0");
    t.cells("reg", &[0, 0x1fe1_1400, 0, 0x40, 0, 0x1fe1_1040, 0, 0x8]);
    t.cells("interrupts", &[3]);
    t.end();
    if place == 3 {
        trouble(&mut t);
    }
    t.end();
    t.finish(&[(0x30_0000, 0x1000)])
}

#[test]
fn tree_is_read_whole() {
    let dtb = board();
    assert!(check_tree(&dtb));
    let (cpus, all) = read_cpus(&dtb).unwrap();
    assert!(all);
    assert_eq!(cpus.len(), 4);
    assert_eq!(cpus[1].name, b"cpu@1".to_vec());
    assert_eq!(cpus[1].status, Some(b"okay".to_vec()));
    assert_eq!(cpus[1].reg, Some(vec![5]));
    assert_eq!(cpus[0].device_type, Some(b"cpu".to_vec()));
    let (devices, all) = read_devices(&dtb).unwrap();
    assert!(all);
    let liointc = &devices[devices.len() - 1];
    assert_eq!(
        liointc.compatibles,
        vec![b"vendor,other".to_vec(), b"loongson,liointc".to_vec()]
    );
    assert_eq!(liointc.interrupts, Some(vec![3]));
    let (regions, reserved, size) = read_memory(&dtb).unwrap();
    assert_eq!(regions, vec![(0x20_0000, 0x0fe0_0000), (0x9000_0000, 0x1000_0000)]);
    assert_eq!(reserved, vec![(0x30_0000, 0x1000), (0x0a00_0000, 0x1800)]);
    assert_eq!(size, dtb.len() as u64);
}

#[test]
fn tree_that_cannot_be_read_is_refused() {
    let dtb = board();
    assert!(!check_tree(&dtb[..30]));
    let mut magic = dtb.clone();
    magic[0] = 0;
    assert!(read_cpus(&magic).is_none());
    let mut strings = dtb.clone();
    strings[32] = 1;
    assert!(read_devices(&strings).is_none());
    let mut t = Tree::new();
    t.begin("");
    t.word(3);
    t.word(0);
    t.word(0x1000);
    t.end();
    assert!(read_memory(&t.finish(&[])).is_none());
    let mut deep = Tree::new();
    for _ in 0..20 {
        deep.begin("n");
    }
    for _ in 0..19 {
        deep.end();
    }
    deep.begin("m");
    deep.end();
    assert!(!check_tree(&deep.finish(&[])));
}

#[test]
fn tree_is_read_as_far_as_it_is_looked_at() {
    let whole = parse_liointc_topology(&board());
    assert!(whole.is_some());
    for place in 1..4 {
        let dtb = board_with_trouble(place);
        assert!(!check_tree(&dtb));
        let found = parse_liointc_topology(&dtb);
        assert_eq!(found, if place == 3 { whole } else { None });
        assert_eq!(parse_cpu_topology::<4>(5, &dtb).is_some(), place != 1);
    }
    let (cpus, all) = read_cpus(&board_with_trouble(1)).unwrap();
    assert_eq!((cpus.len(), all), (2, false));
    let (devices, all) = read_devices(&board_with_trouble(2)).unwrap();
    assert_eq!((devices.len(), all), (7, false));
    // No CPU behind the first two is looked at where there is room for one.
    assert_eq!(parse_cpu_topology::<1>(5, &board_with_trouble(1)).unwrap().cpu_count(), 1);
    assert!(list_fills_up::<1>(&vec![5, 0], 5));
    assert!(!list_fills_up::<2>(&vec![5, 0, 5], 5));
    let mut early = Tree::new();
    early.begin("");
    trouble(&mut early);
    early.end();
    let (cpus, all) = read_cpus(&early.finish(&[])).unwrap();
    assert_eq!((cpus.len(), all), (0, false));
}

#[test]
fn tree_gives_the_layout_of_memory() {
    let dtb = board();
    let layout = match init_from_fdt(&dtb, 0x0b00_0000, 0, 0xa000_0000) {
        Ok(layout) => layout,
        Err(_) => panic!("no layout"),
    };
    assert_eq!(
        layout.ram.as_slice(),
        &[(0x20_0000, 0x0fe0_0000), (0x9000_0000, 0x1000_0000)]
    );
    assert_eq!(
        layout.reserved.as_slice(),
        &[(0x30_0000, 0x1000), (0x0a00_0000, 0x2000), (0x0b00_0000, 0x1000)]
    );
    assert!(matches!(init_from_fdt(&[], 0, 0, 1), Err(MemoryError::BadTree)));
}

#[test]
fn boot_cpu_comes_first() {
    let dtb = board();
    let topology = parse_cpu_topology::<4>(5, &dtb).unwrap();
    assert_eq!(topology.cpu_count(), 2);
    assert_eq!(topology.hardware_id(0), Some(5));
    assert_eq!(topology.hardware_id(1), Some(0));
    assert!(parse_cpu_topology::<4>(6, &dtb).is_none());
    assert!(parse_cpu_topology::<4>(5, &[]).is_none());
    assert_eq!(number_cpus::<2>(&vec![1, 2, 3], 2).unwrap().hardware_id(1), Some(1));
    assert!(number_cpus::<2>(&vec![INVALID_CPU_ID], INVALID_CPU_ID).is_none());
    assert_eq!(single_cpu_topology::<1>(9).hardware_id(0), Some(9));
}

#[test]
fn interrupt_controller_is_found_by_its_name() {
    assert_eq!(
        parse_liointc_topology(&board()),
        Some(LioIntcTopology {
            reg_paddr: 0x1fe1_1400,
            isr_paddr: 0x1fe1_1040,
            cascade_irq: 3,
        })
    );
    let mut t = Tree::new();
    t.begin("");
    t.begin("icu");
    t.prop("compatible", b"loongson,2k1000-icu\0");
    t.cells("reg", &[0, 0x1fe1_1400, 0x30, 0, 0x1fe1_1040, 0x8]);
    t.cells("interrupts", &[3]);
    t.end();
    t.end();
    assert_eq!(parse_liointc_topology(&t.finish(&[])), None);
}

#[test]
fn uboot_arguments_name_the_tree() {
    assert_eq!(parse_uboot_go_addr_arg(b"0x9000\0"), Some(0x9000));
    assert_eq!(parse_uboot_go_addr_arg(b"aBc\0"), Some(0xabc));
    assert_eq!(parse_uboot_go_addr_arg(b"0x\0"), None);
    assert_eq!(parse_uboot_go_addr_arg(b"\0"), None);
    assert_eq!(parse_uboot_go_addr_arg(b"12g\0"), None);
    assert_eq!(parse_uboot_go_addr_arg(b"12"), None);
    assert_eq!(parse_uboot_go_addr_arg(b"ffffffffffffffff\0"), Some(u64::MAX));
    assert_eq!(parse_uboot_go_addr_arg(b"10000000000000000\0"), None);
    assert_eq!(parse_uboot_go_addr_arg(&[b'0'; 40]), None);
    assert_eq!(uboot_go_fdt_arg(&[Some(1), None, Some(0x9000_0000_0a00_0000)]), Some(0x0a00_0000));
    assert_eq!(uboot_go_fdt_arg(&[None, Some(0x1000)]), None);
    assert_eq!(uboot_go_fdt_arg(&[Some(1), Some(0)]), None);
    assert_eq!(boot_fdt_paddr(UHI_FDT_ARG0, 0x1000, &[]), Some(0x1000));
    assert_eq!(boot_fdt_paddr(2, 0x1000, &[Some(1), Some(0x2000)]), Some(0x2000));
    assert_eq!(uboot_go_args_address(2, 0x1000), Some(0x9000_0000_0000_1000));
    assert_eq!(uboot_go_args_address(17, 0x1000), None);
    assert_eq!(uboot_go_arg_address(0), None);
}

#[test]
fn tree_is_looked_for_through_both_windows() {
    assert_eq!(
        fdt_headers(0x0a00_0000),
        Some((0x9000_0000_0a00_0000, 0x8000_0000_0a00_0000))
    );
    assert_eq!(fdt_headers(0), None);
    assert_eq!(
        fdt_from_phys(0x0a00_0000, Some(100), Some(200)),
        Some((0x9000_0000_0a00_0000, 100))
    );
    assert_eq!(
        fdt_from_phys(0x0a00_0000, None, Some(200)),
        Some((0x8000_0000_0a00_0000, 200))
    );
    assert_eq!(fdt_from_phys(0x0a00_0000, None, None), None);
    assert_eq!(fdt_from_phys(0x0a00_0000, Some(39), None), None);
    assert_eq!(fdt_from_phys(0x0a00_0000, Some(0x100_0001), None), None);
    assert_eq!(fdt_from_phys(0x0fff_ffff_ffff_f000, Some(0x1000), None), None);
}
