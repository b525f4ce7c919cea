use pulseos::cpu::exception_table::{exception_addr, ExceptionTableEntry};
use pulseos::cpu::init::{
    init_mmu, init_mmu_with_user_root, init_trap, init_trap_early, init_trap_mapped_early,
    kernel_crmd, symbol_paddr,
};
use pulseos::cpu::riscv::{current_asid, satp_root, AsidPolicy, Fence};
use pulseos::cpu::trap::{
    can_go_on, first_handler, handle_user_page_privilege_illegal, loongarch64_trap_handler,
    ppi_is_instruction_fetch, AddressErrorKind, TrapAction, TrapCause, TrapConfig, TrapInfo,
};
use pulseos::cpu::unaligned::{
    decode_unaligned_access, FprWrite, RegisterFile, TrapFrame, UnalignedAccessType,
    UnalignedError, FLDXD_OP, LDD_OP, LDH_OP, LDHU_OP, STXW_OP,
};

const PHYS_VIRT_OFFSET: u64 = 0xffff_ffff_0000_0000;

#[test]
fn decodes_integer_load_store_forms() {
    let load = decode_unaligned_access((LDD_OP << 22) | 7, 0x1003).unwrap();
    assert_eq!(load.access_type(), UnalignedAccessType::Read);
    assert_eq!(load.size(), 8);
    assert_eq!(load.register, 7);

    let store = decode_unaligned_access((STXW_OP << 15) | 11, 0x1fff).unwrap();
    assert_eq!(store.access_type(), UnalignedAccessType::Write);
    assert_eq!(store.size(), 4);
    assert_eq!(store.register, 11);
}

#[test]
fn rejects_non_memory_opcode() {
    assert!(matches!(
        decode_unaligned_access(0, 0x1001),
        Err(UnalignedError::UnsupportedInstruction { .. })
    ));
}

#[test]
fn sign_and_register_file_follow_the_opcode() {
    let signed = decode_unaligned_access((LDH_OP << 22) | 3, 0x11).unwrap();
    assert!(signed.signed);
    assert_eq!(signed.size(), 2);
    let unsigned = decode_unaligned_access((LDHU_OP << 22) | 3, 0x11).unwrap();
    assert!(!unsigned.signed);
    let float = decode_unaligned_access((FLDXD_OP << 15) | 4, 0x11).unwrap();
    assert_eq!(float.register_file, RegisterFile::FloatingPoint);
    assert_eq!(float.size(), 8);
    assert_eq!(float.address(), 0x11);
}

fn frame() -> TrapFrame {
    let mut regs = [0u64; 32];
    regs[7] = 0x77;
    TrapFrame { regs, era: 0x100 }
}

#[test]
fn emulated_load_sets_register_and_moves_on() {
    let mut tf = frame();
    let load = tf.decode_unaligned_access_at((LDD_OP << 22) | 7, 0x1003).unwrap();
    assert_eq!(tf.emulate_unaligned_access(&load, Ok(0x1234)), Ok(None));
    assert_eq!(tf.regs[7], 0x1234);
    assert_eq!(tf.era, 0x104);
}

#[test]
fn emulated_fault_changes_nothing() {
    let mut tf = frame();
    let load = decode_unaligned_access((LDD_OP << 22) | 7, 0x1003).unwrap();
    match tf.emulate_unaligned_access(&load, Err(0x1008)) {
        Err(UnalignedError::PageFault(fault)) => {
            assert_eq!(fault.fault_address(), 0x1008);
            assert_eq!(fault.access_address(), 0x1003);
            assert_eq!(fault.size(), 8);
            assert_eq!(fault.access_type(), UnalignedAccessType::Read);
        }
        _ => panic!("no page fault"),
    }
    assert_eq!(tf.regs[7], 0x77);
    assert_eq!(tf.era, 0x100);
}

#[test]
fn float_loads_and_stores_use_their_registers() {
    let mut tf = frame();
    let float = decode_unaligned_access((FLDXD_OP << 15) | 4, 0x11).unwrap();
    assert_eq!(
        tf.emulate_unaligned_access(&float, Ok(9)),
        Ok(Some(FprWrite { index: 4, value: 9 }))
    );
    let store = decode_unaligned_access((STXW_OP << 15) | 7, 0x13).unwrap();
    assert_eq!(tf.store_value(&store, 0xdead), 0x77);
}

#[test]
fn fixup_goes_to_the_first_matching_entry() {
    let table = vec![
        ExceptionTableEntry { from: -0x100, to: 8 },
        ExceptionTableEntry { from: 0x20, to: -0x10 },
    ];
    let mut tf = TrapFrame { regs: [0; 32], era: 0x1020 };
    assert!(tf.fixup_exception(&table, 0x1000));
    assert_eq!(tf.era, 0xff0);
    assert!(!tf.fixup_exception(&table, 0x1000));
    assert_eq!(tf.era, 0xff0);
    assert_eq!(exception_addr(0x10, -0x20), u64::MAX - 0xf);
}

const CONFIG: TrapConfig = TrapConfig { user_space: true, ls2k1000: true };

fn info(cause: TrapCause, from_user: bool) -> TrapInfo {
    TrapInfo { cause, from_user, era: 0x400, badv: 0x1001, badi: 0 }
}

#[test]
fn traps_lead_to_their_actions() {
    assert_eq!(
        loongarch64_trap_handler(&info(TrapCause::Syscall, true), &CONFIG),
        TrapAction::Syscall { era: 0x404 }
    );
    assert_eq!(
        loongarch64_trap_handler(&info(TrapCause::Breakpoint, false), &CONFIG),
        TrapAction::Resume { era: 0x404 }
    );
    assert_eq!(
        loongarch64_trap_handler(&info(TrapCause::AddressNotAligned, false), &CONFIG),
        TrapAction::EmulateUnaligned { vaddr: 0x1001 }
    );
    assert_eq!(
        loongarch64_trap_handler(&info(TrapCause::AddressNotAligned, true), &CONFIG),
        TrapAction::AddressError { vaddr: 0x1001, kind: AddressErrorKind::Misaligned }
    );
    assert_eq!(
        loongarch64_trap_handler(&info(TrapCause::MemoryAccessAddressError, true), &CONFIG),
        TrapAction::AddressError { vaddr: 0x1001, kind: AddressErrorKind::BadAddress }
    );
    assert_eq!(
        loongarch64_trap_handler(&info(TrapCause::InstructionNotExist, true), &CONFIG),
        TrapAction::IllegalInstruction { era: 0x400 }
    );
    assert_eq!(
        loongarch64_trap_handler(&info(TrapCause::Other, false), &CONFIG),
        TrapAction::Panic
    );
    assert_eq!(
        loongarch64_trap_handler(&info(TrapCause::Interrupt { lines: 0x18 }, false), &CONFIG),
        TrapAction::Interrupt { line: 3 }
    );
}

#[test]
fn user_page_faults_are_the_users() {
    match loongarch64_trap_handler(&info(TrapCause::StorePageFault, true), &CONFIG) {
        TrapAction::PageFault { vaddr, access, user, flush } => {
            assert_eq!(vaddr, 0x1001);
            assert!(access.write && access.user && !access.read && !access.execute);
            assert!(user);
            assert_eq!(flush, None);
        }
        _ => panic!("no page fault"),
    }
    match loongarch64_trap_handler(&info(TrapCause::FetchPageFault, false), &CONFIG) {
        TrapAction::PageFault { access, user, .. } => {
            assert!(access.execute && !access.user);
            assert!(!user);
        }
        _ => panic!("no page fault"),
    }
}

#[test]
fn refused_fetch_is_told_from_refused_data() {
    assert!(ppi_is_instruction_fetch(0x0a << 22));
    assert!(!ppi_is_instruction_fetch(0x0c << 22));
    let fetch = TrapInfo { badv: 0, badi: 0x0b << 22, ..info(TrapCause::PagePrivilegeIllegal, true) };
    match handle_user_page_privilege_illegal(&fetch, &CONFIG) {
        TrapAction::PageFault { vaddr, access, flush, .. } => {
            assert_eq!(vaddr, 0x400);
            assert!(access.execute && access.user);
            assert_eq!(flush, Some(0x400));
        }
        _ => panic!("no page fault"),
    }
}

#[test]
fn only_unhandled_actions_stop_the_kernel() {
    assert!(can_go_on(&TrapAction::Syscall { era: 4 }, false));
    assert!(!can_go_on(&TrapAction::Panic, true));
    assert!(!can_go_on(&TrapAction::IllegalInstruction { era: 4 }, false));
    assert!(can_go_on(&TrapAction::IllegalInstruction { era: 4 }, true));
    assert_eq!(first_handler(0), (None, false));
    assert_eq!(first_handler(1), (Some(0), false));
    assert_eq!(first_handler(2), (Some(0), true));
}

#[test]
fn handlers_are_installed_by_their_addresses() {
    assert_eq!(symbol_paddr(0xffff_ffff_9800_0000, PHYS_VIRT_OFFSET), 0x9800_0000);
    assert_eq!(symbol_paddr(0x9000_0000_9800_0000, PHYS_VIRT_OFFSET), 0x9800_0000);
    assert_eq!(init_trap(0x1000), 0x1000);
    assert_eq!(init_trap_early(0xffff_ffff_9800_0000, PHYS_VIRT_OFFSET), 0x9000_0000_9800_0000);
    assert_eq!(
        init_trap_mapped_early(0x9000_0000_9800_0000, PHYS_VIRT_OFFSET),
        0xffff_ffff_9800_0000
    );
}

#[test]
fn translation_is_set_up_for_the_kernel() {
    assert_eq!(kernel_crmd(0xf), 0xb0);
    assert_eq!(kernel_crmd(0x200), 0x2b0);
    let setup = init_mmu_with_user_root(0xffff_ffff_9800_0000, 0, 0x1000, 0x2000, PHYS_VIRT_OFFSET);
    assert_eq!(setup.page_size, 12);
    assert_eq!(setup.refill_entry, 0x9800_0000);
    assert_eq!(setup.kernel_root, 0x1000);
    assert_eq!(setup.user_root, 0x2000);
    assert_eq!(init_mmu(0xffff_ffff_9800_0000, 0, 0x1000, PHYS_VIRT_OFFSET).user_root, 0);
}

#[test]
fn fences_follow_what_the_hardware_has() {
    let mut policy = AsidPolicy::new();
    assert!(!policy.has_hardware_asids());
    assert_eq!(policy.flush_tlb_asid(3), Fence::All);
    assert_eq!(policy.flush_tlb_after_satp_write(), Some(Fence::All));
    assert!(policy.write_kernel_page_table(0x8000));
    assert_eq!(policy.detect_hardware_asid_mask(AsidPolicy::asid_probe(0)), 0xffff);
    assert!(!policy.write_kernel_page_table(0x8000));
    assert_eq!(policy.hardware_asid_mask(), 0xffff);
    assert_eq!(policy.flush_tlb_asid(3), Fence::Address { asid: 3, vaddr: 0 });
    assert_eq!(
        policy.flush_tlb_asid_vaddr(0x1_0003, 0x4000),
        Fence::Address { asid: 3, vaddr: 0x4000 }
    );
    assert_eq!(policy.flush_tlb_after_satp_write(), None);
    assert_eq!(policy.flush_tlb(Some(0x4000)), Fence::Address { asid: 0, vaddr: 0x4000 });
    policy.set_global_sfence_required(true);
    assert!(policy.global_sfence_required());
    assert_eq!(policy.flush_tlb(Some(0x4000)), Fence::All);
    assert_eq!(policy.flush_tlb_asid_vaddr(3, 0x4000), Fence::All);
    assert_eq!(policy.read_kernel_page_table(0x1), 0x8000);
    assert_eq!(AsidPolicy::new().read_kernel_page_table(0x1), 0x1);
}

#[test]
fn satp_holds_a_space_and_a_root() {
    assert_eq!(current_asid((8 << 60) | (0x12 << 44) | 0x80), 0x12);
    assert_eq!(satp_root((8 << 60) | (0x12 << 44) | 0x80), 0x8_0000);
}
