//! Addresses and register values for bringing a CPU up.
use vstd::prelude::*;

verus! {

/// Where the cached window onto physical memory begins.
pub const DMW_CACHED_BASE: u64 = 0x9000_0000_0000_0000;

/// The bits of an address in a window that name physical memory.
pub const DMW_VIRT_MASK: u64 = 0x0fff_ffff_ffff_ffff;

/// The physical address of a symbol that is linked at the kernel's offset, and
/// that may be seen through a window.
pub open spec fn spec_symbol_paddr(addr: u64, phys_virt_offset: u64) -> u64 {
    if addr >= phys_virt_offset {
        (addr - phys_virt_offset) as u64
    } else {
        addr & DMW_VIRT_MASK
    }
}

/// The physical address of a symbol.
pub fn symbol_paddr(addr: u64, phys_virt_offset: u64) -> (r: u64)
    ensures
        r == spec_symbol_paddr(addr, phys_virt_offset),
{
    if addr >= phys_virt_offset {
        addr - phys_virt_offset
    } else {
        addr & DMW_VIRT_MASK
    }
}

/// The exception entry once paging is on: where it is linked.
pub fn init_trap(entry_base: u64) -> (r: u64)
    ensures
        r == entry_base,
{
    entry_base
}

/// The exception entry before paging is on: in the cached window.
pub fn init_trap_early(entry_base: u64, phys_virt_offset: u64) -> (r: u64)
    ensures
        r == DMW_CACHED_BASE | spec_symbol_paddr(entry_base, phys_virt_offset),
{
    DMW_CACHED_BASE | symbol_paddr(entry_base, phys_virt_offset)
}

/// The exception entry as soon as paging is on: in the mapped kernel.
pub fn init_trap_mapped_early(entry_base: u64, phys_virt_offset: u64) -> (r: u64)
    ensures
        r == phys_virt_offset.wrapping_add(spec_symbol_paddr(entry_base, phys_virt_offset)),
{
    phys_virt_offset.wrapping_add(symbol_paddr(entry_base, phys_virt_offset))
}

/// However the entry is seen, linked or through the cached window, it has the
/// same physical address.
pub proof fn lemma_entry_has_one_paddr(paddr: u64, phys_virt_offset: u64)
    requires
        paddr <= DMW_VIRT_MASK,
        phys_virt_offset + paddr <= u64::MAX,
        phys_virt_offset > 0x9fff_ffff_ffff_ffff,
    ensures
        spec_symbol_paddr((phys_virt_offset + paddr) as u64, phys_virt_offset) == paddr,
        spec_symbol_paddr(DMW_CACHED_BASE | paddr, phys_virt_offset) == paddr,
{
    assert(paddr <= 0x0fff_ffff_ffff_ffffu64 ==> (0x9000_0000_0000_0000u64 | paddr)
        <= 0x9fff_ffff_ffff_ffffu64 && (0x9000_0000_0000_0000u64 | paddr) & 0x0fff_ffff_ffff_ffffu64
        == paddr) by (bit_vector);
}

/// The mode register with kernel privilege, interrupts off, paging on, direct
/// addressing off, and both kinds of access coherent and cached.
pub open spec fn spec_kernel_crmd(crmd: u64) -> u64 {
    ((((crmd & !0x1ffu64) | 0x10) | 0x20) | 0x80)
}

/// The mode register as the kernel starts with it. Only the bits for the
/// privilege, interrupts and address translation change.
pub fn kernel_crmd(crmd: u64) -> (r: u64)
    ensures
        r == spec_kernel_crmd(crmd),
        r & 0x3 == 0,
        r & 0x4 == 0,
        r & 0x8 == 0,
        r & 0x10 == 0x10,
        r & 0x60 == 0x20,
        r & 0x180 == 0x80,
        r & !0x1ffu64 == crmd & !0x1ffu64,
{
    let c0: u64 = crmd & !0b11u64;
    let c1: u64 = c0 & !0x4u64;
    let c2: u64 = c1 & !0x8u64;
    let c3: u64 = c2 | 0x10;
    let c4: u64 = c3 & !0x60u64;
    let c5: u64 = c4 | 0x20;
    let c6: u64 = c5 & !0x180u64;
    let c7: u64 = c6 | 0x80;
    assert(c7 == ((((crmd & !0x1ffu64) | 0x10) | 0x20) | 0x80) && c7 & 0x3 == 0 && c7 & 0x4 == 0 && c7
        & 0x8 == 0 && c7 & 0x10 == 0x10 && c7 & 0x60 == 0x20 && c7 & 0x180 == 0x80 && c7 & !0x1ffu64
        == crmd & !0x1ffu64) by (bit_vector)
        requires
            c0 == crmd & !0b11u64,
            c1 == c0 & !0x4u64,
            c2 == c1 & !0x8u64,
            c3 == c2 | 0x10,
            c4 == c3 & !0x60u64,
            c5 == c4 | 0x20,
            c6 == c5 & !0x180u64,
            c7 == c6 | 0x80,
    ;
    c7
}

/// What the translation registers are set to.
#[derive(Clone, Copy, Debug, PartialEq, Eq, Structural)]
pub struct MmuSetup {
    /// The exponent of the page size.
    pub page_size: u64,
    /// The physical address of the handler for missing translations.
    pub refill_entry: u64,
    pub kernel_root: u64,
    pub user_root: u64,
    pub crmd: u64,
}

/// The exponent of the page size of 4 KiB.
pub const PS_4K: u64 = 0x0c;

/// What the translation registers are set to, with roots for both halves.
pub fn init_mmu_with_user_root(
    refill_handler: u64,
    crmd: u64,
    root_paddr: u64,
    user_root_paddr: u64,
    phys_virt_offset: u64,
) -> (r: MmuSetup)
    ensures
        r == (MmuSetup {
            page_size: 12,
            refill_entry: spec_symbol_paddr(refill_handler, phys_virt_offset),
            kernel_root: root_paddr,
            user_root: user_root_paddr,
            crmd: spec_kernel_crmd(crmd),
        }),
{
    MmuSetup {
        page_size: PS_4K,
        refill_entry: symbol_paddr(refill_handler, phys_virt_offset),
        kernel_root: root_paddr,
        user_root: user_root_paddr,
        crmd: kernel_crmd(crmd),
    }
}

/// What the translation registers are set to; the user's half has no root yet.
pub fn init_mmu(refill_handler: u64, crmd: u64, root_paddr: u64, phys_virt_offset: u64) -> (r:
    MmuSetup)
    ensures
        r == (MmuSetup {
            page_size: 12,
            refill_entry: spec_symbol_paddr(refill_handler, phys_virt_offset),
            kernel_root: root_paddr,
            user_root: 0,
            crmd: spec_kernel_crmd(crmd),
        }),
{
    init_mmu_with_user_root(refill_handler, crmd, root_paddr, 0, phys_virt_offset)
}

} // verus!
