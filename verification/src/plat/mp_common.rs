//! The windows onto physical memory.
use vstd::prelude::*;

verus! {

/// The bits of an address in a window that name physical memory.
pub const DMW_PHYS_MASK: u64 = 0x0fff_ffff_ffff_ffff;

pub const DMW_UNCACHED_BASE: u64 = 0x8000_0000_0000_0000;

pub const DMW_CACHED_BASE: u64 = 0x9000_0000_0000_0000;

/// The size of the memory that a window shows.
pub const DMW_SIZE: u64 = 0x1000_0000_0000_0000;

/// The physical address of what firmware calls `address`, which may be
/// physical or lie in a window.
pub open spec fn spec_firmware_to_phys(address: u64) -> Option<u64> {
    if address < DMW_SIZE {
        Some(address)
    } else if DMW_UNCACHED_BASE <= address < DMW_UNCACHED_BASE + DMW_SIZE {
        Some((address - DMW_UNCACHED_BASE) as u64)
    } else if DMW_CACHED_BASE <= address < DMW_CACHED_BASE + DMW_SIZE {
        Some((address - DMW_CACHED_BASE) as u64)
    } else {
        None
    }
}

pub fn firmware_to_phys(address: u64) -> (r: Option<u64>)
    ensures
        r == spec_firmware_to_phys(address),
{
    let segment: u64 = address & !DMW_PHYS_MASK;
    assert(segment == address - (address & 0x0fff_ffff_ffff_ffffu64) && (address
        & 0x0fff_ffff_ffff_ffffu64) == address % 0x1000_0000_0000_0000u64 && segment
        % 0x1000_0000_0000_0000u64 == 0) by (bit_vector)
        requires
            segment == address & !0x0fff_ffff_ffff_ffffu64,
    ;
    if segment == 0 || segment == DMW_UNCACHED_BASE || segment == DMW_CACHED_BASE {
        Some(address & DMW_PHYS_MASK)
    } else {
        None
    }
}

/// Where a window that begins at `base` shows `paddr`.
pub open spec fn in_window(paddr: u64, base: u64) -> Option<u64> {
    if paddr < DMW_SIZE {
        Some((base + paddr) as u64)
    } else {
        None
    }
}

proof fn lemma_window(paddr: u64)
    ensures
        (paddr & !DMW_PHYS_MASK == 0) == (paddr < DMW_SIZE),
        paddr < DMW_SIZE ==> paddr | DMW_UNCACHED_BASE == DMW_UNCACHED_BASE + paddr,
        paddr < DMW_SIZE ==> paddr | DMW_CACHED_BASE == DMW_CACHED_BASE + paddr,
{
    assert((paddr & !0x0fff_ffff_ffff_ffffu64 == 0) == (paddr < 0x1000_0000_0000_0000u64))
        by (bit_vector);
    assert(paddr < 0x1000_0000_0000_0000u64 ==> (paddr | 0x8000_0000_0000_0000u64)
        == 0x8000_0000_0000_0000u64 + paddr && (paddr | 0x9000_0000_0000_0000u64)
        == 0x9000_0000_0000_0000u64 + paddr) by (bit_vector);
}

pub fn phys_to_uncached_dmw(paddr: u64) -> (r: Option<u64>)
    ensures
        r == in_window(paddr, DMW_UNCACHED_BASE),
{
    proof {
        lemma_window(paddr);
    }
    if paddr & !DMW_PHYS_MASK == 0 {
        Some(paddr | DMW_UNCACHED_BASE)
    } else {
        None
    }
}

pub fn phys_to_cached_dmw(paddr: u64) -> (r: Option<u64>)
    ensures
        r == in_window(paddr, DMW_CACHED_BASE),
{
    proof {
        lemma_window(paddr);
    }
    if paddr & !DMW_PHYS_MASK == 0 {
        Some(paddr | DMW_CACHED_BASE)
    } else {
        None
    }
}

/// Where the cached window shows what the kernel sees at `vaddr`.
pub fn kernel_virt_to_cached_dmw(vaddr: u64, phys_virt_offset: u64) -> (r: Option<u64>)
    ensures
        r == if vaddr >= phys_virt_offset {
            in_window((vaddr - phys_virt_offset) as u64, DMW_CACHED_BASE)
        } else {
            None
        },
{
    match vaddr.checked_sub(phys_virt_offset) {
        Some(paddr) => phys_to_cached_dmw(paddr),
        None => None,
    }
}

/// Whether a stack that ends at `paddr` ends in the given memory.
pub open spec fn spec_valid_stack_top(paddr: u64, ram_base: u64, ram_size: u64) -> bool {
    ram_base + ram_size <= u64::MAX && ram_base < paddr <= ram_base + ram_size
}

pub fn valid_stack_top(paddr: u64, ram_base: u64, ram_size: u64) -> (r: bool)
    ensures
        r == spec_valid_stack_top(paddr, ram_base, ram_size),
{
    match ram_base.checked_add(ram_size) {
        Some(ram_end) => paddr > ram_base && paddr <= ram_end,
        None => false,
    }
}

/// What a window shows of physical memory is found again from there.
pub proof fn lemma_windows_lead_back(paddr: u64)
    requires
        paddr < DMW_SIZE,
    ensures
        in_window(paddr, DMW_CACHED_BASE) is Some,
        in_window(paddr, DMW_UNCACHED_BASE) is Some,
        spec_firmware_to_phys(in_window(paddr, DMW_CACHED_BASE)->0) == Some(paddr),
        spec_firmware_to_phys(in_window(paddr, DMW_UNCACHED_BASE)->0) == Some(paddr),
        spec_firmware_to_phys(paddr) == Some(paddr),
{
}

/// The size of the memory that one entry of a middle table spans.
pub const L1_BLOCK_SIZE: u64 = 0x4000_0000;

/// Which 1 GiB block a physical address lies in.
pub fn l1_block_index(paddr: u64) -> (r: u64)
    ensures
        r == paddr / L1_BLOCK_SIZE,
{
    paddr / L1_BLOCK_SIZE
}

} // verus!
