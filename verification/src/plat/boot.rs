//! The page table that the kernel boots with.
use vstd::prelude::*;

use super::mp_common::{DMW_PHYS_MASK, L1_BLOCK_SIZE};

verus! {

/// Where the kernel sees physical memory.
pub const PHYS_VIRT_OFFSET: u64 = 0xffff_ffff_0000_0000;

/// The size of the memory that one entry of a lower table spans.
pub const L2_BLOCK_SIZE: u64 = 0x20_0000;

pub const TABLE_ENTRIES: usize = 512;

pub const BOOT_LOW_L1_INDEX: usize = 0;

pub const BOOT_DEVICE_L1_INDEX: usize = 1;

pub const BOOT_HIGH_PGD_INDEX: usize = 0x1ff;

pub const BOOT_HIGH_LOW_DIR2_INDEX: usize = 0x1fc;

pub const BOOT_HIGH_DEVICE_DIR2_INDEX: usize = 0x1fd;

pub const BOOT_HIGH_DIR2_INDEX: usize = 0x1fe;

/// The block of physical memory that holds the kernel.
pub const BOOT_KERNEL_PADDR_L1_INDEX: u64 = 2;

/// An entry of a boot table.
#[derive(Clone, Copy, Debug, PartialEq, Eq, Structural)]
pub enum BootEntry {
    /// The next table.
    Table { paddr: u64 },
    /// A page that can be read and written, and executed or used for devices.
    Page { paddr: u64, execute: bool, device: bool },
}

/// Where the boot tables are.
#[derive(Clone, Copy, Debug, PartialEq, Eq, Structural)]
pub struct BootTableAddrs {
    pub l1: u64,
    pub l2_low: u64,
    pub l2_device: u64,
    pub l2_kernel: u64,
    pub invalid: u64,
}

/// What the boot tables hold.
pub struct BootTables {
    pub l0: Vec<BootEntry>,
    pub l1: Vec<BootEntry>,
    pub l2_low: Vec<BootEntry>,
    pub l2_device: Vec<BootEntry>,
    pub l2_kernel: Vec<BootEntry>,
    pub invalid: Vec<BootEntry>,
}

pub open spec fn l0_entry(a: BootTableAddrs, i: int) -> BootEntry {
    BootEntry::Table {
        paddr: if i == 0 || i == BOOT_HIGH_PGD_INDEX {
            a.l1
        } else {
            a.invalid
        },
    }
}

/// The lower 2 GiB appear at their own addresses and where the kernel sees
/// physical memory, the kernel's own block only there.
pub open spec fn l1_entry(a: BootTableAddrs, i: int) -> BootEntry {
    BootEntry::Table {
        paddr: if i == BOOT_LOW_L1_INDEX || i == BOOT_HIGH_LOW_DIR2_INDEX {
            a.l2_low
        } else if i == BOOT_DEVICE_L1_INDEX || i == BOOT_HIGH_DEVICE_DIR2_INDEX {
            a.l2_device
        } else if i == BOOT_HIGH_DIR2_INDEX {
            a.l2_kernel
        } else {
            a.invalid
        },
    }
}

/// The `i`-th page of the `block`-th 1 GiB block.
pub open spec fn l2_entry(block: int, i: int) -> BootEntry {
    BootEntry::Page {
        paddr: (block * L1_BLOCK_SIZE + i * L2_BLOCK_SIZE) as u64,
        execute: block == BOOT_KERNEL_PADDR_L1_INDEX,
        device: block != BOOT_KERNEL_PADDR_L1_INDEX,
    }
}

impl BootTables {
    /// Unused entries lead to a table that leads to itself, so that a walk
    /// never touches physical address zero.
    pub open spec fn are_for(&self, a: BootTableAddrs) -> bool {
        &&& self.l0@ == Seq::new(TABLE_ENTRIES as nat, |i: int| l0_entry(a, i))
        &&& self.l1@ == Seq::new(TABLE_ENTRIES as nat, |i: int| l1_entry(a, i))
        &&& self.l2_low@ == Seq::new(TABLE_ENTRIES as nat, |i: int| l2_entry(0, i))
        &&& self.l2_device@ == Seq::new(TABLE_ENTRIES as nat, |i: int| l2_entry(1, i))
        &&& self.l2_kernel@ == Seq::new(TABLE_ENTRIES as nat, |i: int| l2_entry(2, i))
        &&& self.invalid@ == Seq::new(
            TABLE_ENTRIES as nat,
            |i: int| BootEntry::Table { paddr: a.invalid },
        )
    }
}

fn table_of(paddr: u64) -> (r: Vec<BootEntry>)
    ensures
        r@ == Seq::new(TABLE_ENTRIES as nat, |i: int| BootEntry::Table { paddr }),
{
    let mut r: Vec<BootEntry> = Vec::new();
    while r.len() < TABLE_ENTRIES
        invariant
            r@.len() <= TABLE_ENTRIES,
            forall|i: int| 0 <= i < r@.len() ==> r@[i] == (BootEntry::Table { paddr }),
        decreases TABLE_ENTRIES - r@.len(),
    {
        r.push(BootEntry::Table { paddr });
    }
    assert(r@ =~= Seq::new(TABLE_ENTRIES as nat, |i: int| BootEntry::Table { paddr }));
    r
}

fn block_table(block: u64) -> (r: Vec<BootEntry>)
    requires
        block <= 2,
    ensures
        r@ == Seq::new(TABLE_ENTRIES as nat, |i: int| l2_entry(block as int, i)),
{
    let mut r: Vec<BootEntry> = Vec::new();
    let mut i: u64 = 0;
    let kernel: bool = block == BOOT_KERNEL_PADDR_L1_INDEX;
    while i < 512
        invariant
            i <= 512,
            r@.len() == i,
            block <= 2,
            kernel == (block == BOOT_KERNEL_PADDR_L1_INDEX),
            forall|k: int| 0 <= k < i ==> r@[k] == l2_entry(block as int, k),
        decreases 512 - i,
    {
        let paddr: u64 = block * L1_BLOCK_SIZE + i * L2_BLOCK_SIZE;
        r.push(BootEntry::Page { paddr, execute: kernel, device: !kernel });
        i = i + 1;
    }
    assert(r@ =~= Seq::new(TABLE_ENTRIES as nat, |k: int| l2_entry(block as int, k)));
    r
}

/// What the boot tables are filled with.
pub fn init_boot_page_table(a: &BootTableAddrs) -> (r: BootTables)
    ensures
        r.are_for(*a),
{
    let invalid: Vec<BootEntry> = table_of(a.invalid);
    let mut l0: Vec<BootEntry> = table_of(a.invalid);
    l0.set(0, BootEntry::Table { paddr: a.l1 });
    l0.set(BOOT_HIGH_PGD_INDEX, BootEntry::Table { paddr: a.l1 });
    let mut l1: Vec<BootEntry> = table_of(a.invalid);
    l1.set(BOOT_LOW_L1_INDEX, BootEntry::Table { paddr: a.l2_low });
    l1.set(BOOT_DEVICE_L1_INDEX, BootEntry::Table { paddr: a.l2_device });
    l1.set(BOOT_HIGH_LOW_DIR2_INDEX, BootEntry::Table { paddr: a.l2_low });
    l1.set(BOOT_HIGH_DEVICE_DIR2_INDEX, BootEntry::Table { paddr: a.l2_device });
    l1.set(BOOT_HIGH_DIR2_INDEX, BootEntry::Table { paddr: a.l2_kernel });
    assert(l0@ =~= Seq::new(TABLE_ENTRIES as nat, |i: int| l0_entry(*a, i)));
    assert(l1@ =~= Seq::new(TABLE_ENTRIES as nat, |i: int| l1_entry(*a, i)));
    BootTables {
        l0,
        l1,
        l2_low: block_table(0),
        l2_device: block_table(1),
        l2_kernel: block_table(BOOT_KERNEL_PADDR_L1_INDEX),
        invalid,
    }
}

/// The entry of the table at `paddr` for an index.
pub open spec fn entry_in(t: BootTables, a: BootTableAddrs, paddr: u64, i: int) -> BootEntry {
    if paddr == a.l1 {
        t.l1@[i]
    } else if paddr == a.l2_low {
        t.l2_low@[i]
    } else if paddr == a.l2_device {
        t.l2_device@[i]
    } else if paddr == a.l2_kernel {
        t.l2_kernel@[i]
    } else {
        t.invalid@[i]
    }
}

/// What a walk of the boot tables translates `v` to.
pub open spec fn boot_translation(t: BootTables, a: BootTableAddrs, v: u64) -> Option<int> {
    match t.l0@[(v / 0x80_0000_0000) as int % 512] {
        BootEntry::Table { paddr } => match entry_in(t, a, paddr, (v / 0x4000_0000) as int % 512) {
            BootEntry::Table { paddr } => match entry_in(
                t,
                a,
                paddr,
                (v / 0x20_0000) as int % 512,
            ) {
                BootEntry::Page { paddr, .. } => Some(paddr + v % 0x20_0000),
                BootEntry::Table { .. } => None,
            },
            BootEntry::Page { .. } => None,
        },
        BootEntry::Page { .. } => None,
    }
}

/// The boot tables are all in different places.
pub open spec fn distinct_tables(a: BootTableAddrs) -> bool {
    &&& a.l1 != a.l2_low
    &&& a.l1 != a.l2_device
    &&& a.l1 != a.l2_kernel
    &&& a.l1 != a.invalid
    &&& a.l2_low != a.l2_device
    &&& a.l2_low != a.l2_kernel
    &&& a.l2_low != a.invalid
    &&& a.l2_device != a.l2_kernel
    &&& a.l2_device != a.invalid
    &&& a.l2_kernel != a.invalid
}

/// The first 3 GiB of physical memory are seen where the kernel looks for
/// them.
#[verifier::rlimit(60)]
#[verifier::spinoff_prover]
pub proof fn lemma_boot_maps_physical_memory(t: BootTables, a: BootTableAddrs, p: u64)
    requires
        t.are_for(a),
        distinct_tables(a),
        p < 0xc000_0000,
    ensures
        boot_translation(t, a, (PHYS_VIRT_OFFSET + p) as u64) == Some(p as int),
{
    let v = (PHYS_VIRT_OFFSET + p) as u64;
    assert((v / 0x80_0000_0000) as int % 512 == 0x1ff);
    assert((v / 0x4000_0000) as int % 512 == 0x1fc + p / 0x4000_0000);
    assert((v / 0x20_0000) as int % 512 == (p / 0x20_0000) as int % 512);
    assert(v % 0x20_0000 == p % 0x20_0000);
    assert(p == (p / 0x4000_0000) * 0x4000_0000 + ((p / 0x20_0000) as int % 512) * 0x20_0000 + p
        % 0x20_0000);
}

/// The first 2 GiB of physical memory are seen at their own addresses too.
pub proof fn lemma_boot_maps_low_memory(t: BootTables, a: BootTableAddrs, p: u64)
    requires
        t.are_for(a),
        distinct_tables(a),
        p < 0x8000_0000,
    ensures
        boot_translation(t, a, p) == Some(p as int),
{
    assert(p == (p / 0x4000_0000) * 0x4000_0000 + ((p / 0x20_0000) as int % 512) * 0x20_0000 + p
        % 0x20_0000);
}

/// The third 1 GiB block is not seen at its own addresses.
pub proof fn lemma_boot_leaves_the_rest_out(t: BootTables, a: BootTableAddrs, v: u64)
    requires
        t.are_for(a),
        distinct_tables(a),
        0x8000_0000 <= v < 0x7f_0000_0000,
    ensures
        boot_translation(t, a, v) is None,
{
}

/// The physical address of a boot table, whose symbol may be seen where it is
/// linked or through a window.
pub fn boot_paddr(vaddr: u64) -> (r: u64)
    ensures
        r == if vaddr >= PHYS_VIRT_OFFSET {
            (vaddr - PHYS_VIRT_OFFSET) as u64
        } else {
            vaddr & DMW_PHYS_MASK
        },
{
    if vaddr >= PHYS_VIRT_OFFSET {
        vaddr - PHYS_VIRT_OFFSET
    } else {
        vaddr & DMW_PHYS_MASK
    }
}

/// Only the pages of the kernel's own block can be executed; the others are those
/// of devices.
pub proof fn lemma_boot_page_kinds(t: BootTables, a: BootTableAddrs, i: int)
    requires
        t.are_for(a),
        0 <= i < 512,
    ensures
        t.l2_kernel@[i] == (BootEntry::Page {
            paddr: (0x8000_0000 + i * 0x20_0000) as u64,
            execute: true,
            device: false,
        }),
        t.l2_low@[i] == (BootEntry::Page {
            paddr: (i * 0x20_0000) as u64,
            execute: false,
            device: true,
        }),
        t.l2_device@[i] == (BootEntry::Page {
            paddr: (0x4000_0000 + i * 0x20_0000) as u64,
            execute: false,
            device: true,
        }),
{
}

} // verus!
