//! Address-space identifiers and translation fences on RISC-V.
use vstd::prelude::*;

verus! {

/// The bits of an identifier in `satp`, before they are shifted into place.
pub const SATP_ASID_MASK: u64 = 0xffff;

/// A fence that drops translations.
#[derive(Clone, Copy, Debug, PartialEq, Eq, Structural)]
pub enum Fence {
    /// All of them.
    All,
    /// Those of one address, in the given space.
    Address { asid: u64, vaddr: u64 },
}

/// What is known of the platform's identifiers and fences.
pub struct AsidPolicy {
    mask: Option<u64>,
    global_sfence: bool,
    kernel_root: u64,
    installed: bool,
}

impl AsidPolicy {
    /// The mask of the identifiers' bits, once it was found out.
    pub closed spec fn mask(&self) -> Option<u64> {
        self.mask
    }

    /// Whether only fences on everything are to be trusted.
    pub closed spec fn global(&self) -> bool {
        self.global_sfence
    }

    /// The kernel's page table, zero before it was installed.
    pub closed spec fn root(&self) -> u64 {
        self.kernel_root
    }

    /// Whether a page table of the kernel was ever installed.
    pub closed spec fn installed(&self) -> bool {
        self.installed
    }

    /// Identifiers have sixteen bits at most, which are found out when the first
    /// page table of the kernel is installed.
    #[verifier::type_invariant]
    closed spec fn mask_fits(self) -> bool {
        self.mask matches Some(m) ==> m <= SATP_ASID_MASK && self.installed
    }

    pub open spec fn spec_mask(&self) -> u64 {
        match self.mask() {
            Some(m) => m,
            None => 0,
        }
    }

    pub fn new() -> (r: Self)
        ensures
            r.mask() is None,
            !r.global(),
            r.root() == 0,
            !r.installed(),
    {
        AsidPolicy { mask: None, global_sfence: false, kernel_root: 0, installed: false }
    }

    /// The bits that identifiers have; zero if there are none or it is not
    /// known yet. There are sixteen at most, in every state.
    pub fn hardware_asid_mask(&self) -> (r: u64)
        ensures
            r == self.spec_mask(),
            r <= SATP_ASID_MASK,
            !self.installed() ==> r == 0,
    {
        proof {
            use_type_invariant(self);
        }
        match self.mask {
            Some(m) => m,
            None => 0,
        }
    }

    /// Whether there are identifiers.
    pub fn has_hardware_asids(&self) -> (r: bool)
        ensures
            r == (self.spec_mask() != 0),
    {
        self.hardware_asid_mask() != 0
    }

    pub fn set_global_sfence_required(&mut self, required: bool)
        ensures
            final(self).global() == required,
            final(self).mask() == old(self).mask(),
            final(self).root() == old(self).root(),
            final(self).installed() == old(self).installed(),
    {
        proof {
            use_type_invariant(&*self);
        }
        self.global_sfence = required;
    }

    pub fn global_sfence_required(&self) -> (r: bool)
        ensures
            r == self.global(),
    {
        self.global_sfence
    }

    /// The identifier that the register is given.
    pub fn hardware_asid(&self, asid: u64) -> (r: u64)
        ensures
            r == asid & self.spec_mask(),
            r <= SATP_ASID_MASK,
    {
        let m: u64 = self.hardware_asid_mask();
        assert(m <= 0xffff ==> asid & m <= 0xffff) by (bit_vector);
        asid & m
    }

    /// The value to write to `satp` to find the identifiers' bits.
    pub fn asid_probe(satp: u64) -> (r: u64)
        ensures
            r == satp | (SATP_ASID_MASK << 44),
            (r >> 44) & SATP_ASID_MASK == SATP_ASID_MASK,
    {
        assert(((satp | (0xffffu64 << 44)) >> 44) & 0xffffu64 == 0xffffu64) by (bit_vector);
        satp | (SATP_ASID_MASK << 44)
    }

    /// Takes in what was read back after the probe, which follows the first
    /// installation of a page table of the kernel.
    pub fn detect_hardware_asid_mask(&mut self, probed: u64) -> (r: u64)
        requires
            old(self).installed(),
        ensures
            r == satp_asid(probed),
            final(self).mask() == Some(r),
            final(self).global() == old(self).global(),
            final(self).root() == old(self).root(),
            final(self).installed(),
    {
        let m: u64 = current_asid(probed);
        self.mask = Some(m);
        m
    }

    /// Takes in that the kernel's page table was installed; true if the
    /// identifiers' bits have to be found out.
    pub fn write_kernel_page_table(&mut self, root_paddr: u64) -> (r: bool)
        ensures
            final(self).root() == root_paddr,
            final(self).mask() == old(self).mask(),
            final(self).global() == old(self).global(),
            final(self).installed(),
            r == (old(self).mask() is None),
    {
        proof {
            use_type_invariant(&*self);
        }
        self.installed = true;
        self.kernel_root = root_paddr;
        self.mask.is_none()
    }

    /// The kernel's page table; `current` is the one in the register.
    pub fn read_kernel_page_table(&self, current: u64) -> (r: u64)
        ensures
            r == if self.root() == 0 {
                current
            } else {
                self.root()
            },
    {
        if self.kernel_root == 0 {
            current
        } else {
            self.kernel_root
        }
    }

    /// The fence for one address in all spaces, or for everything.
    pub fn flush_tlb(&self, vaddr: Option<u64>) -> (r: Fence)
        ensures
            r == match vaddr {
                Some(v) if !self.global() => Fence::Address { asid: 0, vaddr: v },
                _ => Fence::All,
            },
    {
        match vaddr {
            Some(v) => {
                if self.global_sfence {
                    Fence::All
                } else {
                    Fence::Address { asid: 0, vaddr: v }
                }
            },
            None => Fence::All,
        }
    }

    /// The fence for one space.
    pub fn flush_tlb_asid(&self, asid: u64) -> (r: Fence)
        ensures
            r == if self.global() || self.spec_mask() == 0 {
                Fence::All
            } else {
                Fence::Address { asid: asid & self.spec_mask(), vaddr: 0 }
            },
    {
        if self.global_sfence_required() || !self.has_hardware_asids() {
            self.flush_tlb(None)
        } else {
            Fence::Address { asid: self.hardware_asid(asid), vaddr: 0 }
        }
    }

    /// The fence for one address in one space.
    pub fn flush_tlb_asid_vaddr(&self, asid: u64, vaddr: u64) -> (r: Fence)
        ensures
            r == if self.global() || self.spec_mask() == 0 {
                Fence::All
            } else {
                Fence::Address { asid: asid & self.spec_mask(), vaddr }
            },
    {
        if self.global_sfence_required() || !self.has_hardware_asids() {
            self.flush_tlb(None)
        } else {
            Fence::Address { asid: self.hardware_asid(asid), vaddr }
        }
    }

    /// The fence that a switch of page tables needs: none where translations
    /// carry identifiers.
    pub fn flush_tlb_after_satp_write(&self) -> (r: Option<Fence>)
        ensures
            r == if self.spec_mask() == 0 {
                Some(Fence::All)
            } else {
                None
            },
    {
        if !self.has_hardware_asids() {
            Some(self.flush_tlb(None))
        } else {
            None
        }
    }
}

/// The identifier in a value of `satp`.
pub open spec fn satp_asid(satp: u64) -> u64 {
    (satp >> 44) & SATP_ASID_MASK
}

/// The identifier in a value of `satp`.
pub fn current_asid(satp: u64) -> (r: u64)
    ensures
        r == satp_asid(satp),
        r <= SATP_ASID_MASK,
{
    assert((satp >> 44) & 0xffffu64 <= 0xffffu64) by (bit_vector);
    (satp >> 44) & SATP_ASID_MASK
}

/// The physical address of the page table in a value of `satp`, which holds its
/// page number in the low 44 bits.
pub fn satp_root(satp: u64) -> (r: u64)
    ensures
        r == (satp & 0xfff_ffff_ffff) << 12,
{
    (satp & 0xfff_ffff_ffff) << 12
}

} // verus!
