//! Permission and attribute flags of a mapping.
use vstd::prelude::*;

verus! {

/// Permissions and attributes of a mapped region.
#[derive(Clone, Copy, Debug, PartialEq, Eq, Structural)]
pub struct MappingFlags {
    pub read: bool,
    pub write: bool,
    pub execute: bool,
    pub user: bool,
    pub device: bool,
    pub uncached: bool,
}

impl MappingFlags {
    /// The set without any flag.
    pub open spec fn spec_empty() -> Self {
        MappingFlags {
            read: false,
            write: false,
            execute: false,
            user: false,
            device: false,
            uncached: false,
        }
    }

    /// Whether every flag of `other` is also in `self`.
    pub open spec fn has(self, other: Self) -> bool {
        &&& other.read ==> self.read
        &&& other.write ==> self.write
        &&& other.execute ==> self.execute
        &&& other.user ==> self.user
        &&& other.device ==> self.device
        &&& other.uncached ==> self.uncached
    }

    /// The flags of `self` together with those of `other`.
    pub open spec fn joined(self, other: Self) -> Self {
        MappingFlags {
            read: self.read || other.read,
            write: self.write || other.write,
            execute: self.execute || other.execute,
            user: self.user || other.user,
            device: self.device || other.device,
            uncached: self.uncached || other.uncached,
        }
    }

    /// `self` with the write flag set to `write`.
    pub open spec fn with_write(self, write: bool) -> Self {
        MappingFlags { write, ..self }
    }

    pub fn empty() -> (r: Self)
        ensures
            r == Self::spec_empty(),
    {
        MappingFlags {
            read: false,
            write: false,
            execute: false,
            user: false,
            device: false,
            uncached: false,
        }
    }

    pub fn is_empty(&self) -> (r: bool)
        ensures
            r == (*self == Self::spec_empty()),
            r == (!self.read && !self.write && !self.execute && !self.user && !self.device
                && !self.uncached),
    {
        *self == Self::empty()
    }

    pub fn contains(&self, other: Self) -> (r: bool)
        ensures
            r == self.has(other),
            r ==> (other.read ==> self.read) && (other.write ==> self.write) && (other.execute
                ==> self.execute) && (other.user ==> self.user) && (other.device ==> self.device)
                && (other.uncached ==> self.uncached),
            !r ==> (other.read && !self.read) || (other.write && !self.write) || (other.execute
                && !self.execute) || (other.user && !self.user) || (other.device && !self.device)
                || (other.uncached && !self.uncached),
    {
        (!other.read || self.read) && (!other.write || self.write) && (!other.execute
            || self.execute) && (!other.user || self.user) && (!other.device || self.device) && (
        !other.uncached || self.uncached)
    }

    pub fn union(&self, other: Self) -> (r: Self)
        ensures
            r == self.joined(other),
            r.read == (self.read || other.read),
            r.write == (self.write || other.write),
            r.execute == (self.execute || other.execute),
            r.user == (self.user || other.user),
            r.device == (self.device || other.device),
            r.uncached == (self.uncached || other.uncached),
    {
        MappingFlags {
            read: self.read || other.read,
            write: self.write || other.write,
            execute: self.execute || other.execute,
            user: self.user || other.user,
            device: self.device || other.device,
            uncached: self.uncached || other.uncached,
        }
    }

    pub fn set_write(&self, write: bool) -> (r: Self)
        ensures
            r == self.with_write(write),
            r.write == write,
            r.read == self.read && r.execute == self.execute && r.user == self.user,
            r.device == self.device && r.uncached == self.uncached,
    {
        MappingFlags { write, ..*self }
    }
}

/// How a file that backs a mapping was opened.
#[derive(Clone, Copy, Debug, PartialEq, Eq, Structural)]
pub struct FileFlags {
    pub read: bool,
    pub write: bool,
}

/// Attributes of a physical memory region.
#[derive(Clone, Copy, Debug, PartialEq, Eq, Structural)]
pub struct MemRegionFlags {
    pub read: bool,
    pub write: bool,
    pub execute: bool,
    pub device: bool,
    pub uncached: bool,
    pub reserved: bool,
    pub free: bool,
}

/// The mapping flags of the kernel's linear map of a region with flags `f`.
pub fn reg_flag_to_map_flag(f: MemRegionFlags) -> (r: MappingFlags)
    ensures
        r == (MappingFlags {
            read: f.read,
            write: f.write,
            execute: f.execute,
            user: false,
            device: f.device,
            uncached: f.uncached,
        }),
{
    MappingFlags {
        read: f.read,
        write: f.write,
        execute: f.execute,
        user: false,
        device: f.device,
        uncached: f.uncached,
    }
}

/// The flags a page-table entry holds after `flags` were written to it. Where
/// the hardware has no write-only encoding (`write_implies_read`), a writable
/// entry is readable too.
pub open spec fn spec_effective_pte_flags(flags: MappingFlags, write_implies_read: bool) -> MappingFlags {
    if write_implies_read && flags.write {
        MappingFlags { read: true, ..flags }
    } else {
        flags
    }
}

pub fn effective_pte_flags(flags: MappingFlags, write_implies_read: bool) -> (r: MappingFlags)
    ensures
        r == spec_effective_pte_flags(flags, write_implies_read),
        r.read == (flags.read || (write_implies_read && flags.write)),
        r.write == flags.write && r.execute == flags.execute && r.user == flags.user,
        r.device == flags.device && r.uncached == flags.uncached,
{
    if write_implies_read && flags.write {
        MappingFlags { read: true, ..flags }
    } else {
        flags
    }
}

/// Writing the flags that an entry already holds changes nothing.
pub proof fn lemma_effective_flags_idempotent(flags: MappingFlags, write_implies_read: bool)
    ensures
        spec_effective_pte_flags(
            spec_effective_pte_flags(flags, write_implies_read),
            write_implies_read,
        ) == spec_effective_pte_flags(flags, write_implies_read),
{
}

} // verus!
