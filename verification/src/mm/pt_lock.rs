//! Which part of a page table an access has to lock.
use vstd::prelude::*;

use super::paging::{PageSize, PAGE_SIZE_1G, PAGE_SIZE_2M};

verus! {

/// How many locks the subtrees share.
pub const PAGE_TABLE_LOCK_SHARDS: usize = 64;

/// The part of a page table that a lock is held on.
#[derive(Clone, Copy, Debug, PartialEq, Eq, Structural)]
pub enum PageTableScope {
    /// The whole table.
    Whole,
    /// The tables below one 2 MiB range.
    Subtree { subtree_id: usize },
}

/// What a walk down the table found: the size of the page, or how many bytes
/// the missing entry spans.
#[derive(Clone, Copy, Debug, PartialEq, Eq, Structural)]
pub enum TableProbe {
    Mapped(PageSize),
    Missing { skip: usize },
}

/// The 2 MiB range that `vaddr` lies in.
pub fn subtree_id(vaddr: usize) -> (r: usize)
    ensures
        r == vaddr / PAGE_SIZE_2M,
{
    vaddr / PAGE_SIZE_2M
}

/// The lock that stands for the 2 MiB range of `vaddr`.
pub fn subtree_shard(vaddr: usize) -> (r: usize)
    ensures
        r == (vaddr / PAGE_SIZE_2M) % PAGE_TABLE_LOCK_SHARDS,
        r < PAGE_TABLE_LOCK_SHARDS,
{
    subtree_id(vaddr) % PAGE_TABLE_LOCK_SHARDS
}

impl PageTableScope {
    pub open spec fn spec_covers(self, vaddr: usize) -> bool {
        match self {
            PageTableScope::Whole => true,
            PageTableScope::Subtree { subtree_id } => subtree_id == vaddr / PAGE_SIZE_2M,
        }
    }

    /// Whether the entries that translate `vaddr` are locked.
    pub fn covers(&self, vaddr: usize) -> (r: bool)
        ensures
            r == self.spec_covers(vaddr),
            *self is Whole ==> r,
            *self matches PageTableScope::Subtree { subtree_id } ==> r == (subtree_id == vaddr
                / 0x20_0000),
    {
        match self {
            PageTableScope::Whole => true,
            PageTableScope::Subtree { subtree_id: id } => *id == subtree_id(vaddr),
        }
    }

    /// What a reader of `vaddr` locks.
    pub fn read_for_addr(vaddr: usize) -> (r: Self)
        ensures
            r == (PageTableScope::Subtree { subtree_id: vaddr / PAGE_SIZE_2M }),
            r == (PageTableScope::Subtree { subtree_id: vaddr / 0x20_0000 }),
            r.spec_covers(vaddr),
    {
        PageTableScope::Subtree { subtree_id: subtree_id(vaddr) }
    }

    /// What a writer of `vaddr` locks. Where the walk ended above the subtree,
    /// an upper table may have to be made, so the whole table is locked.
    pub fn lock_for_addr(vaddr: usize, probe: TableProbe) -> (r: Self)
        ensures
            r == match probe {
                TableProbe::Mapped(PageSize::Size1G) => PageTableScope::Whole,
                TableProbe::Missing { skip } if skip >= PAGE_SIZE_1G => PageTableScope::Whole,
                _ => PageTableScope::Subtree { subtree_id: vaddr / PAGE_SIZE_2M },
            },
            r.spec_covers(vaddr),
    {
        let whole: bool = match probe {
            TableProbe::Mapped(size) => size == PageSize::Size1G,
            TableProbe::Missing { skip } => skip >= PAGE_SIZE_1G,
        };
        if whole {
            PageTableScope::Whole
        } else {
            PageTableScope::Subtree { subtree_id: subtree_id(vaddr) }
        }
    }
}

/// Two writers of the same small or middle page wait for each other: the
/// addresses of a 2 MiB range share a lock.
pub proof fn lemma_one_lock_per_subtree(a: usize, b: usize)
    requires
        a / PAGE_SIZE_2M == b / PAGE_SIZE_2M,
    ensures
        (a / PAGE_SIZE_2M) % PAGE_TABLE_LOCK_SHARDS == (b / PAGE_SIZE_2M) % PAGE_TABLE_LOCK_SHARDS,
        (PageTableScope::Subtree { subtree_id: a / PAGE_SIZE_2M }).spec_covers(b),
{
}

} // verus!
