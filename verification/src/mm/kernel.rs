//! The kernel's and the users' address spaces.
use vstd::prelude::*;

use crate::error::{AxError, AxResult};

use super::area::{
    areas_wf, entered, lemma_rank, lemma_with_area_wf, rank, with_area, MemoryArea,
};
use super::aspace::{AddrSpace, Space};
use super::backend::Backend;
use super::flags::{reg_flag_to_map_flag, MappingFlags};
use super::frame_runs::{region_fits, PhysMemRegion};
use super::frame_table::{FrameState, Frames};
use super::paging::{align_down_4k, align_up_4k, aligned_4k, page_of, round_up_4k, PageTable};
use super::space_ops::{good_range, mapped_space};

verus! {

/// The pages around a region: where they start and how many bytes they hold.
pub open spec fn region_pages(r: PhysMemRegion) -> (usize, usize) {
    (
        page_of(r.paddr),
        (round_up_4k(r.paddr + r.size) - page_of(r.paddr)) as usize,
    )
}

pub open spec fn region_flags(r: PhysMemRegion) -> MappingFlags {
    MappingFlags {
        read: r.flags.read,
        write: r.flags.write,
        execute: r.flags.execute,
        user: false,
        device: r.flags.device,
        uncached: r.flags.uncached,
    }
}

/// Where the kernel sees the physical address `paddr`.
pub open spec fn direct_map(paddr: usize, phys_virt_offset: usize) -> usize {
    paddr.wrapping_add(phys_virt_offset)
}

/// The kernel's space after the regions from the `i`-th on were mapped into it.
pub open spec fn regions_mapped(
    sp: Space,
    frames: FrameState,
    regions: Seq<PhysMemRegion>,
    i: int,
    phys_virt_offset: usize,
) -> (AxResult<()>, Space, FrameState)
    decreases regions.len() - i,
{
    if i >= regions.len() {
        (Ok(()), sp, frames)
    } else {
        let (start, size) = region_pages(regions[i]);
        let vaddr = direct_map(start, phys_virt_offset);
        if !good_range(sp, vaddr, size) {
            (Err(AxError::InvalidInput), sp, frames)
        } else {
            let t = mapped_space(
                sp,
                MemoryArea {
                    start: vaddr,
                    end: (vaddr + size) as usize,
                    flags: region_flags(regions[i]),
                    backend: Backend::Linear { pa_va_offset: vaddr.wrapping_sub(start) },
                },
                frames,
            );
            match t.0 {
                Ok(_) => regions_mapped(t.1, t.2, regions, i + 1, phys_virt_offset),
                Err(e) => t,
            }
        }
    }
}

/// A space of the kernel without any area.
pub open spec fn empty_space(base: usize, size: usize, asid: usize, pt: PageTable) -> Space {
    Space {
        base,
        end: (base + size) as usize,
        areas: Seq::empty(),
        pt: pt@,
        write_implies_read: pt.wr(),
        limit: pt.limit(),
        asid,
    }
}

/// The kernel's address space: every region of physical memory, page by page,
/// at a fixed distance.
pub fn new_kernel_aspace(
    base: usize,
    size: usize,
    asid: usize,
    pt: PageTable,
    regions: &Vec<PhysMemRegion>,
    phys_virt_offset: usize,
    frames: &mut Frames,
) -> (r: AxResult<AddrSpace>)
    requires
        base + size <= usize::MAX - 0xfff,
        pt.wf(),
        old(frames).wf(),
        forall|i: int| 0 <= i < regions@.len() ==> region_fits(#[trigger] regions@[i]),
    ensures
        final(frames).wf(),
        ({
            let t = regions_mapped(
                empty_space(base, size, asid, pt),
                old(frames)@,
                regions@,
                0,
                phys_virt_offset,
            );
            &&& final(frames)@ == t.2
            &&& match r {
                Ok(space) => t.0 is Ok && space.wf() && space@ == t.1,
                Err(e) => t.0 == Err::<(), AxError>(e),
            }
        }),
{
    let mut space = AddrSpace::new_empty(base, size, asid, pt);
    let ghost sp0 = empty_space(base, size, asid, pt);
    let mut i: usize = 0;
    while i < regions.len()
        invariant
            i <= regions@.len(),
            space.wf(),
            frames.wf(),
            forall|k: int| 0 <= k < regions@.len() ==> region_fits(#[trigger] regions@[k]),
            regions_mapped(sp0, old(frames)@, regions@, 0, phys_virt_offset) == regions_mapped(
                space@,
                frames@,
                regions@,
                i as int,
                phys_virt_offset,
            ),
            sp0 == empty_space(base, size, asid, pt),
        decreases regions@.len() - i,
    {
        let region: PhysMemRegion = regions[i];
        assert(region_fits(regions@[i as int]));
        let start: usize = align_down_4k(region.paddr);
        let end: usize = align_up_4k(region.paddr + region.size);
        let vaddr: usize = start.wrapping_add(phys_virt_offset);
        assert(aligned_4k(end - start));
        let result: AxResult<()> = space.map_linear(
            vaddr,
            start,
            end - start,
            reg_flag_to_map_flag(region.flags),
            frames,
        );
        match result {
            Ok(()) => {},
            Err(e) => {
                return Err(e);
            },
        }
        i = i + 1;
    }
    Ok(space)
}

/// The address space of a user, and the range of the kernel's upper-level
/// entries that it takes over: none where the kernel has a table of its own.
pub fn new_user_aspace(
    base: usize,
    size: usize,
    asid: usize,
    pt: PageTable,
    kernel: &AddrSpace,
    separate_page_tables: bool,
) -> (r: AxResult<(AddrSpace, Option<(usize, usize)>)>)
    requires
        base + size <= usize::MAX - 0xfff,
        pt.wf(),
        kernel.wf(),
    ensures
        match r {
            Ok((space, shared)) => {
                &&& space.wf()
                &&& space@ == empty_space(base, size, asid, pt)
                &&& shared == if separate_page_tables {
                    None::<(usize, usize)>
                } else {
                    Some((kernel@.base, (kernel@.end - kernel@.base) as usize))
                }
                &&& separate_page_tables || !(base < kernel@.end && kernel@.base < base + size)
            },
            Err(e) => e == AxError::InvalidInput && !separate_page_tables && base < kernel@.end
                && kernel@.base < base + size,
        },
{
    let space = AddrSpace::new_empty(base, size, asid, pt);
    if separate_page_tables {
        return Ok((space, None));
    }
    match space.copy_mappings_from(kernel) {
        Ok(range) => Ok((space, Some(range))),
        Err(e) => Err(e),
    }
}

/// Areas that are there stay while regions are mapped.
proof fn lemma_regions_keep_areas(
    sp: Space,
    frames: FrameState,
    regions: Seq<PhysMemRegion>,
    i: int,
    phys_virt_offset: usize,
    a: MemoryArea,
)
    requires
        areas_wf(sp.areas),
        0 <= i <= regions.len(),
        sp.areas.contains(a),
        forall|k: int| 0 <= k < regions.len() ==> region_fits(#[trigger] regions[k]),
        regions_mapped(sp, frames, regions, i, phys_virt_offset).0 is Ok,
    ensures
        regions_mapped(sp, frames, regions, i, phys_virt_offset).1.areas.contains(a),
    decreases regions.len() - i,
{
    if i < regions.len() {
        let t = lemma_region_is_entered(sp, frames, regions, i, phys_virt_offset, a);
        lemma_regions_keep_areas(t.0, t.1, regions, i + 1, phys_virt_offset, a);
    }
}

/// What mapping one region does to the areas.
proof fn lemma_region_is_entered(
    sp: Space,
    frames: FrameState,
    regions: Seq<PhysMemRegion>,
    i: int,
    phys_virt_offset: usize,
    a: MemoryArea,
) -> (t: (Space, FrameState, MemoryArea))
    requires
        areas_wf(sp.areas),
        0 <= i < regions.len(),
        region_fits(regions[i]),
        regions_mapped(sp, frames, regions, i, phys_virt_offset).0 is Ok,
    ensures
        areas_wf(t.0.areas),
        t.0.areas.contains(t.2),
        sp.areas.contains(a) ==> t.0.areas.contains(a),
        regions_mapped(sp, frames, regions, i, phys_virt_offset) == regions_mapped(
            t.0,
            t.1,
            regions,
            i + 1,
            phys_virt_offset,
        ),
        t.2 == ({
            let (start, size) = region_pages(regions[i]);
            let vaddr = direct_map(start, phys_virt_offset);
            MemoryArea {
                start: vaddr,
                end: (vaddr + size) as usize,
                flags: region_flags(regions[i]),
                backend: Backend::Linear { pa_va_offset: vaddr.wrapping_sub(start) },
            }
        }),
        t.2.start < t.2.end,
{
    let (start, size) = region_pages(regions[i]);
    let vaddr = direct_map(start, phys_virt_offset);
    let new = MemoryArea {
        start: vaddr,
        end: (vaddr + size) as usize,
        flags: region_flags(regions[i]),
        backend: Backend::Linear { pa_va_offset: vaddr.wrapping_sub(start) },
    };
    let t = mapped_space(sp, new, frames);
    assert(good_range(sp, vaddr, size));
    assert(t.0 is Ok);
    let e = entered(sp.areas, new, sp.pt, frames, sp.stored(new.flags), sp.limit);
    assert(e.0 is Ok);
    assert(t.1.areas == with_area(sp.areas, new));
    lemma_with_area_wf(sp.areas, new);
    lemma_rank(sp.areas, new.start);
    let n = rank(sp.areas, new.start) as int;
    assert(t.1.areas[n] == new);
    if sp.areas.contains(a) {
        let k = choose|k: int| 0 <= k < sp.areas.len() && sp.areas[k] == a;
        assert(t.1.areas[if k < n {
            k
        } else {
            k + 1
        }] == a);
    }
    (t.1, t.2, new)
}

/// The kernel sees each region of memory, whole pages of it, at a fixed distance
/// and with the permissions of the region, never for the user.
pub proof fn lemma_kernel_sees_every_region(
    sp: Space,
    frames: FrameState,
    regions: Seq<PhysMemRegion>,
    i: int,
    phys_virt_offset: usize,
    k: int,
)
    requires
        areas_wf(sp.areas),
        0 <= i <= k < regions.len(),
        forall|j: int| 0 <= j < regions.len() ==> region_fits(#[trigger] regions[j]),
        regions_mapped(sp, frames, regions, i, phys_virt_offset).0 is Ok,
    ensures
        ({
            let t = regions_mapped(sp, frames, regions, i, phys_virt_offset).1;
            let r = regions[k];
            let first = (r.paddr - r.paddr % 0x1000) as usize;
            let vaddr = first.wrapping_add(phys_virt_offset);
            exists|j: int|
                0 <= j < t.areas.len() && (#[trigger] t.areas[j]).start == vaddr && t.areas[j].end
                    - t.areas[j].start >= r.paddr + r.size - first && t.areas[j].end
                    - t.areas[j].start < r.paddr + r.size - first + 0x1000 && t.areas[j].backend
                    == (Backend::Linear { pa_va_offset: vaddr.wrapping_sub(first) })
                    && t.areas[j].flags.read == r.flags.read && t.areas[j].flags.write
                    == r.flags.write && t.areas[j].flags.execute == r.flags.execute
                    && !t.areas[j].flags.user && t.areas[j].flags.device == r.flags.device
                    && t.areas[j].flags.uncached == r.flags.uncached
        }),
    decreases k - i,
{
    assert(region_fits(regions[i]));
    let any = sp.areas[0];
    let t = lemma_region_is_entered(sp, frames, regions, i, phys_virt_offset, any);
    if i == k {
        lemma_regions_keep_areas(t.0, t.1, regions, i + 1, phys_virt_offset, t.2);
        let areas = regions_mapped(sp, frames, regions, i, phys_virt_offset).1.areas;
        let j = choose|j: int| 0 <= j < areas.len() && areas[j] == t.2;
        assert(areas[j].start == t.2.start);
    } else {
        lemma_kernel_sees_every_region(t.0, t.1, regions, i + 1, phys_virt_offset, k);
    }
}

} // verus!
