//! Mapping, protecting and inspecting ranges of an address space.
use vstd::prelude::*;

use crate::error::{mapping_err_to_ax_err, spec_mapping_err_to_ax_err, AxError, AxResult};

use super::area::{
    areas_wf, entered, lemma_area_wf, lemma_rank, lemma_with_area_wf, max_of, min_of, protect_areas,
    protect_part, rank, recolored, unmap_part, with_area, MemoryArea, SetProtecting,
};
use super::aspace::{AddrSpace, Space};
use super::backend::Backend;
use super::fault_rules::lacks;
use super::file_fault::map_page;
use super::file_map::{FileMapping, FileSizes};
use super::flags::{FileFlags, MappingFlags};
use super::frame_table::{frame_in_range, FrameState, Frames};
use super::paging::{
    aligned_4k, base_of, entries_disjoint, is_aligned_4k, leaf, lemma_page_in_entry, lookup, pt_wf,
    pte_at, resident, shown_frame, PageSize, Pte, PtMap, PAGE_SIZE_4K,
};
use super::protect::{
    lemma_protected_page, protect_populated, protect_populated_range, Protecting,
};
use super::reclaim::{pages_of, DeferredReclaims, Reclaims, TlbInvalidationTracker};
use super::tlb::{
    leave_behind, left_behind, list_covers, shootdown_of, tracked_list, AddrSpaceMutation,
    TlbInvalidation, TlbShootdown,
};
use super::unmap::{
    is_lazy, lemma_unmapped_keeps_buffer, lemma_unmapped_part_is_empty,
    lemma_unmapped_part_is_given_back, unmapping, Unmapping,
};

verus! {

/// What entering `area` into a space leads to.
pub open spec fn mapped_space(sp: Space, area: MemoryArea, frames: FrameState) -> (
    AxResult<()>,
    Space,
    FrameState,
) {
    let t = entered(sp.areas, area, sp.pt, frames, sp.stored(area.flags), sp.limit);
    (
        match t.0 {
            Ok(_) => Ok(()),
            Err(e) => Err(spec_mapping_err_to_ax_err(e)),
        },
        Space { areas: t.1, pt: t.2, ..sp },
        t.3,
    )
}

/// Whether a range can be mapped: it lies in the space and starts and ends at
/// page boundaries.
pub open spec fn good_range(sp: Space, start: usize, size: usize) -> bool {
    sp.has_range(start, size) && aligned_4k(start as int) && aligned_4k(size as int)
}

impl AddrSpace {
    /// Enters an area with an existing backend.
    pub fn map_with_backend(
        &mut self,
        start: usize,
        size: usize,
        flags: MappingFlags,
        backend: Backend,
        frames: &mut Frames,
    ) -> (r: AxResult<()>)
        requires
            old(self).wf(),
            old(frames).wf(),
        ensures
            final(self).wf(),
            final(frames).wf(),
            final(frames).room() >= old(frames).room(),
            (r, final(self)@, final(frames)@) == if !good_range(old(self)@, start, size) {
                (Err(AxError::InvalidInput), old(self)@, old(frames)@)
            } else {
                mapped_space(
                    old(self)@,
                    MemoryArea { start, end: (start + size) as usize, flags, backend },
                    old(frames)@,
                )
            },
    {
        proof {
            self.lemma_parts();
        }
        if !self.contains_range(start, size) {
            return Err(AxError::InvalidInput);
        }
        if !is_aligned_4k(start) || !is_aligned_4k(size) {
            return Err(AxError::InvalidInput);
        }
        let area = MemoryArea { start, end: start + size, flags, backend };
        let r = self.areas.map(area, &mut self.pt, frames);
        proof {
            self.lemma_parts();
        }
        match r {
            Ok(()) => Ok(()),
            Err(e) => Err(mapping_err_to_ax_err(e)),
        }
    }

    /// Maps a range to the physical memory from `start_paddr` on.
    pub fn map_linear(
        &mut self,
        start_vaddr: usize,
        start_paddr: usize,
        size: usize,
        flags: MappingFlags,
        frames: &mut Frames,
    ) -> (r: AxResult<()>)
        requires
            old(self).wf(),
            old(frames).wf(),
        ensures
            final(self).wf(),
            final(frames).wf(),
            (r, final(self)@, final(frames)@) == if !good_range(old(self)@, start_vaddr, size)
                || !aligned_4k(start_paddr as int) {
                (Err(AxError::InvalidInput), old(self)@, old(frames)@)
            } else {
                mapped_space(
                    old(self)@,
                    MemoryArea {
                        start: start_vaddr,
                        end: (start_vaddr + size) as usize,
                        flags,
                        backend: Backend::Linear {
                            pa_va_offset: start_vaddr.wrapping_sub(start_paddr),
                        },
                    },
                    old(frames)@,
                )
            },
    {
        if !is_aligned_4k(start_paddr) {
            return Err(AxError::InvalidInput);
        }
        let offset: usize = start_vaddr.wrapping_sub(start_paddr);
        self.map_with_backend(start_vaddr, size, flags, Backend::new_linear(offset), frames)
    }

    /// Maps anonymous memory, all of it at once or on the first access.
    pub fn map_alloc(
        &mut self,
        start: usize,
        size: usize,
        flags: MappingFlags,
        populate: bool,
        frames: &mut Frames,
    ) -> (r: AxResult<()>)
        requires
            old(self).wf(),
            old(frames).wf(),
        ensures
            final(self).wf(),
            final(frames).wf(),
            (r, final(self)@, final(frames)@) == if !good_range(old(self)@, start, size) {
                (Err(AxError::InvalidInput), old(self)@, old(frames)@)
            } else {
                mapped_space(
                    old(self)@,
                    MemoryArea {
                        start,
                        end: (start + size) as usize,
                        flags,
                        backend: Backend::Alloc { populate, grows_down: false },
                    },
                    old(frames)@,
                )
            },
    {
        self.map_with_backend(start, size, flags, Backend::new_alloc(populate), frames)
    }

    /// Maps a part of a file.
    pub fn map_file(
        &mut self,
        start: usize,
        size: usize,
        flags: MappingFlags,
        file: u64,
        file_flags: FileFlags,
        file_offset: usize,
        file_bytes: usize,
        shared: bool,
        frames: &mut Frames,
    ) -> (r: AxResult<()>)
        requires
            old(self).wf(),
            old(frames).wf(),
        ensures
            final(self).wf(),
            final(frames).wf(),
            (r, final(self)@, final(frames)@) == if !good_range(old(self)@, start, size) {
                (Err(AxError::InvalidInput), old(self)@, old(frames)@)
            } else {
                mapped_space(
                    old(self)@,
                    MemoryArea {
                        start,
                        end: (start + size) as usize,
                        flags,
                        backend: Backend::File(
                            FileMapping { start, file, file_flags, file_offset, file_bytes, shared },
                        ),
                    },
                    old(frames)@,
                )
            },
    {
        let mapping = FileMapping { start, file, file_flags, file_offset, file_bytes, shared };
        self.map_with_backend(start, size, flags, Backend::File(mapping), frames)
    }
}

/// The entries for `pages` from `start` on, where there is room for them.
pub open spec fn phys_pages_mapped(
    pt: PtMap,
    start: usize,
    pages: Seq<usize>,
    i: int,
    stored: MappingFlags,
    limit: usize,
) -> PtMap
    decreases pages.len() - i,
{
    if i >= pages.len() {
        pt
    } else {
        let at = (start + i * 0x1000) as usize;
        phys_pages_mapped(
            if lookup(pt, at) is None && pt.len() < limit {
                pt.insert(at, leaf(base_of(pages[i], PageSize::Size4K), stored))
            } else {
                pt
            },
            start,
            pages,
            i + 1,
            stored,
            limit,
        )
    }
}

impl AddrSpace {
    /// Maps given frames, which are shared with other spaces.
    pub fn map_phys_pages(
        &mut self,
        start: usize,
        size: usize,
        flags: MappingFlags,
        phys_pages: &Vec<usize>,
        frames: &mut Frames,
    ) -> (r: AxResult<()>)
        requires
            old(self).wf(),
            old(frames).wf(),
            forall|i: int| 0 <= i < phys_pages@.len() ==> frame_in_range(#[trigger] phys_pages@[i]),
        ensures
            final(self).wf(),
            final(frames).wf(),
            ({
                let m = mapped_space(
                    old(self)@,
                    MemoryArea {
                        start,
                        end: (start + size) as usize,
                        flags,
                        backend: Backend::Alloc { populate: false, grows_down: false },
                    },
                    old(frames)@,
                );
                (r, final(self)@, final(frames)@) == if !good_range(old(self)@, start, size)
                    || phys_pages@.len() != size / 0x1000 {
                    (Err(AxError::InvalidInput), old(self)@, old(frames)@)
                } else if m.0 is Err {
                    m
                } else {
                    (
                        m.0,
                        Space {
                            pt: phys_pages_mapped(
                                m.1.pt,
                                start,
                                phys_pages@,
                                0,
                                old(self)@.stored(flags),
                                old(self)@.limit,
                            ),
                            ..m.1
                        },
                        m.2,
                    )
                }
            }),
    {
        proof {
            self.lemma_parts();
        }
        if !self.contains_range(start, size) {
            return Err(AxError::InvalidInput);
        }
        if !is_aligned_4k(start) || !is_aligned_4k(size) {
            return Err(AxError::InvalidInput);
        }
        if phys_pages.len() != size / PAGE_SIZE_4K {
            return Err(AxError::InvalidInput);
        }
        let r: AxResult<()> = self.map_with_backend(
            start,
            size,
            flags,
            Backend::new_alloc(false),
            frames,
        );
        if r.is_err() {
            return r;
        }
        proof {
            self.lemma_parts();
        }
        let ghost sp = self@;
        let mut i: usize = 0;
        while i < phys_pages.len()
            invariant
                i <= phys_pages@.len(),
                phys_pages@.len() == size / 0x1000,
                start + size <= usize::MAX,
                aligned_4k(start as int),
                self.pt.wf(),
                self.wf(),
                self@ == (Space { pt: self.pt@, ..sp }),
                self.pt.wr() == sp.write_implies_read,
                self.pt.limit() == sp.limit,
                forall|k: int|
                    0 <= k < phys_pages@.len() ==> frame_in_range(#[trigger] phys_pages@[k]),
                phys_pages_mapped(sp.pt, start, phys_pages@, 0, sp.stored(flags), sp.limit)
                    == phys_pages_mapped(
                    self.pt@,
                    start,
                    phys_pages@,
                    i as int,
                    sp.stored(flags),
                    sp.limit,
                ),
            decreases phys_pages@.len() - i,
        {
            proof {
                self.lemma_parts();
            }
            let at: usize = start + i * PAGE_SIZE_4K;
            assert(aligned_4k(at as int));
            assert(frame_in_range(phys_pages@[i as int]));
            let _ = map_page(&mut self.pt, at, phys_pages[i], flags);
            proof {
                self.lemma_parts();
            }
            i = i + 1;
        }
        Ok(())
    }
}

/// Takes the pages of discardable areas in `[lo, hi)` out, from the `i`-th
/// area on.
pub open spec fn discard_areas(
    u: Unmapping,
    s: Seq<MemoryArea>,
    i: int,
    lo: usize,
    hi: usize,
    sizes: Seq<(u64, usize)>,
) -> Unmapping
    decreases s.len() - i,
{
    if i >= s.len() || !u.ok {
        u
    } else if s[i].meets(lo as int, hi as int) && s[i].backend.spec_discardable() {
        discard_areas(unmap_part(s[i], u, lo, hi, sizes), s, i + 1, lo, hi, sizes)
    } else {
        discard_areas(u, s, i + 1, lo, hi, sizes)
    }
}

impl AddrSpace {
    /// Drops the pages of anonymous memory in a range; the areas stay, and the
    /// pages come back filled with zeros.
    pub fn discard_range(&mut self, start: usize, size: usize, sizes: &FileSizes) -> (r:
        AddrSpaceMutation<()>)
        requires
            old(self).wf(),
        ensures
            final(self).wf(),
            ({
                let sp = old(self)@;
                let u = discard_areas(
                    unmapping(sp.pt, Reclaims::none(), TlbInvalidationTracker::nothing()),
                    sp.areas,
                    0,
                    start,
                    (start + size) as usize,
                    sizes@,
                );
                if size == 0 {
                    r.result == Ok::<(), AxError>(()) && final(self)@ == sp && r.shootdown is None
                } else if !good_range(sp, start, size) {
                    r.result == Err::<(), AxError>(AxError::InvalidInput) && final(self)@ == sp
                        && r.shootdown is None
                } else {
                    &&& r.result == if u.ok {
                        Ok::<(), AxError>(())
                    } else {
                        Err::<(), AxError>(AxError::BadState)
                    }
                    &&& final(self)@ == (Space { pt: u.pt, ..sp })
                    &&& shootdown_of(r.shootdown) == left_behind(sp.asid, u.tracker, u.reclaims)
                }
            }),
    {
        proof {
            self.lemma_parts();
        }
        if size == 0 {
            return AddrSpaceMutation { result: Ok(()), shootdown: None };
        }
        if !self.contains_range(start, size) || !is_aligned_4k(start) || !is_aligned_4k(size) {
            return AddrSpaceMutation { result: Err(AxError::InvalidInput), shootdown: None };
        }
        let lo: usize = start;
        let hi: usize = start + size;
        let ghost sp = self@;
        let ghost s = sp.areas;
        let ghost u0 = unmapping(sp.pt, Reclaims::none(), TlbInvalidationTracker::nothing());
        let mut reclaim: DeferredReclaims = DeferredReclaims::default();
        let mut tracker: TlbInvalidationTracker = TlbInvalidationTracker::default();
        let mut ok: bool = true;
        let mut i: usize = 0;
        while i < self.areas.len() && ok
            invariant
                i <= s.len(),
                s == self.areas@,
                s == sp.areas,
                areas_wf(s),
                lo < hi,
                aligned_4k(lo as int),
                aligned_4k(hi as int),
                self.pt.wf(),
                self.wf(),
                self@ == (Space { pt: self.pt@, ..sp }),
                reclaim@.retirement is None,
                discard_areas(u0, s, 0, lo, hi, sizes@) == discard_areas(
                    Unmapping {
                        ok,
                        pt: self.pt@,
                        reclaims: reclaim@,
                        tracker,
                        dirty: Seq::empty(),
                    },
                    s,
                    i as int,
                    lo,
                    hi,
                    sizes@,
                ),
            decreases s.len() - i,
        {
            proof {
                self.lemma_parts();
                lemma_area_wf(s, i as int);
            }
            let area: MemoryArea = self.areas.get(i).clone();
            if area.backend.is_discardable() && area.start < hi && lo < area.end {
                let from: usize = if area.start > lo {
                    area.start
                } else {
                    lo
                };
                let to: usize = if area.end < hi {
                    area.end
                } else {
                    hi
                };
                proof {
                    lemma_unmapped_keeps_buffer(
                        area.backend,
                        unmapping(self.pt@, reclaim@, tracker),
                        from,
                        (to - from) as usize,
                        sizes@,
                    );
                }
                ok = area.backend.unmap_tracked(
                    from,
                    to - from,
                    sizes,
                    &mut self.pt,
                    &mut reclaim,
                    &mut tracker,
                );
                proof {
                    self.lemma_parts();
                }
            }
            i = i + 1;
        }
        let result: AxResult<()> = if ok {
            Ok(())
        } else {
            Err(AxError::BadState)
        };
        proof {
            self.lemma_parts();
        }
        let shootdown: Option<TlbShootdown> = leave_behind(self.asid, tracker, reclaim);
        AddrSpaceMutation { result, shootdown }
    }
}

/// Whether areas without a gap cover `[at, hi)` from the `i`-th on, each of
/// which allows `access`. Areas that do not meet `[lo, hi)` are passed over.
pub open spec fn covers_from(
    s: Seq<MemoryArea>,
    i: int,
    lo: int,
    hi: int,
    at: int,
    access: MappingFlags,
) -> bool
    decreases s.len() - i,
{
    if i >= s.len() {
        false
    } else if !s[i].meets(lo, hi) {
        covers_from(s, i + 1, lo, hi, at, access)
    } else if s[i].start > at || !s[i].flags.has(access) {
        false
    } else if s[i].end >= hi {
        true
    } else {
        covers_from(s, i + 1, lo, hi, s[i].end as int, access)
    }
}

/// Whether every address of `[start, start + size)` can be accessed.
pub open spec fn accessible(sp: Space, start: usize, size: usize, access: MappingFlags) -> bool {
    start + size <= usize::MAX && covers_from(
        sp.areas,
        0,
        start as int,
        start + size,
        start as int,
        access,
    )
}

/// Where access is allowed, each address lies in an area that allows it.
pub proof fn lemma_accessible_means_covered(
    s: Seq<MemoryArea>,
    i: int,
    lo: int,
    hi: int,
    at: int,
    access: MappingFlags,
    a: int,
)
    requires
        areas_wf(s),
        0 <= i,
        lo <= at <= a < hi,
        covers_from(s, i, lo, hi, at, access),
    ensures
        exists|k: int| i <= k < s.len() && (#[trigger] s[k]).has(a) && s[k].flags.has(access),
    decreases s.len() - i,
{
    lemma_area_wf(s, i);
    if !s[i].meets(lo, hi) {
        lemma_accessible_means_covered(s, i + 1, lo, hi, at, access, a);
    } else if a < s[i].end {
        assert(s[i].has(a));
    } else {
        lemma_accessible_means_covered(s, i + 1, lo, hi, s[i].end as int, access, a);
    }
}

impl AddrSpace {
    /// Whether every address of a range can be accessed.
    pub fn can_access_range(&self, start: usize, size: usize, access_flags: MappingFlags) -> (r:
        bool)
        ensures
            r == accessible(self@, start, size, access_flags),
    {
        proof {
            self.lemma_parts();
        }
        let hi: usize = match start.checked_add(size) {
            Some(hi) => hi,
            None => {
                return false;
            },
        };
        let ghost s = self.areas@;
        let mut at: usize = start;
        let mut i: usize = 0;
        while i < self.areas.len()
            invariant
                i <= s.len(),
                s == self.areas@,
                s == self@.areas,
                hi == start + size,
                accessible(self@, start, size, access_flags) == covers_from(
                    s,
                    i as int,
                    start as int,
                    hi as int,
                    at as int,
                    access_flags,
                ),
            decreases s.len() - i,
        {
            let area: &MemoryArea = self.areas.get(i);
            if area.start < hi && start < area.end {
                if area.start > at || !area.flags.contains(access_flags) {
                    return false;
                }
                at = area.end;
                if at >= hi {
                    return true;
                }
            }
            i = i + 1;
        }
        false
    }

    /// Gives a mapped range other permissions.
    pub fn protect(&mut self, start: usize, size: usize, flags: MappingFlags) -> (r:
        AddrSpaceMutation<()>)
        requires
            old(self).wf(),
        ensures
            final(self).wf(),
            ({
                let sp = old(self)@;
                let t = protect_areas(
                    SetProtecting {
                        ok: true,
                        kept: Seq::empty(),
                        p: Protecting {
                            ok: true,
                            pt: sp.pt,
                            tracker: TlbInvalidationTracker::nothing(),
                        },
                    },
                    sp.areas,
                    0,
                    start,
                    (start + size) as usize,
                    flags,
                    sp.write_implies_read,
                );
                if size == 0 {
                    r.result == Ok::<(), AxError>(()) && final(self)@ == sp && r.shootdown is None
                } else if !good_range(sp, start, size) {
                    r.result == Err::<(), AxError>(AxError::InvalidInput) && final(self)@ == sp
                        && r.shootdown is None
                } else if !accessible(sp, start, size, MappingFlags::spec_empty()) {
                    r.result == Err::<(), AxError>(AxError::BadAddress) && final(self)@ == sp
                        && r.shootdown is None
                } else {
                    &&& r.result == if t.ok {
                        Ok::<(), AxError>(())
                    } else {
                        Err::<(), AxError>(AxError::BadState)
                    }
                    &&& final(self)@ == (Space { areas: t.kept, pt: t.p.pt, ..sp })
                    &&& shootdown_of(r.shootdown) == left_behind(
                        sp.asid,
                        t.p.tracker,
                        Reclaims::none(),
                    )
                }
            }),
    {
        proof {
            self.lemma_parts();
        }
        if size == 0 {
            return AddrSpaceMutation { result: Ok(()), shootdown: None };
        }
        if !self.contains_range(start, size) || !is_aligned_4k(start) || !is_aligned_4k(size) {
            return AddrSpaceMutation { result: Err(AxError::InvalidInput), shootdown: None };
        }
        if !self.can_access_range(start, size, MappingFlags::empty()) {
            return AddrSpaceMutation { result: Err(AxError::BadAddress), shootdown: None };
        }
        let mut tracker: TlbInvalidationTracker = TlbInvalidationTracker::default();
        let r = self.areas.protect_tracked(start, start + size, flags, &mut self.pt, &mut tracker);
        proof {
            self.lemma_parts();
        }
        let result: AxResult<()> = match r {
            Ok(()) => Ok(()),
            Err(e) => Err(mapping_err_to_ax_err(e)),
        };
        let shootdown: Option<TlbShootdown> = leave_behind(
            self.asid,
            tracker,
            DeferredReclaims::default(),
        );
        AddrSpaceMutation { result, shootdown }
    }

    /// Gives the pages of a mapped range other permissions and leaves the
    /// areas alone.
    pub fn protect_pte_only(&mut self, start: usize, size: usize, flags: MappingFlags) -> (r:
        AddrSpaceMutation<()>)
        requires
            old(self).wf(),
        ensures
            final(self).wf(),
            ({
                let sp = old(self)@;
                let p = protect_populated(
                    Protecting {
                        ok: true,
                        pt: sp.pt,
                        tracker: TlbInvalidationTracker::nothing(),
                    },
                    start as int,
                    start + size,
                    sp.stored(flags),
                );
                if size == 0 {
                    r.result == Ok::<(), AxError>(()) && final(self)@ == sp && r.shootdown is None
                } else if !good_range(sp, start, size) {
                    r.result == Err::<(), AxError>(AxError::InvalidInput) && final(self)@ == sp
                        && r.shootdown is None
                } else if !accessible(sp, start, size, MappingFlags::spec_empty()) {
                    r.result == Err::<(), AxError>(AxError::BadAddress) && final(self)@ == sp
                        && r.shootdown is None
                } else {
                    &&& r.result == if p.ok {
                        Ok::<(), AxError>(())
                    } else {
                        Err::<(), AxError>(AxError::BadState)
                    }
                    &&& final(self)@ == (Space { pt: p.pt, ..sp })
                    &&& shootdown_of(r.shootdown) == left_behind(
                        sp.asid,
                        p.tracker,
                        Reclaims::none(),
                    )
                }
            }),
    {
        proof {
            self.lemma_parts();
        }
        if size == 0 {
            return AddrSpaceMutation { result: Ok(()), shootdown: None };
        }
        if !self.contains_range(start, size) || !is_aligned_4k(start) || !is_aligned_4k(size) {
            return AddrSpaceMutation { result: Err(AxError::InvalidInput), shootdown: None };
        }
        if !self.can_access_range(start, size, MappingFlags::empty()) {
            return AddrSpaceMutation { result: Err(AxError::BadAddress), shootdown: None };
        }
        let mut tracker: TlbInvalidationTracker = TlbInvalidationTracker::default();
        let ok: bool = protect_populated_range(start, size, flags, &mut self.pt, &mut tracker);
        proof {
            self.lemma_parts();
        }
        let result: AxResult<()> = if ok {
            Ok(())
        } else {
            Err(AxError::BadState)
        };
        let shootdown: Option<TlbShootdown> = leave_behind(
            self.asid,
            tracker,
            DeferredReclaims::default(),
        );
        AddrSpaceMutation { result, shootdown }
    }

    /// Points one page at a given frame. The frame that was seen there waits for
    /// the shootdown; within a larger page it is the part that the page shows.
    pub fn remap_page(&mut self, vaddr: usize, paddr: usize, flags: MappingFlags) -> (r:
        AddrSpaceMutation<()>)
        requires
            old(self).wf(),
            frame_in_range(paddr),
        ensures
            final(self).wf(),
            ({
                let sp = old(self)@;
                let before = pte_at(sp.pt, vaddr);
                let shown = shown_frame(sp.pt, vaddr);
                let had = resident(sp.pt, vaddr);
                let changed = had && (shown != paddr || (before->0).flags != flags);
                let waits = if had && shown != paddr {
                    Reclaims::none().with_frame(shown)
                } else {
                    Reclaims::none()
                };
                if !sp.has_range(vaddr, PAGE_SIZE_4K) || !aligned_4k(vaddr as int) || !aligned_4k(
                    paddr as int,
                ) {
                    r.result == Err::<(), AxError>(AxError::InvalidInput) && final(self)@ == sp
                        && r.shootdown is None
                } else if before is None && sp.pt.len() >= sp.limit {
                    r.result == Err::<(), AxError>(AxError::BadState) && final(self)@ == sp
                        && r.shootdown is None
                } else {
                    &&& r.result == Ok::<(), AxError>(())
                    &&& final(self)@ == (Space {
                        pt: match lookup(sp.pt, vaddr) {
                            Some(b) => sp.pt.insert(
                                b,
                                Pte { frame: paddr, flags: sp.stored(flags), size: sp.pt[b].size },
                            ),
                            None => sp.pt.insert(vaddr, leaf(paddr, sp.stored(flags))),
                        },
                        ..sp
                    })
                    &&& shootdown_of(r.shootdown) == if changed {
                        Some(
                            (
                                seq![
                                    (
                                        sp.asid,
                                        TlbInvalidation::Range {
                                            start: vaddr,
                                            end: (vaddr + 0x1000) as usize,
                                            changed_pages: pages_of(0x1000),
                                        },
                                    ),
                                ],
                                waits,
                            ),
                        )
                    } else {
                        None
                    }
                }
            }),
    {
        proof {
            self.lemma_parts();
        }
        if !self.contains_range(vaddr, PAGE_SIZE_4K) {
            return AddrSpaceMutation { result: Err(AxError::InvalidInput), shootdown: None };
        }
        if !is_aligned_4k(vaddr) || !is_aligned_4k(paddr) {
            return AddrSpaceMutation { result: Err(AxError::InvalidInput), shootdown: None };
        }
        let mut reclaim: DeferredReclaims = DeferredReclaims::default();
        let mut changed: bool = false;
        proof {
            if lookup(self.pt@, vaddr) is Some {
                lemma_page_in_entry(self.pt@, vaddr);
            }
        }
        match self.pt.query(vaddr) {
            Some((old_frame, old_flags, _)) => {
                let _ = self.pt.remap(vaddr, paddr, flags);
                if old_frame != 0 {
                    changed = old_frame != paddr || old_flags != flags;
                    if old_frame != paddr {
                        reclaim.defer_frame(old_frame);
                    }
                }
            },
            None => {
                assert(base_of(paddr, PageSize::Size4K) == paddr);
                if !map_page(&mut self.pt, vaddr, paddr, flags) {
                    proof {
                        self.lemma_parts();
                    }
                    return AddrSpaceMutation { result: Err(AxError::BadState), shootdown: None };
                }
            },
        }
        proof {
            self.lemma_parts();
        }
        let shootdown: Option<TlbShootdown> = if changed || !reclaim.is_empty() {
            Some(TlbShootdown::for_range(self.asid, vaddr, PAGE_SIZE_4K, reclaim))
        } else {
            None
        };
        AddrSpaceMutation { result: Ok(()), shootdown }
    }
}

/// A discarded range: its pages of anonymous memory are translated no more, so
/// that the next access gets them anew. Every other page is as it was, also
/// those of other mappings in the range.
#[verifier::rlimit(60)]
#[verifier::spinoff_prover]
pub proof fn lemma_discarded_pages_are_gone(
    u: Unmapping,
    s: Seq<MemoryArea>,
    i: int,
    lo: usize,
    hi: usize,
    sizes: Seq<(u64, usize)>,
    q: usize,
)
    requires
        0 <= i <= s.len(),
        lo < hi,
        aligned_4k(lo as int),
        aligned_4k(hi as int),
        areas_wf(s),
        pt_wf(u.pt),
        entries_disjoint(u.pt),
        u.ok,
        discard_areas(u, s, i, lo, hi, sizes).ok,
        aligned_4k(q as int),
    ensures
        ({
            let now = discard_areas(u, s, i, lo, hi, sizes).pt;
            let gone = lo <= q < hi && exists|k: int|
                i <= k < s.len() && (#[trigger] s[k]).start <= q < s[k].end
                    && s[k].backend.bottom() is Alloc;
            &&& gone ==> lookup(now, q) is None
            &&& !gone ==> lookup(now, q) == lookup(u.pt, q) && pte_at(now, q) == pte_at(u.pt, q)
        }),
    decreases s.len() - i,
{
    if i < s.len() {
        reveal(areas_wf);
        assert(s[i].wf());
        let gone = lo <= q < hi && exists|k: int|
            i <= k < s.len() && (#[trigger] s[k]).start <= q < s[k].end && s[k].backend.bottom() is Alloc;
        if s[i].meets(lo as int, hi as int) && s[i].backend.spec_discardable() {
            let t = unmap_part(s[i], u, lo, hi, sizes);
            if !t.ok {
                assert(discard_areas(t, s, i + 1, lo, hi, sizes) == t);
            }
            let start = max_of(s[i].start, lo);
            lemma_unmapped_part_is_empty(
                s[i].backend,
                u,
                start,
                (min_of(s[i].end, hi) - start) as usize,
                sizes,
                q,
            );
            lemma_discarded_pages_are_gone(t, s, i + 1, lo, hi, sizes, q);
            if s[i].has(q as int) {
                assert forall|k: int| i + 1 <= k < s.len() implies !(#[trigger] s[k]).has(
                    q as int,
                ) by {
                    assert(s[i].end <= s[k].start);
                }
            }
        } else {
            lemma_discarded_pages_are_gone(u, s, i + 1, lo, hi, sizes, q);
        }
        if gone {
            let k = choose|k: int|
                i <= k < s.len() && (#[trigger] s[k]).start <= q < s[k].end
                    && s[k].backend.bottom() is Alloc;
            if k != i {
                assert(i + 1 <= k < s.len() && s[k].has(q as int));
            }
        }
    }
}

/// What new flags for `[lo, hi)` in the areas from the `i`-th on do to page `q` of
/// the `n`-th area.
#[verifier::rlimit(40)]
#[verifier::spinoff_prover]
proof fn lemma_protect_areas_page(
    t: SetProtecting,
    s: Seq<MemoryArea>,
    i: int,
    lo: usize,
    hi: usize,
    flags: MappingFlags,
    write_implies_read: bool,
    n: int,
    q: usize,
)
    requires
        0 <= i <= s.len(),
        lo < hi,
        aligned_4k(lo as int),
        aligned_4k(hi as int),
        aligned_4k(q as int),
        areas_wf(s),
        forall|k: int|
            0 <= k < s.len() && (#[trigger] s[k]).meets(lo as int, hi as int) ==> is_lazy(
                s[k].backend,
            ),
        pt_wf(t.p.pt),
        t.ok,
        t.p.ok,
        t.p.tracker.wf(),
        forall|x: usize|
            lo <= x < hi && aligned_4k(x as int) && #[trigger] lookup(t.p.pt, x) is Some ==> (
            pte_at(t.p.pt, x)->0).size == PageSize::Size4K,
        0 <= n < s.len(),
        s[n].start <= q < s[n].end,
        protect_areas(t, s, i, lo, hi, flags, write_implies_read).ok,
    ensures
        ({
            let now = protect_areas(t, s, i, lo, hi, flags, write_implies_read).p;
            let before = pte_at(t.p.pt, q)->0;
            let after = pte_at(now.pt, q)->0;
            let private = s[n].backend.bottom() matches Backend::File(m) && !m.shared;
            &&& now.tracker.wf()
            &&& forall|a: int| #[trigger] t.p.tracker.covers(a) ==> now.tracker.covers(a)
            &&& i <= n && lo <= q < hi && resident(t.p.pt, q) && s[n].flags != flags ==> {
                &&& pte_at(now.pt, q) is Some
                &&& after.frame == before.frame
                &&& after.flags.write == (flags.write && !private)
                &&& after.flags.execute == flags.execute
                &&& after.flags.user == flags.user
                &&& after.flags.read == (flags.read || (write_implies_read && after.flags.write))
                &&& after != before ==> now.tracker.covers(q as int)
            }
            &&& n < i || !(lo <= q < hi) || !resident(t.p.pt, q) || s[n].flags == flags ==> pte_at(
                now.pt,
                q,
            ) == pte_at(t.p.pt, q)
        }),
    decreases s.len() - i,
{
    reveal(areas_wf);
    if i < s.len() {
        assert(s[i].wf());
        assert(s[n].wf());
        if !s[i].meets(lo as int, hi as int) || s[i].flags == flags {
            lemma_protect_areas_page(
                SetProtecting { kept: t.kept.push(s[i]), ..t },
                s,
                i + 1,
                lo,
                hi,
                flags,
                write_implies_read,
                n,
                q,
            );
        } else {
            let start = max_of(s[i].start, lo);
            let size = (min_of(s[i].end, hi) - start) as usize;
            let p = protect_part(s[i], t.p, lo, hi, flags, write_implies_read);
            assert(p.ok);
            assert(is_lazy(s[i].backend));
            lemma_protected_page(s[i].backend, t.p, start, size, flags, write_implies_read, q);
            assert forall|x: usize|
                lo <= x < hi && aligned_4k(x as int) && #[trigger] lookup(p.pt, x) is Some implies (
            pte_at(p.pt, x)->0).size == PageSize::Size4K by {
                lemma_protected_page(s[i].backend, t.p, start, size, flags, write_implies_read, x);
                assert(lookup(t.p.pt, x) is Some);
            }
            if n > i {
                assert(s[i].end <= s[n].start);
            } else if n < i {
                assert(s[n].end <= s[i].start);
            }
            let next = SetProtecting {
                ok: true,
                kept: t.kept + recolored(s[i], lo, hi, flags),
                p,
            };
            lemma_protect_areas_page(
                next,
                s,
                i + 1,
                lo,
                hi,
                flags,
                write_implies_read,
                n,
                q,
            );
        }
    }
}

/// Once a range has new permissions, so has each of its pages that has a frame: it
/// keeps the frame, and if its entry changed, every CPU drops the old translation.
/// Pages outside the range, and of areas that had the permissions already, are as
/// they were.
pub proof fn lemma_protected_pages(
    sp: Space,
    start: usize,
    size: usize,
    flags: MappingFlags,
    n: int,
    q: usize,
)
    requires
        areas_wf(sp.areas),
        pt_wf(sp.pt),
        size > 0,
        start + size <= usize::MAX,
        start % 0x1000 == 0,
        size % 0x1000 == 0,
        q % 0x1000 == 0,
        forall|k: int|
            0 <= k < sp.areas.len() && (#[trigger] sp.areas[k]).meets(start as int, start + size)
                ==> is_lazy(sp.areas[k].backend),
        forall|x: usize|
            start <= x < start + size && aligned_4k(x as int) && #[trigger] lookup(sp.pt, x) is Some
                ==> (pte_at(sp.pt, x)->0).size == PageSize::Size4K,
        0 <= n < sp.areas.len(),
        sp.areas[n].start <= q < sp.areas[n].end,
        protect_areas(
            SetProtecting {
                ok: true,
                kept: Seq::empty(),
                p: Protecting {
                    ok: true,
                    pt: sp.pt,
                    tracker: TlbInvalidationTracker::nothing(),
                },
            },
            sp.areas,
            0,
            start,
            (start + size) as usize,
            flags,
            sp.write_implies_read,
        ).ok,
    ensures
        ({
            let t = protect_areas(
                SetProtecting {
                    ok: true,
                    kept: Seq::empty(),
                    p: Protecting {
                        ok: true,
                        pt: sp.pt,
                        tracker: TlbInvalidationTracker::nothing(),
                    },
                },
                sp.areas,
                0,
                start,
                (start + size) as usize,
                flags,
                sp.write_implies_read,
            );
            let before = pte_at(sp.pt, q)->0;
            let after = pte_at(t.p.pt, q)->0;
            let private = sp.areas[n].backend.bottom() matches Backend::File(m) && !m.shared;
            &&& start <= q < start + size && resident(sp.pt, q) && sp.areas[n].flags != flags ==> {
                &&& pte_at(t.p.pt, q) is Some
                &&& after.frame == before.frame
                &&& after.flags.write == (flags.write && !private)
                &&& after.flags.execute == flags.execute
                &&& after.flags.user == flags.user
                &&& after.flags.read == (flags.read || (sp.write_implies_read && after.flags.write))
                &&& after != before ==> {
                    &&& left_behind(sp.asid, t.p.tracker, Reclaims::none()) is Some
                    &&& list_covers(
                        (left_behind(sp.asid, t.p.tracker, Reclaims::none())->0).0,
                        sp.asid,
                        q as int,
                    )
                }
            }
            &&& !(start <= q < start + size) || !resident(sp.pt, q) || sp.areas[n].flags == flags
                ==> pte_at(t.p.pt, q) == pte_at(sp.pt, q)
        }),
{
    let t = SetProtecting {
        ok: true,
        kept: Seq::empty(),
        p: Protecting { ok: true, pt: sp.pt, tracker: TlbInvalidationTracker::nothing() },
    };
    let hi = (start + size) as usize;
    lemma_protect_areas_page(t, sp.areas, 0, start, hi, flags, sp.write_implies_read, n, q);
    let now = protect_areas(t, sp.areas, 0, start, hi, flags, sp.write_implies_read).p;
    if now.tracker.covers(q as int) {
        let list = tracked_list(sp.asid, now.tracker);
        assert(list[0].0 == sp.asid && list[0].1.covers(q as int));
    }
}

/// What a discarded page showed is given back once no CPU uses its translation.
/// Discarding succeeds where the pages of anonymous memory in the range are small.
#[verifier::rlimit(40)]
#[verifier::spinoff_prover]
pub proof fn lemma_discarded_pages_are_given_back(
    u: Unmapping,
    s: Seq<MemoryArea>,
    i: int,
    lo: usize,
    hi: usize,
    sizes: Seq<(u64, usize)>,
    n: int,
    q: usize,
)
    requires
        0 <= i <= s.len(),
        lo < hi,
        aligned_4k(lo as int),
        aligned_4k(hi as int),
        aligned_4k(q as int),
        areas_wf(s),
        pt_wf(u.pt),
        entries_disjoint(u.pt),
        u.ok,
        u.tracker.wf(),
        forall|x: usize|
            lo <= x < hi && aligned_4k(x as int) && #[trigger] lookup(u.pt, x) is Some ==> (pte_at(
                u.pt,
                x,
            )->0).size == PageSize::Size4K,
        0 <= n < s.len(),
        s[n].start <= q < s[n].end,
    ensures
        ({
            let now = discard_areas(u, s, i, lo, hi, sizes);
            &&& now.ok
            &&& forall|f: usize| #[trigger]
                u.reclaims.frames.contains(f) ==> now.reclaims.frames.contains(f)
            &&& forall|a: int| #[trigger] u.tracker.covers(a) ==> now.tracker.covers(a)
            &&& i <= n && lo <= q < hi && resident(u.pt, q) && s[n].backend.bottom() is Alloc ==> {
                &&& now.reclaims.frames.contains(shown_frame(u.pt, q))
                &&& now.tracker.covers(q as int)
            }
        }),
    decreases s.len() - i,
{
    reveal(areas_wf);
    if i < s.len() {
        assert(s[i].wf());
        assert(s[n].wf());
        if s[i].meets(lo as int, hi as int) && s[i].backend.spec_discardable() {
            let t = unmap_part(s[i], u, lo, hi, sizes);
            let start = max_of(s[i].start, lo);
            let size = (min_of(s[i].end, hi) - start) as usize;
            lemma_unmapped_part_is_given_back(s[i].backend, u, start, size, sizes, q);
            lemma_unmapped_part_is_empty(s[i].backend, u, start, size, sizes, q);
            assert forall|x: usize|
                lo <= x < hi && aligned_4k(x as int) && #[trigger] lookup(t.pt, x) is Some implies (
            pte_at(t.pt, x)->0).size == PageSize::Size4K by {
                lemma_unmapped_part_is_empty(s[i].backend, u, start, size, sizes, x);
                assert(lookup(u.pt, x) is Some);
            }
            if n > i {
                assert(s[i].end <= s[n].start);
            } else if n < i {
                assert(s[n].end <= s[i].start);
            }
            lemma_discarded_pages_are_given_back(t, s, i + 1, lo, hi, sizes, n, q);
            if n == i && lo <= q < hi && resident(u.pt, q) {
                assert(lookup(u.pt, q) is Some);
                assert(shown_frame(u.pt, q) == (pte_at(u.pt, q)->0).frame);
            }
        } else {
            lemma_discarded_pages_are_given_back(u, s, i + 1, lo, hi, sizes, n, q);
        }
    }
}

/// Whether one of the areas from the `i`-th on holds `a` and allows the access.
pub open spec fn allowed_at(s: Seq<MemoryArea>, i: int, a: int, access: MappingFlags) -> bool {
    exists|k: int|
        i <= k < s.len() && (#[trigger] s[k]).start <= a < s[k].end && !lacks(s[k].flags, access)
}

/// Where each address lies in an area that allows the access, the range can be
/// accessed.
pub proof fn lemma_covered_means_accessible(
    s: Seq<MemoryArea>,
    i: int,
    lo: int,
    hi: int,
    at: int,
    access: MappingFlags,
)
    requires
        areas_wf(s),
        0 <= i <= s.len(),
        lo <= at < hi,
        forall|k: int| i <= k < s.len() && (#[trigger] s[k]).meets(lo, hi) ==> at < s[k].end,
        forall|a: int| at <= a < hi ==> #[trigger] allowed_at(s, i, a, access),
    ensures
        covers_from(s, i, lo, hi, at, access),
    decreases s.len() - i,
{
    reveal(areas_wf);
    assert(allowed_at(s, i, at, access));
    let k = choose|k: int|
        i <= k < s.len() && (#[trigger] s[k]).start <= at < s[k].end && !lacks(s[k].flags, access);
    assert(s[k].wf());
    assert(s[i].wf());
    if !s[i].meets(lo, hi) {
        assert forall|a: int| at <= a < hi implies #[trigger] allowed_at(s, i + 1, a, access) by {
            assert(allowed_at(s, i, a, access));
            let j = choose|j: int|
                i <= j < s.len() && (#[trigger] s[j]).start <= a < s[j].end && !lacks(
                    s[j].flags,
                    access,
                );
            assert(j != i);
            assert(s[j].start <= a);
        }
        lemma_covered_means_accessible(s, i + 1, lo, hi, at, access);
    } else {
        assert(k == i) by {
            if k > i {
                assert(s[i].end <= s[k].start);
            }
        }
        if s[i].end < hi {
            let next = s[i].end as int;
            assert forall|a: int| next <= a < hi implies #[trigger] allowed_at(s, i + 1, a, access) by {
                assert(allowed_at(s, i, a, access));
                let j = choose|j: int|
                    i <= j < s.len() && (#[trigger] s[j]).start <= a < s[j].end && !lacks(
                        s[j].flags,
                        access,
                    );
                assert(j != i);
                assert(s[j].start <= a);
            }
            assert forall|j: int| i + 1 <= j < s.len() && (#[trigger] s[j]).meets(lo, hi) implies next
                < s[j].end by {
                assert(s[j].wf());
                assert(s[i].end <= s[j].start);
            }
            lemma_covered_means_accessible(s, i + 1, lo, hi, next, access);
        }
    }
}

/// A mapping over addresses that are mapped already, or over none, is refused, and
/// nothing changes. A mapping that was made is among the areas, and those that
/// were there stay.
pub proof fn lemma_mapping_is_entered(sp: Space, area: MemoryArea, frames: FrameState, k: int)
    requires
        areas_wf(sp.areas),
        0 <= k < sp.areas.len(),
        area.start % 0x1000 == 0,
        area.end % 0x1000 == 0,
    ensures
        ({
            let t = mapped_space(sp, area, frames);
            &&& area.start >= area.end ==> t.0 == Err::<(), AxError>(AxError::InvalidInput) && t.1
                == sp && t.2 == frames
            &&& area.start < area.end && sp.areas[k].start < area.end && area.start
                < sp.areas[k].end ==> t.0 == Err::<(), AxError>(AxError::AlreadyExists) && t.1 == sp
                && t.2 == frames
            &&& t.0 is Ok ==> {
                &&& t.1.areas.contains(area)
                &&& t.1.areas.contains(sp.areas[k])
                &&& t.1.areas.len() == sp.areas.len() + 1
                &&& areas_wf(t.1.areas)
            }
            &&& t.0 is Err ==> t.1.areas == sp.areas
        }),
{
    let t = mapped_space(sp, area, frames);
    if area.start < area.end && sp.areas[k].start < area.end && area.start < sp.areas[k].end {
        assert(sp.areas[k].meets(area.start as int, area.end as int));
    }
    if t.0 is Ok {
        lemma_with_area_wf(sp.areas, area);
        lemma_rank(sp.areas, area.start);
        let n = rank(sp.areas, area.start) as int;
        assert(t.1.areas == with_area(sp.areas, area));
        assert(t.1.areas[n] == area);
        assert(t.1.areas[if k < n {
            k
        } else {
            k + 1
        }] == sp.areas[k]);
    }
}

} // verus!
