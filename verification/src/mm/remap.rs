//! Moving and resizing a mapping.
use vstd::prelude::*;

use crate::error::{AxError, AxResult};

use super::area::{
    any_meets, area_index, areas_wf, carved, gap, lemma_area_index, lemma_area_wf, lemma_carved, lemma_found,
    lemma_gap_found_is_free, lemma_rank, lemma_unmap_areas_within, lemma_with_area_wf, rank, trimmed, with_area, MemoryArea,
    SetUnmapping,
};
use super::aspace::{
    lemma_unmapped_areas_wf, lemma_unmapped_range_is_gone, unmapped_space, AddrSpace, Space,
};
use super::backend::Backend;
use super::file_fault::map_page;
use super::file_map::FileSizes;
use super::flags::MappingFlags;
use super::frame_table::{FrameState, Frames};
use super::paging::{
    aligned_4k, base_of, entries_disjoint, is_aligned_4k, leaf, lemma_drop_entry,
    lemma_entry_frame, lemma_entry_in_free_range, lookup, pt_wf, pte_at, range_free, resident,
    shown_frame, PageSize, PageTable, PtMap, PAGE_SIZE_4K,
};
use super::populate::{lemma_mapping_stays_in_its_range, mapped};
use super::reclaim::{lemma_record_covers, DeferredReclaims, Reclaims, TlbInvalidationTracker};
use super::tlb::{
    leave_behind, left_behind, lemma_merge_all_covers, list_covers, merge_all, shootdown_of, tracked_list,
    AddrSpaceMutation, TlbInvalidation, TlbShootdown,
};
use super::unmap::{
    is_lazy, lemma_unmapped_keeps_buffer, lemma_unmapped_part_is_empty,
    lemma_unmapped_part_is_given_back, takeable, unmapped, unmapping,
};

verus! {

/// The mapping may be moved if it cannot grow where it is.
pub const MREMAP_MAYMOVE: usize = 1;

/// The mapping is moved to a given address.
pub const MREMAP_FIXED: usize = 2;

/// What has happened while pages are taken out to be put in elsewhere.
pub ghost struct Lifting {
    pub ok: bool,
    pub pt: PtMap,
    pub tracker: TlbInvalidationTracker,
    /// Distance from the start and frame of each page.
    pub moved: Seq<(usize, usize)>,
}

/// The start: no page was taken out of `pt`.
pub open spec fn nothing_lifted(pt: PtMap) -> Lifting {
    Lifting { ok: true, pt, tracker: TlbInvalidationTracker::nothing(), moved: Seq::empty() }
}

/// Takes the pages of `[page, end)` out. A large page ends it.
pub open spec fn lift_pages(l: Lifting, page: int, end: int, start: int) -> Lifting
    decreases (if page < end {
            end - page
        } else {
            0
        }),
{
    if page >= end || !l.ok {
        l
    } else {
        let n = match pte_at(l.pt, page as usize) {
            None => l,
            Some(e) => Lifting {
                ok: e.size == PageSize::Size4K,
                pt: l.pt.remove(lookup(l.pt, page as usize)->0),
                tracker: if e.frame != 0 {
                    l.tracker.recorded(page as usize, e.size.spec_bytes())
                } else {
                    l.tracker
                },
                moved: if e.frame != 0 && e.size == PageSize::Size4K {
                    l.moved.push(((page - start) as usize, e.frame))
                } else {
                    l.moved
                },
            },
        };
        lift_pages(n, page + 0x1000, end, start)
    }
}

/// Puts pages in at their distance from `target`. The first page for which
/// there is no room ends it.
pub open spec fn place_pages(
    pt: PtMap,
    moved: Seq<(usize, usize)>,
    i: int,
    target: usize,
    stored: MappingFlags,
    limit: usize,
) -> (bool, PtMap)
    decreases moved.len() - i,
{
    if i >= moved.len() {
        (true, pt)
    } else {
        let at = (target + moved[i].0) as usize;
        if lookup(pt, at) is None && pt.len() < limit {
            place_pages(
                pt.insert(at, leaf(base_of(moved[i].1, PageSize::Size4K), stored)),
                moved,
                i + 1,
                target,
                stored,
                limit,
            )
        } else {
            (false, pt)
        }
    }
}

/// What moving or resizing leads to, apart from the shootdown of what was in
/// the way.
pub ghost struct Remapped {
    pub result: AxResult<usize>,
    pub space: Space,
    pub frames: FrameState,
    pub tracker: TlbInvalidationTracker,
    pub reclaims: Reclaims,
    /// What was taken out at the destination.
    pub cleared: Option<(Seq<(usize, TlbInvalidation)>, Reclaims)>,
}

/// A request to move or resize `[addr, addr + old_size)`.
pub ghost struct RemapRequest {
    pub addr: usize,
    pub old_size: usize,
    pub new_size: usize,
    pub may_move: bool,
    /// Whether a destination is given, and which.
    pub fixed: bool,
    pub new_addr: Option<usize>,
}

impl RemapRequest {
    pub open spec fn old_end(self) -> usize {
        (self.addr + self.old_size) as usize
    }

    /// Whether the mapping leaves its place: it has to go to another address,
    /// or it has to grow and something follows it.
    pub open spec fn leaves(self, sp: Space, area: MemoryArea) -> bool {
        ||| self.fixed && self.new_addr is Some && self.new_addr != Some(self.addr)
        ||| self.blocked(sp, area) && self.may_move
    }

    /// Whether the mapping has to grow and something follows it.
    pub open spec fn blocked(self, sp: Space, area: MemoryArea) -> bool {
        self.new_size > self.old_size && (self.old_end() < area.end || any_meets(
            sp.areas,
            self.old_end() as int,
            self.addr + self.new_size,
        ))
    }
}

/// The answer that changes nothing.
pub open spec fn refused(sp: Space, frames: FrameState, e: AxError) -> Remapped {
    Remapped {
        result: Err(e),
        space: sp,
        frames,
        tracker: TlbInvalidationTracker::nothing(),
        reclaims: Reclaims::none(),
        cleared: None,
    }
}

/// Moves the pages of `middle` to `target` in a space that no longer has the
/// area.
pub open spec fn moved_to(
    sp: Space,
    frames: FrameState,
    middle: MemoryArea,
    target: usize,
    new_size: usize,
) -> Remapped {
    let old_size = (middle.end - middle.start) as usize;
    let l = lift_pages(
        nothing_lifted(sp.pt),
        middle.start as int,
        middle.end as int,
        middle.start as int,
    );
    let none = refused(sp, frames, AxError::InvalidInput);
    if !l.ok {
        Remapped {
            space: Space { areas: with_area(sp.areas, middle), pt: l.pt, ..sp },
            tracker: l.tracker,
            ..none
        }
    } else {
        let backend = middle.backend.moved(middle.start, target, new_size);
        let area = MemoryArea {
            start: target,
            end: (target + new_size) as usize,
            flags: middle.flags,
            backend,
        };
        let stored = sp.stored(middle.flags);
        let placed = place_pages(l.pt, l.moved, 0, target, stored, sp.limit);
        let now = Space { areas: with_area(sp.areas, area), pt: placed.1, ..sp };
        if !placed.0 {
            Remapped {
                result: Err(AxError::NoMemory),
                space: now,
                tracker: l.tracker,
                ..none
            }
        } else if new_size > old_size {
            let m = mapped(
                backend,
                placed.1,
                frames,
                (target + old_size) as usize,
                (new_size - old_size) as usize,
                middle.flags,
                stored,
                sp.limit,
            );
            Remapped {
                result: Ok(target),
                space: Space { pt: m.1, ..now },
                frames: m.2,
                tracker: l.tracker,
                ..none
            }
        } else {
            Remapped { result: Ok(target), space: now, tracker: l.tracker, ..none }
        }
    }
}

/// Resizes `middle` in place, in a space that no longer has the area.
pub open spec fn resized(
    sp: Space,
    frames: FrameState,
    middle: MemoryArea,
    new_size: usize,
    sizes: Seq<(u64, usize)>,
) -> Remapped {
    let old_size = (middle.end - middle.start) as usize;
    let new_end = (middle.start + new_size) as usize;
    let none = Remapped { result: Ok(middle.start), ..refused(sp, frames, AxError::NoMemory) };
    if new_size < old_size {
        let u = unmapped(
            middle.backend,
            unmapping(sp.pt, Reclaims::none(), TlbInvalidationTracker::nothing()),
            new_end,
            (old_size - new_size) as usize,
            sizes,
        );
        Remapped {
            space: Space {
                areas: with_area(sp.areas, middle.part(middle.start, new_end)),
                pt: u.pt,
                ..sp
            },
            tracker: u.tracker,
            reclaims: u.reclaims,
            ..none
        }
    } else if new_size > old_size {
        let backend = middle.backend.moved(middle.start, middle.start, new_size);
        let m = mapped(
            backend,
            sp.pt,
            frames,
            middle.end,
            (new_size - old_size) as usize,
            middle.flags,
            sp.stored(middle.flags),
            sp.limit,
        );
        Remapped {
            space: Space {
                areas: with_area(
                    sp.areas,
                    MemoryArea { backend, ..middle.part(middle.start, new_end) },
                ),
                pt: m.1,
                ..sp
            },
            frames: m.2,
            ..none
        }
    } else {
        Remapped { space: Space { areas: with_area(sp.areas, middle), ..sp }, ..none }
    }
}

/// What a request leads to.
pub open spec fn remapped(
    sp: Space,
    frames: FrameState,
    rq: RemapRequest,
    sizes: Seq<(u64, usize)>,
) -> Remapped {
    if !aligned_4k(rq.addr as int) || !aligned_4k(rq.old_size as int) || !aligned_4k(
        rq.new_size as int,
    ) || rq.old_size == 0 || rq.new_size == 0 {
        refused(sp, frames, AxError::InvalidInput)
    } else {
        match area_index(sp.areas, rq.addr as int) {
            None => refused(sp, frames, AxError::BadAddress),
            Some(i) => if sp.areas[i].end < rq.addr + rq.old_size {
                refused(sp, frames, AxError::BadAddress)
            } else {
                let area = sp.areas[i];
                let middle = area.part(rq.addr, rq.old_end());
                let cut = Space { areas: carved(sp.areas, i, rq.addr, rq.old_end()), ..sp };
                let back = Space { areas: with_area(cut.areas, middle), ..sp };
                if !rq.leaves(cut, area) {
                    if rq.blocked(cut, area) {
                        refused(back, frames, AxError::NoMemory)
                    } else {
                        resized(cut, frames, middle, rq.new_size, sizes)
                    }
                } else if rq.fixed {
                    match rq.new_addr {
                        None => refused(cut, frames, AxError::InvalidInput),
                        Some(dest) => if !aligned_4k(dest as int) || dest == rq.addr {
                            refused(back, frames, AxError::InvalidInput)
                        } else {
                            let t = unmapped_space(cut, dest, rq.new_size, Reclaims::none(), sizes);
                            let cleared = left_behind(sp.asid, t.2, t.3);
                            match t.0 {
                                Err(e) => Remapped {
                                    cleared,
                                    ..refused(
                                        Space { areas: with_area(t.1.areas, middle), ..t.1 },
                                        frames,
                                        e,
                                    )
                                },
                                Ok(_) => Remapped {
                                    cleared,
                                    ..moved_to(t.1, frames, middle, dest, rq.new_size)
                                },
                            }
                        },
                    }
                } else {
                    match gap(cut.areas, rq.addr, rq.new_size, sp.base, sp.end) {
                        None => refused(back, frames, AxError::NoMemory),
                        Some(target) => moved_to(cut, frames, middle, target, rq.new_size),
                    }
                }
            },
        }
    }
}

/// The shootdown of a request: what was in the way first.
pub open spec fn remap_shootdown(asid: usize, m: Remapped) -> Option<
    (Seq<(usize, TlbInvalidation)>, Reclaims),
> {
    let local = left_behind(asid, m.tracker, m.reclaims);
    match (m.cleared, local) {
        (Some(c), Some(l)) => Some((merge_all(c.0, l.0), c.1.joined(l.1))),
        (Some(c), None) => Some(c),
        (None, l) => l,
    }
}

/// The shootdown lists of `a` come before those of `b`.
fn join_shootdowns(a: Option<TlbShootdown>, b: Option<TlbShootdown>) -> (r: Option<TlbShootdown>)
    requires
        a matches Some(x) ==> x.wf(),
        b matches Some(x) ==> x.wf(),
    ensures
        shootdown_of(r) == match (shootdown_of(a), shootdown_of(b)) {
            (Some(c), Some(l)) => Some((merge_all(c.0, l.0), c.1.joined(l.1))),
            (Some(c), None) => Some(c),
            (None, l) => l,
        },
{
    match (a, b) {
        (Some(x), Some(y)) => {
            let mut x = x;
            x.merge(y);
            Some(x)
        },
        (Some(x), None) => Some(x),
        (None, y) => y,
    }
}

/// The pages that were taken out fit at the destination.
spec fn placeable(moved: Seq<(usize, usize)>, target: usize) -> bool {
    forall|i: int|
        0 <= i < moved.len() ==> aligned_4k((#[trigger] moved[i]).0 as int) && target + moved[i].0
            + 0x1000 <= usize::MAX && moved[i].1 + 0x1000 <= usize::MAX
}

fn lift(
    start: usize,
    end: usize,
    pt: &mut PageTable,
    tracker: &mut TlbInvalidationTracker,
    moved: &mut Vec<(usize, usize)>,
) -> (ok: bool)
    requires
        old(pt).wf(),
        start <= end,
        aligned_4k(start as int),
        aligned_4k(end as int),
        old(moved)@.len() == 0,
    ensures
        final(pt).wf(),
        final(pt).same_kind(old(pt)),
        (Lifting { ok, pt: final(pt)@, tracker: *final(tracker), moved: final(moved)@ })
            == lift_pages(
            Lifting { ok: true, pt: old(pt)@, tracker: *old(tracker), moved: Seq::empty() },
            start as int,
            end as int,
            start as int,
        ),
        forall|i: int|
            0 <= i < final(moved)@.len() ==> aligned_4k((#[trigger] final(moved)@[i]).0 as int)
                && start + final(moved)@[i].0 < end && final(moved)@[i].1 + 0x1000 <= usize::MAX,
{
    let ghost l0 = Lifting { ok: true, pt: pt@, tracker: *tracker, moved: moved@ };
    assert(moved@ =~= Seq::empty());
    let mut page: usize = start;
    while page < end
        invariant
            start <= page <= end,
            aligned_4k(start as int),
            aligned_4k(page as int),
            aligned_4k(end as int),
            pt.wf(),
            pt.same_kind(old(pt)),
            l0 == (Lifting {
                ok: true,
                pt: old(pt)@,
                tracker: *old(tracker),
                moved: Seq::empty(),
            }),
            forall|i: int|
                0 <= i < moved@.len() ==> aligned_4k((#[trigger] moved@[i]).0 as int) && start
                    + moved@[i].0 < end && moved@[i].1 + 0x1000 <= usize::MAX,
            lift_pages(l0, start as int, end as int, start as int) == lift_pages(
                Lifting { ok: true, pt: pt@, tracker: *tracker, moved: moved@ },
                page as int,
                end as int,
                start as int,
            ),
        decreases end - page,
    {
        let ghost l = Lifting { ok: true, pt: pt@, tracker: *tracker, moved: moved@ };
        proof {
            if pte_at(pt@, page) is Some {
                lemma_entry_frame(pt@, page);
            }
        }
        if let Some((frame, size)) = pt.unmap(page) {
            if frame != 0 {
                tracker.record(page, size.bytes());
            }
            if size.is_huge() {
                proof {
                    let n = Lifting { ok: false, pt: pt@, tracker: *tracker, moved: moved@ };
                    assert(lift_pages(n, page + 0x1000, end as int, start as int) == n);
                    assert(lift_pages(l, page as int, end as int, start as int) == n);
                }
                return false;
            }
            if frame != 0 {
                moved.push((page - start, frame));
            }
        }
        page = page + PAGE_SIZE_4K;
    }
    true
}

fn place(
    moved: &Vec<(usize, usize)>,
    target: usize,
    flags: MappingFlags,
    pt: &mut PageTable,
) -> (ok: bool)
    requires
        old(pt).wf(),
        aligned_4k(target as int),
        placeable(moved@, target),
    ensures
        final(pt).wf(),
        final(pt).same_kind(old(pt)),
        (ok, final(pt)@) == place_pages(
            old(pt)@,
            moved@,
            0,
            target,
            old(pt).stored(flags),
            old(pt).limit(),
        ),
{
    let mut i: usize = 0;
    while i < moved.len()
        invariant
            i <= moved@.len(),
            aligned_4k(target as int),
            placeable(moved@, target),
            pt.wf(),
            pt.same_kind(old(pt)),
            place_pages(old(pt)@, moved@, 0, target, old(pt).stored(flags), old(pt).limit())
                == place_pages(
                pt@,
                moved@,
                i as int,
                target,
                old(pt).stored(flags),
                old(pt).limit(),
            ),
        decreases moved@.len() - i,
    {
        let (offset, frame) = moved[i];
        assert(aligned_4k(moved@[i as int].0 as int));
        let at: usize = target + offset;
        assert(aligned_4k(at as int));
        if !map_page(pt, at, frame, flags) {
            return false;
        }
        i = i + 1;
    }
    true
}

impl AddrSpace {
    /// Moves `middle`, which is not in the set of areas, to `target`.
    fn move_area(
        &mut self,
        middle: MemoryArea,
        target: usize,
        new_size: usize,
        frames: &mut Frames,
        tracker: &mut TlbInvalidationTracker,
    ) -> (r: AxResult<usize>)
        requires
            old(self).wf(),
            old(frames).wf(),
            *old(tracker) == TlbInvalidationTracker::nothing(),
            middle.wf(),
            aligned_4k(target as int),
            aligned_4k(new_size as int),
            new_size > 0,
            target + new_size <= usize::MAX - 0xfff,
            new_size >= middle.end - middle.start || target + (middle.end - middle.start)
                <= usize::MAX - 0xfff,
            !any_meets(old(self)@.areas, target as int, target + new_size),
            !any_meets(old(self)@.areas, middle.start as int, middle.end as int),
        ensures
            final(self).wf(),
            final(frames).wf(),
            final(frames).room() >= old(frames).room(),
            ({
                let m = moved_to(old(self)@, old(frames)@, middle, target, new_size);
                &&& r == m.result
                &&& final(self)@ == m.space
                &&& final(frames)@ == m.frames
                &&& *final(tracker) == m.tracker
            }),
    {
        proof {
            self.lemma_parts();
        }
        let ghost sp = self@;
        let old_size: usize = middle.end - middle.start;
        let flags: MappingFlags = middle.flags;
        let mut moved: Vec<(usize, usize)> = Vec::new();
        let lifted: bool = lift(middle.start, middle.end, &mut self.pt, tracker, &mut moved);
        if !lifted {
            proof {
                lemma_with_area_wf(self.areas@, middle);
            }
            self.areas.insert(middle);
            proof {
                self.lemma_parts();
            }
            return Err(AxError::InvalidInput);
        }
        let backend: Backend = middle.backend.clone().update_address(
            middle.start,
            target,
            new_size,
        );
        let area = MemoryArea { start: target, end: target + new_size, flags, backend };
        proof {
            lemma_with_area_wf(self.areas@, area);
            assert forall|i: int| 0 <= i < moved@.len() implies aligned_4k(
                (#[trigger] moved@[i]).0 as int,
            ) && target + moved@[i].0 + 0x1000 <= usize::MAX && moved@[i].1 + 0x1000
                <= usize::MAX by {}
        }
        let grown: Backend = area.backend.clone();
        self.areas.insert(area);
        if !place(&moved, target, flags, &mut self.pt) {
            proof {
                self.lemma_parts();
            }
            return Err(AxError::NoMemory);
        }
        if new_size > old_size {
            let _ = grown.map(
                target + old_size,
                new_size - old_size,
                flags,
                &mut self.pt,
                frames,
            );
        }
        proof {
            self.lemma_parts();
        }
        Ok(target)
    }

    /// Resizes `middle`, which is not in the set of areas, where it is.
    fn resize_area(
        &mut self,
        middle: MemoryArea,
        new_size: usize,
        sizes: &FileSizes,
        frames: &mut Frames,
        reclaim: &mut DeferredReclaims,
        tracker: &mut TlbInvalidationTracker,
    ) -> (r: AxResult<usize>)
        requires
            old(self).wf(),
            old(frames).wf(),
            *old(tracker) == TlbInvalidationTracker::nothing(),
            old(reclaim)@ == Reclaims::none(),
            middle.wf(),
            aligned_4k(new_size as int),
            new_size > 0,
            middle.start + new_size <= usize::MAX,
            !any_meets(old(self)@.areas, middle.start as int, middle.end as int),
            !any_meets(old(self)@.areas, middle.start as int, middle.start + new_size),
        ensures
            final(self).wf(),
            final(frames).wf(),
            final(frames).room() >= old(frames).room(),
            final(reclaim)@.retirement is None,
            ({
                let m = resized(old(self)@, old(frames)@, middle, new_size, sizes@);
                &&& r == m.result
                &&& final(self)@ == m.space
                &&& final(frames)@ == m.frames
                &&& *final(tracker) == m.tracker
                &&& final(reclaim)@ == m.reclaims
            }),
    {
        proof {
            self.lemma_parts();
        }
        let old_size: usize = middle.end - middle.start;
        let start: usize = middle.start;
        if new_size < old_size {
            let new_end: usize = start + new_size;
            proof {
                lemma_unmapped_keeps_buffer(
                    middle.backend,
                    unmapping(self.pt@, reclaim@, *tracker),
                    new_end,
                    (old_size - new_size) as usize,
                    sizes@,
                );
            }
            let _ = middle.backend.unmap_tracked(
                new_end,
                old_size - new_size,
                sizes,
                &mut self.pt,
                reclaim,
                tracker,
            );
            let mut area: MemoryArea = middle;
            area.end = new_end;
            proof {
                lemma_with_area_wf(self.areas@, area);
            }
            self.areas.insert(area);
        } else if new_size > old_size {
            let flags: MappingFlags = middle.flags;
            let old_end: usize = middle.end;
            let backend: Backend = middle.backend.update_address(start, start, new_size);
            let _ = backend.map(old_end, new_size - old_size, flags, &mut self.pt, frames);
            let area = MemoryArea { start, end: start + new_size, flags, backend };
            proof {
                lemma_with_area_wf(self.areas@, area);
            }
            self.areas.insert(area);
        } else {
            proof {
                lemma_with_area_wf(self.areas@, middle);
            }
            self.areas.insert(middle);
        }
        proof {
            self.lemma_parts();
        }
        Ok(start)
    }
}

/// After a range was taken out, neither it nor what was clear before is met.
proof fn lemma_cleared(
    sp: Space,
    start: usize,
    size: usize,
    sizes: Seq<(u64, usize)>,
    a: int,
    b: int,
)
    requires
        areas_wf(sp.areas),
        !any_meets(sp.areas, a, b),
        size > 0,
    ensures
        ({
            let t = unmapped_space(sp, start, size, Reclaims::none(), sizes);
            &&& !any_meets(t.1.areas, a, b)
            &&& t.0 is Ok ==> !any_meets(t.1.areas, start as int, start + size)
        }),
{
    if sp.has_range(start, size) && aligned_4k(start as int) && aligned_4k(size as int)
        && any_meets(sp.areas, start as int, start + size) && start + size <= usize::MAX {
        lemma_unmap_areas_within(
            SetUnmapping {
                ok: true,
                kept: Seq::empty(),
                u: unmapping(sp.pt, Reclaims::none(), TlbInvalidationTracker::nothing()),
            },
            sp.areas,
            0,
            start,
            (start + size) as usize,
            sizes,
            a,
            b,
        );
    }
}

impl AddrSpace {
    /// Moves `middle`, which is not in the set of areas, to a given place,
    /// from which everything else is taken out first.
    fn move_area_to(
        &mut self,
        middle: MemoryArea,
        dest: usize,
        new_size: usize,
        sizes: &FileSizes,
        frames: &mut Frames,
        tracker: &mut TlbInvalidationTracker,
    ) -> (r: (AxResult<usize>, Option<TlbShootdown>))
        requires
            old(self).wf(),
            old(frames).wf(),
            *old(tracker) == TlbInvalidationTracker::nothing(),
            middle.wf(),
            aligned_4k(dest as int),
            aligned_4k(new_size as int),
            new_size > 0,
            dest + (middle.end - middle.start) <= usize::MAX - 0xfff,
            !any_meets(old(self)@.areas, middle.start as int, middle.end as int),
        ensures
            final(self).wf(),
            final(frames).wf(),
            final(frames).room() >= old(frames).room(),
            r.1 matches Some(s) ==> s.wf(),
            ({
                let t = unmapped_space(old(self)@, dest, new_size, Reclaims::none(), sizes@);
                let m = match t.0 {
                    Err(e) => refused(
                        Space { areas: with_area(t.1.areas, middle), ..t.1 },
                        old(frames)@,
                        e,
                    ),
                    Ok(_) => moved_to(t.1, old(frames)@, middle, dest, new_size),
                };
                &&& shootdown_of(r.1) == left_behind(old(self)@.asid, t.2, t.3)
                &&& r.0 == m.result
                &&& final(self)@ == m.space
                &&& final(frames)@ == m.frames
                &&& *final(tracker) == m.tracker
            }),
    {
        proof {
            self.lemma_parts();
            lemma_cleared(
                self@,
                dest,
                new_size,
                sizes@,
                middle.start as int,
                middle.end as int,
            );
        }
        let cleared: AddrSpaceMutation<()> = self.unmap(dest, new_size, sizes);
        proof {
            self.lemma_parts();
        }
        match cleared.result {
            Err(e) => {
                proof {
                    lemma_with_area_wf(self.areas@, middle);
                }
                self.areas.insert(middle);
                proof {
                    self.lemma_parts();
                }
                (Err(e), cleared.shootdown)
            },
            Ok(()) => {
                let r: AxResult<usize> = self.move_area(middle, dest, new_size, frames, tracker);
                (r, cleared.shootdown)
            },
        }
    }

    /// Puts an area back that was cut out of the set.
    fn put_back(&mut self, middle: MemoryArea)
        requires
            old(self).wf(),
            middle.wf(),
            !any_meets(old(self)@.areas, middle.start as int, middle.end as int),
        ensures
            final(self).wf(),
            final(self)@ == (Space { areas: with_area(old(self)@.areas, middle), ..old(self)@ }),
    {
        proof {
            self.lemma_parts();
            lemma_with_area_wf(self.areas@, middle);
        }
        self.areas.insert(middle);
        proof {
            self.lemma_parts();
        }
    }

    /// Moves or resizes the mapping of `[old_addr, old_addr + old_size)`.
    #[verifier::rlimit(100)]
    #[verifier::spinoff_prover]
    pub fn mremap(
        &mut self,
        old_addr: usize,
        old_size: usize,
        new_size: usize,
        flags: usize,
        new_addr: Option<usize>,
        sizes: &FileSizes,
        frames: &mut Frames,
    ) -> (r: AddrSpaceMutation<usize>)
        requires
            old(self).wf(),
            old(frames).wf(),
            old_addr + old_size <= usize::MAX,
            old_addr + new_size <= usize::MAX,
            flags & MREMAP_FIXED != 0 && new_addr is Some ==> new_addr->0 + old_size <= usize::MAX
                - 0xfff,
        ensures
            final(self).wf(),
            final(frames).wf(),
            final(frames).room() >= old(frames).room(),
            ({
                let m = remapped(
                    old(self)@,
                    old(frames)@,
                    RemapRequest {
                        addr: old_addr,
                        old_size,
                        new_size,
                        may_move: flags & MREMAP_MAYMOVE != 0,
                        fixed: flags & MREMAP_FIXED != 0,
                        new_addr,
                    },
                    sizes@,
                );
                &&& r.result == m.result
                &&& final(self)@ == m.space
                &&& final(frames)@ == m.frames
                &&& shootdown_of(r.shootdown) == remap_shootdown(old(self)@.asid, m)
            }),
    {
        let may_move: bool = flags & MREMAP_MAYMOVE != 0;
        let fixed: bool = flags & MREMAP_FIXED != 0;
        let ghost sp = self@;
        proof {
            self.lemma_parts();
        }
        if !is_aligned_4k(old_addr) || !is_aligned_4k(old_size) || !is_aligned_4k(new_size) {
            return AddrSpaceMutation { result: Err(AxError::InvalidInput), shootdown: None };
        }
        if old_size == 0 || new_size == 0 {
            return AddrSpaceMutation { result: Err(AxError::InvalidInput), shootdown: None };
        }
        let old_end: usize = old_addr + old_size;
        let i: usize = match self.areas.find(old_addr) {
            Some(i) => i,
            None => {
                return AddrSpaceMutation { result: Err(AxError::BadAddress), shootdown: None };
            },
        };
        let area_end: usize = self.areas.get(i).end;
        if area_end < old_end {
            return AddrSpaceMutation { result: Err(AxError::BadAddress), shootdown: None };
        }
        proof {
            lemma_area_wf(self.areas@, i as int);
            lemma_carved(self.areas@, i as int, old_addr, old_end);
        }
        let middle: MemoryArea = self.areas.carve(i, old_addr, old_end);
        proof {
            self.lemma_parts();
        }
        let ghost cut = self@;
        let mut should_move: bool = match new_addr {
            Some(dest) => fixed && dest != old_addr,
            None => false,
        };
        if new_size > old_size && !should_move {
            if old_end < area_end || self.has_overlap(old_end, new_size - old_size) {
                if !may_move {
                    self.put_back(middle);
                    return AddrSpaceMutation { result: Err(AxError::NoMemory), shootdown: None };
                }
                should_move = true;
            }
        }
        let mut tracker: TlbInvalidationTracker = TlbInvalidationTracker::default();
        if !should_move {
            proof {
                lemma_grown_is_clear(cut.areas, old_addr, old_end, (old_addr + new_size) as usize);
            }
            let mut reclaim: DeferredReclaims = DeferredReclaims::default();
            let result: AxResult<usize> = self.resize_area(
                middle,
                new_size,
                sizes,
                frames,
                &mut reclaim,
                &mut tracker,
            );
            proof {
                self.lemma_parts();
            }
            let shootdown: Option<TlbShootdown> = leave_behind(self.asid, tracker, reclaim);
            return AddrSpaceMutation { result, shootdown };
        }
        if fixed {
            let dest: usize = match new_addr {
                Some(dest) => dest,
                None => {
                    return AddrSpaceMutation {
                        result: Err(AxError::InvalidInput),
                        shootdown: None,
                    };
                },
            };
            if !is_aligned_4k(dest) || dest == old_addr {
                self.put_back(middle);
                return AddrSpaceMutation { result: Err(AxError::InvalidInput), shootdown: None };
            }
            let (result, cleared) = self.move_area_to(
                middle,
                dest,
                new_size,
                sizes,
                frames,
                &mut tracker,
            );
            proof {
                self.lemma_parts();
            }
            let local: Option<TlbShootdown> = leave_behind(
                self.asid,
                tracker,
                DeferredReclaims::default(),
            );
            let shootdown: Option<TlbShootdown> = join_shootdowns(cleared, local);
            return AddrSpaceMutation { result, shootdown };
        }
        let limit_start: usize = self.base;
        let limit_end: usize = self.end;
        match self.find_free_area(old_addr, new_size, limit_start, limit_end) {
            None => {
                self.put_back(middle);
                AddrSpaceMutation { result: Err(AxError::NoMemory), shootdown: None }
            },
            Some(target) => {
                let result: AxResult<usize> = self.move_area(
                    middle,
                    target,
                    new_size,
                    frames,
                    &mut tracker,
                );
                proof {
                    self.lemma_parts();
                }
                let shootdown: Option<TlbShootdown> = leave_behind(
                    self.asid,
                    tracker,
                    DeferredReclaims::default(),
                );
                AddrSpaceMutation { result, shootdown }
            },
        }
    }
}

/// A range that is clear in two parts is clear.
proof fn lemma_grown_is_clear(s: Seq<MemoryArea>, start: usize, old_end: usize, new_end: usize)
    requires
        areas_wf(s),
        start < old_end,
        !any_meets(s, start as int, old_end as int),
        old_end < new_end ==> !any_meets(s, old_end as int, new_end as int),
    ensures
        !any_meets(s, start as int, new_end as int),
{
    if any_meets(s, start as int, new_end as int) {
        let k = choose|k: int|
            0 <= k < s.len() && (#[trigger] s[k]).meets(start as int, new_end as int);
        lemma_area_wf(s, k);
        if s[k].start < old_end {
            assert(s[k].meets(start as int, old_end as int));
        } else {
            assert(s[k].meets(old_end as int, new_end as int));
        }
    }
}

/// Pages that were taken out come one after another, all before `n` bytes.
spec fn rising(moved: Seq<(usize, usize)>, n: int) -> bool {
    &&& forall|i: int|
        0 <= i < moved.len() ==> (#[trigger] moved[i]).0 < n && aligned_4k(moved[i].0 as int)
            && moved[i].1 + 0x1000 <= usize::MAX
    &&& forall|i: int, j: int| 0 <= i < j < moved.len() ==> (#[trigger] moved[i]).0 < (#[trigger] moved[j]).0
}

/// Taking pages out leaves the range empty and the rest as it was, and notes
/// the frame of each page.
#[verifier::rlimit(40)]
#[verifier::spinoff_prover]
proof fn lemma_lifted(l: Lifting, page: int, end: int, start: int, q: usize)
    requires
        l.ok,
        pt_wf(l.pt),
        entries_disjoint(l.pt),
        0 <= start <= page <= end <= usize::MAX,
        aligned_4k(start),
        aligned_4k(page),
        aligned_4k(end),
        aligned_4k(q as int),
        rising(l.moved, page - start),
        l.tracker.wf(),
        lift_pages(l, page, end, start).ok,
    ensures
        ({
            let t = lift_pages(l, page, end, start);
            &&& pt_wf(t.pt)
            &&& t.tracker.wf()
            &&& forall|a: int| #[trigger] l.tracker.covers(a) ==> t.tracker.covers(a)
            &&& page <= q < end && resident(l.pt, q) ==> t.tracker.covers(q as int)
            &&& rising(t.moved, end - start)
            &&& t.moved.len() >= l.moved.len()
            &&& forall|k: int| 0 <= k < l.moved.len() ==> #[trigger] t.moved[k] == l.moved[k]
            &&& page <= q < end ==> lookup(t.pt, q) is None
            &&& !(page <= q < end) ==> lookup(t.pt, q) == lookup(l.pt, q) && pte_at(t.pt, q)
                == pte_at(l.pt, q)
            &&& page <= q < end && resident(l.pt, q) ==> exists|k: int|
                0 <= k < t.moved.len() && #[trigger] t.moved[k] == (
                    (q - start) as usize,
                    (pte_at(l.pt, q)->0).frame,
                )
        }),
    decreases end - page,
{
    if page < end {
        let t = lift_pages(l, page, end, start);
        let p = page as usize;
        match pte_at(l.pt, p) {
            None => {
                lemma_lifted(l, page + 0x1000, end, start, q);
            },
            Some(e) => {
                let n = Lifting {
                    ok: e.size == PageSize::Size4K,
                    pt: l.pt.remove(lookup(l.pt, p)->0),
                    tracker: if e.frame != 0 {
                        l.tracker.recorded(p, e.size.spec_bytes())
                    } else {
                        l.tracker
                    },
                    moved: if e.frame != 0 && e.size == PageSize::Size4K {
                        l.moved.push(((page - start) as usize, e.frame))
                    } else {
                        l.moved
                    },
                };
                assert(t == lift_pages(n, page + 0x1000, end, start));
                if !n.ok {
                    assert(lift_pages(n, page + 0x1000, end, start) == n);
                }
                lemma_drop_entry(l.pt, p, q);
                lemma_entry_frame(l.pt, p);
                assert(rising(n.moved, page + 0x1000 - start));
                assert(e.frame != 0 ==> n.tracker == l.tracker.recorded(p, 0x1000));
                lemma_record_covers(l.tracker, p, 0x1000, page);
                assert forall|a: int| #[trigger] l.tracker.covers(a) implies n.tracker.covers(a) by {
                    lemma_record_covers(l.tracker, p, 0x1000, a);
                }
                assert(shown_frame(l.pt, p) == e.frame);
                lemma_lifted(n, page + 0x1000, end, start, q);
                if q == p && e.frame != 0 {
                    let k = l.moved.len() as int;
                    assert(t.moved[k] == n.moved[k]);
                    assert(t.moved[k] == ((q - start) as usize, e.frame));
                }
            },
        }
    }
}

/// Pages that were put in are translated to their frames, and the rest is as
/// it was.
proof fn lemma_placed(
    pt: PtMap,
    moved: Seq<(usize, usize)>,
    i: int,
    n: int,
    target: usize,
    stored: MappingFlags,
    limit: usize,
    q: usize,
)
    requires
        pt_wf(pt),
        rising(moved, n),
        0 <= i <= moved.len(),
        target + n <= usize::MAX,
        aligned_4k(target as int),
        aligned_4k(q as int),
        place_pages(pt, moved, i, target, stored, limit).0,
    ensures
        ({
            let t = place_pages(pt, moved, i, target, stored, limit).1;
            &&& pt_wf(t)
            &&& !(target <= q < target + n) ==> lookup(t, q) == lookup(pt, q) && pte_at(t, q)
                == pte_at(pt, q)
            &&& (forall|k: int| i <= k < moved.len() ==> target + (#[trigger] moved[k]).0 != q)
                ==> lookup(t, q) == lookup(pt, q) && pte_at(t, q) == pte_at(pt, q)
            &&& forall|k: int|
                i <= k < moved.len() && target + (#[trigger] moved[k]).0 == q ==> pte_at(t, q)
                    == Some(leaf(base_of(moved[k].1, PageSize::Size4K), stored))
        }),
    decreases moved.len() - i,
{
    if i < moved.len() {
        let at = (target + moved[i].0) as usize;
        let e = leaf(base_of(moved[i].1, PageSize::Size4K), stored);
        assert(aligned_4k(at as int));
        assert(range_free(pt, at, 0x1000)) by {
            assert forall|x: usize|
                at <= x < at + 0x1000 && aligned_4k(x as int) implies #[trigger] lookup(pt, x) is None by {
                assert(x == at);
            }
        }
        lemma_entry_in_free_range(pt, at, e, q);
        lemma_placed(pt.insert(at, e), moved, i + 1, n, target, stored, limit, q);
        if q == at {
            assert forall|k: int| i + 1 <= k < moved.len() implies target + (#[trigger] moved[k]).0 != q by {
                assert(moved[i].0 < moved[k].0);
            }
        }
    }
}

/// The memory of a linear mapping that was moved still begins at a page.
proof fn lemma_moved_offset(offset: usize, old_start: usize, target: usize, from: usize)
    requires
        aligned_4k(offset as int),
        aligned_4k(old_start as int),
        aligned_4k(target as int),
        aligned_4k(from as int),
    ensures
        aligned_4k(
            from.wrapping_sub(offset.wrapping_add(target.wrapping_sub(old_start))) as int,
        ),
{
    let all = usize::MAX + 1;
    assert(all % 0x1000 == 0) by {
        assert(usize::MAX == 0xffff_ffff || usize::MAX == 0xffff_ffff_ffff_ffff);
    }
    let d = target.wrapping_sub(old_start);
    assert(d == target - old_start || d == target - old_start + all);
    assert(aligned_4k(d as int));
    let o = offset.wrapping_add(d);
    assert(o == offset + d || o == offset + d - all);
    assert(aligned_4k(o as int));
    let r = from.wrapping_sub(o);
    assert(r == from - o || r == from - o + all);
}

/// What is found of a page between taking the old pages out and adding new
/// ones.
proof fn lemma_page_is_carried(
    pt: PtMap,
    start: usize,
    end: usize,
    target: usize,
    stored: MappingFlags,
    limit: usize,
    page: usize,
)
    requires
        pt_wf(pt),
        entries_disjoint(pt),
        aligned_4k(start as int),
        aligned_4k(end as int),
        aligned_4k(target as int),
        target + (end - start) <= usize::MAX,
        aligned_4k(page as int),
        start <= page < end,
        lift_pages(nothing_lifted(pt), start as int, end as int, start as int).ok,
        place_pages(
            lift_pages(nothing_lifted(pt), start as int, end as int, start as int).pt,
            lift_pages(nothing_lifted(pt), start as int, end as int, start as int).moved,
            0,
            target,
            stored,
            limit,
        ).0,
    ensures
        ({
            let l = lift_pages(nothing_lifted(pt), start as int, end as int, start as int);
            let t = place_pages(l.pt, l.moved, 0, target, stored, limit).1;
            let now = (target + (page - start)) as usize;
            &&& pt_wf(t)
            &&& resident(pt, page) ==> pte_at(t, now) == Some(
                leaf(base_of((pte_at(pt, page)->0).frame, PageSize::Size4K), stored),
            )
            &&& !(target <= page < target + (end - start)) ==> lookup(t, page) is None
        }),
{
    let l = lift_pages(nothing_lifted(pt), start as int, end as int, start as int);
    let now = (target + (page - start)) as usize;
    lemma_lifted(nothing_lifted(pt), start as int, end as int, start as int, page);
    lemma_placed(l.pt, l.moved, 0, end - start, target, stored, limit, now);
    lemma_placed(l.pt, l.moved, 0, end - start, target, stored, limit, page);
    if resident(pt, page) {
        let k = choose|k: int|
            0 <= k < l.moved.len() && #[trigger] l.moved[k] == (
                (page - start) as usize,
                (pte_at(pt, page)->0).frame,
            );
        assert(target + l.moved[k].0 == now);
    }
}

/// A page of a mapping that was moved keeps its frame: it is found as far
/// behind the new start as it was behind the old one, with the flags of the
/// mapping. Its old address is translated no more, unless the mapping now
/// stands there.
#[verifier::rlimit(60)]
#[verifier::spinoff_prover]
pub proof fn lemma_moved_page_keeps_its_frame(
    sp: Space,
    frames: FrameState,
    middle: MemoryArea,
    target: usize,
    new_size: usize,
    page: usize,
)
    requires
        pt_wf(sp.pt),
        entries_disjoint(sp.pt),
        frames.wf(),
        middle.wf(),
        aligned_4k(target as int),
        aligned_4k(new_size as int),
        target + new_size <= usize::MAX,
        target + (middle.end - middle.start) <= usize::MAX,
        aligned_4k(page as int),
        middle.start <= page < middle.end,
        middle.backend matches Backend::Shared { frame_paddr, .. } ==> aligned_4k(
            frame_paddr as int,
        ),
        middle.backend matches Backend::Linear { pa_va_offset } ==> aligned_4k(
            pa_va_offset as int,
        ),
        moved_to(sp, frames, middle, target, new_size).result is Ok,
    ensures
        ({
            let t = moved_to(sp, frames, middle, target, new_size);
            let now = (target + (page - middle.start)) as usize;
            &&& t.result == Ok::<usize, AxError>(target)
            &&& resident(sp.pt, page) ==> pte_at(t.space.pt, now) == Some(
                leaf(
                    base_of((pte_at(sp.pt, page)->0).frame, PageSize::Size4K),
                    sp.stored(middle.flags),
                ),
            )
            &&& !(target <= page < target + new_size) && !(target <= page < target + (middle.end
                - middle.start)) ==> lookup(t.space.pt, page) is None
        }),
{
    let old_size = (middle.end - middle.start) as usize;
    let stored = sp.stored(middle.flags);
    let l = lift_pages(
        nothing_lifted(sp.pt),
        middle.start as int,
        middle.end as int,
        middle.start as int,
    );
    let placed = place_pages(l.pt, l.moved, 0, target, stored, sp.limit);
    let now = (target + (page - middle.start)) as usize;
    lemma_page_is_carried(sp.pt, middle.start, middle.end, target, stored, sp.limit, page);
    if new_size > old_size {
        let backend = middle.backend.moved(middle.start, target, new_size);
        let from = (target + old_size) as usize;
        let more = (new_size - old_size) as usize;
        if let Backend::Linear { pa_va_offset } = middle.backend {
            lemma_moved_offset(pa_va_offset, middle.start, target, from);
        }
        lemma_mapping_stays_in_its_range(
            backend,
            placed.1,
            frames,
            from,
            more,
            middle.flags,
            stored,
            sp.limit,
            now,
        );
        if !(target <= page < target + new_size) {
            lemma_mapping_stays_in_its_range(
                backend,
                placed.1,
                frames,
                from,
                more,
                middle.flags,
                stored,
                sp.limit,
                page,
            );
        }
    }
}

/// What is found after an area was put in where nothing was.
proof fn lemma_put_in(s: Seq<MemoryArea>, a: MemoryArea, lo: int, hi: int)
    requires
        areas_wf(s),
        a.wf(),
        !any_meets(s, a.start as int, a.end as int),
        !any_meets(s, lo, hi),
        !a.meets(lo, hi),
    ensures
        with_area(s, a).contains(a),
        !any_meets(with_area(s, a), lo, hi),
{
    lemma_with_area_wf(s, a);
    lemma_rank(s, a.start);
    let n = rank(s, a.start) as int;
    let w = with_area(s, a);
    assert(w[n] == a);
    if any_meets(w, lo, hi) {
        let k = choose|k: int| 0 <= k < w.len() && (#[trigger] w[k]).meets(lo, hi);
        if k < n {
            assert(s[k].meets(lo, hi));
        } else if k > n {
            assert(s[k - 1].meets(lo, hi));
        }
    }
}

/// A mapping that is made smaller stays where it is. No page of what was cut off
/// is translated any more, what these pages showed is given back once no CPU
/// uses the old translations, and every other page is as it was. The area ends
/// where it was told to.
#[verifier::rlimit(40)]
#[verifier::spinoff_prover]
pub proof fn lemma_shrunk_mapping(
    sp: Space,
    frames: FrameState,
    rq: RemapRequest,
    sizes: Seq<(u64, usize)>,
    k: int,
    q: usize,
)
    requires
        areas_wf(sp.areas),
        pt_wf(sp.pt),
        entries_disjoint(sp.pt),
        0 <= k < sp.areas.len(),
        sp.areas[k].start <= rq.addr,
        rq.addr + rq.old_size <= sp.areas[k].end,
        rq.addr % 0x1000 == 0,
        rq.old_size % 0x1000 == 0,
        rq.new_size % 0x1000 == 0,
        0 < rq.new_size < rq.old_size,
        rq.fixed && rq.new_addr is Some ==> rq.new_addr == Some(rq.addr),
        takeable(
            sp.areas[k].backend,
            sp.pt,
            (rq.addr + rq.new_size) as usize,
            (rq.addr + rq.old_size) as usize,
        ),
        q % 0x1000 == 0,
    ensures
        ({
            let m = remapped(sp, frames, rq, sizes);
            let cut_off = rq.addr + rq.new_size <= q < rq.addr + rq.old_size;
            &&& m.result == Ok::<usize, AxError>(rq.addr)
            &&& m.frames == frames
            &&& cut_off ==> lookup(m.space.pt, q) is None
            &&& !cut_off ==> pte_at(m.space.pt, q) == pte_at(sp.pt, q) && lookup(m.space.pt, q)
                == lookup(sp.pt, q)
            &&& cut_off && resident(sp.pt, q) && is_lazy(sp.areas[k].backend) ==> {
                &&& remap_shootdown(sp.asid, m) is Some
                &&& (remap_shootdown(sp.asid, m)->0).1.frames.contains(shown_frame(sp.pt, q))
            }
            &&& cut_off && resident(sp.pt, q) && (pte_at(sp.pt, q)->0).frame != 0 ==> {
                &&& remap_shootdown(sp.asid, m) is Some
                &&& list_covers((remap_shootdown(sp.asid, m)->0).0, sp.asid, q as int)
            }
            &&& m.space.areas.contains(
                MemoryArea {
                    start: rq.addr,
                    end: (rq.addr + rq.new_size) as usize,
                    flags: sp.areas[k].flags,
                    backend: sp.areas[k].backend,
                },
            )
            &&& !any_meets(m.space.areas, rq.addr + rq.new_size, rq.addr + rq.old_size)
        }),
{
    lemma_area_wf(sp.areas, k);
    lemma_found(sp.areas, k, rq.addr as int);
    lemma_carved(sp.areas, k, rq.addr, rq.old_end());
    let backend = sp.areas[k].backend;
    let middle = sp.areas[k].part(rq.addr, rq.old_end());
    let cut = carved(sp.areas, k, rq.addr, rq.old_end());
    let new_end = (rq.addr + rq.new_size) as usize;
    let less = (rq.old_size - rq.new_size) as usize;
    let u = unmapping(sp.pt, Reclaims::none(), TlbInvalidationTracker::nothing());
    let t = unmapped(backend, u, new_end, less, sizes);
    lemma_unmapped_part_is_given_back(backend, u, new_end, less, sizes, q);
    lemma_unmapped_part_is_empty(backend, u, new_end, less, sizes, q);
    let m = remapped(sp, frames, rq, sizes);
    assert(m == resized(Space { areas: cut, ..sp }, frames, middle, rq.new_size, sizes));
    let a = middle.part(rq.addr, new_end);
    lemma_part_is_clear(cut, rq.addr as int, rq.old_end() as int, rq.addr as int, new_end as int);
    lemma_part_is_clear(
        cut,
        rq.addr as int,
        rq.old_end() as int,
        new_end as int,
        rq.old_end() as int,
    );
    lemma_put_in(cut, a, new_end as int, rq.old_end() as int);
    if t.tracker.covers(q as int) {
        let list = tracked_list(sp.asid, t.tracker);
        assert(list[0].0 == sp.asid && list[0].1.covers(q as int));
    }
}

/// A part of a clear range is clear.
proof fn lemma_part_is_clear(s: Seq<MemoryArea>, lo: int, hi: int, a: int, b: int)
    requires
        !any_meets(s, lo, hi),
        lo <= a,
        b <= hi,
    ensures
        !any_meets(s, a, b),
{
    if any_meets(s, a, b) {
        let k = choose|k: int| 0 <= k < s.len() && (#[trigger] s[k]).meets(a, b);
        assert(s[k].meets(lo, hi));
    }
}

/// A mapping that is made larger stays where it is if nothing follows it. Its
/// pages are as they were, and so is everything outside of it; the area ends
/// where it was told to.
#[verifier::rlimit(40)]
#[verifier::spinoff_prover]
pub proof fn lemma_grown_mapping(
    sp: Space,
    frames: FrameState,
    rq: RemapRequest,
    sizes: Seq<(u64, usize)>,
    k: int,
    q: usize,
)
    requires
        areas_wf(sp.areas),
        pt_wf(sp.pt),
        frames.wf(),
        0 <= k < sp.areas.len(),
        sp.areas[k].start <= rq.addr,
        rq.addr + rq.old_size == sp.areas[k].end,
        rq.addr + rq.new_size <= usize::MAX,
        rq.addr % 0x1000 == 0,
        rq.old_size % 0x1000 == 0,
        rq.new_size % 0x1000 == 0,
        0 < rq.old_size < rq.new_size,
        rq.fixed && rq.new_addr is Some ==> rq.new_addr == Some(rq.addr),
        forall|j: int|
            0 <= j < sp.areas.len() ==> !((#[trigger] sp.areas[j]).start < rq.addr + rq.new_size
                && rq.addr + rq.old_size < sp.areas[j].end),
        sp.areas[k].backend matches Backend::Shared { frame_paddr, .. } ==> aligned_4k(
            frame_paddr as int,
        ),
        sp.areas[k].backend matches Backend::Linear { pa_va_offset } ==> aligned_4k(
            pa_va_offset as int,
        ),
        q % 0x1000 == 0,
        !(rq.addr + rq.old_size <= q < rq.addr + rq.new_size),
    ensures
        ({
            let m = remapped(sp, frames, rq, sizes);
            &&& m.result == Ok::<usize, AxError>(rq.addr)
            &&& pte_at(m.space.pt, q) == pte_at(sp.pt, q)
            &&& lookup(m.space.pt, q) == lookup(sp.pt, q)
            &&& remap_shootdown(sp.asid, m) is None
            &&& exists|j: int|
                0 <= j < m.space.areas.len() && (#[trigger] m.space.areas[j]).start == rq.addr
                    && m.space.areas[j].end == rq.addr + rq.new_size && m.space.areas[j].flags
                    == sp.areas[k].flags
        }),
{
    lemma_area_wf(sp.areas, k);
    lemma_found(sp.areas, k, rq.addr as int);
    lemma_carved(sp.areas, k, rq.addr, rq.old_end());
    let middle = sp.areas[k].part(rq.addr, rq.old_end());
    let cut = carved(sp.areas, k, rq.addr, rq.old_end());
    let new_end = (rq.addr + rq.new_size) as usize;
    assert(!any_meets(sp.areas, rq.old_end() as int, new_end as int)) by {
        if any_meets(sp.areas, rq.old_end() as int, new_end as int) {
            let j = choose|j: int|
                0 <= j < sp.areas.len() && (#[trigger] sp.areas[j]).meets(
                    rq.old_end() as int,
                    new_end as int,
                );
        }
    }
    assert(!any_meets(cut, rq.old_end() as int, new_end as int));
    lemma_grown_is_clear(cut, rq.addr, rq.old_end(), new_end);
    let m = remapped(sp, frames, rq, sizes);
    let backend = middle.backend.moved(rq.addr, rq.addr, rq.new_size);
    if let Backend::Linear { pa_va_offset } = middle.backend {
        lemma_moved_offset(pa_va_offset, rq.addr, rq.addr, rq.old_end());
    }
    lemma_mapping_stays_in_its_range(
        backend,
        sp.pt,
        frames,
        rq.old_end(),
        (rq.new_size - rq.old_size) as usize,
        middle.flags,
        sp.stored(middle.flags),
        sp.limit,
        q,
    );
    let a = MemoryArea { backend, ..middle.part(rq.addr, new_end) };
    assert(!any_meets(cut, 0, 0)) by {
        reveal(areas_wf);
    }
    lemma_put_in(cut, a, 0, 0);
    assert(m.space.areas == with_area(cut, a));
    let j = choose|j: int| 0 <= j < m.space.areas.len() && m.space.areas[j] == a;
    assert(m.space.areas[j].start == rq.addr);
}

/// A mapping that is followed by something cannot grow where it is.
proof fn lemma_remap_blocked(sp: Space, rq: RemapRequest, j: int)
    requires
        areas_wf(sp.areas),
        0 <= j < sp.areas.len(),
        sp.areas[j].start <= rq.addr,
        rq.addr + rq.old_size <= sp.areas[j].end,
        rq.old_size > 0,
        rq.new_size > rq.old_size,
        exists|n: int|
            0 <= n < sp.areas.len() && (#[trigger] sp.areas[n]).start < rq.addr + rq.new_size
                && rq.addr + rq.old_size < sp.areas[n].end,
    ensures
        rq.blocked(
            Space { areas: carved(sp.areas, j, rq.addr, rq.old_end()), ..sp },
            sp.areas[j],
        ),
{
    if rq.old_end() == sp.areas[j].end {
        let n = choose|n: int|
            0 <= n < sp.areas.len() && (#[trigger] sp.areas[n]).start < rq.addr + rq.new_size
                && rq.addr + rq.old_size < sp.areas[n].end;
        let cut = carved(sp.areas, j, rq.addr, rq.old_end());
        let pieces = trimmed(sp.areas[j], rq.addr, rq.old_end());
        reveal(areas_wf);
        assert(n > j) by {
            if n < j {
                assert(sp.areas[n].end <= sp.areas[j].start);
            }
        }
        let at = j + pieces.len() + (n - j - 1);
        assert(cut[at] == sp.areas[n]);
        assert(cut[at].meets(rq.old_end() as int, rq.addr + rq.new_size));
    }
}

/// A request is refused, and no page changes, if it is not made in pages, if no
/// area holds all of the old range, or if the mapping has to grow over something
/// and may not move.
pub proof fn lemma_remap_refused(
    sp: Space,
    frames: FrameState,
    rq: RemapRequest,
    sizes: Seq<(u64, usize)>,
)
    requires
        areas_wf(sp.areas),
        rq.addr + rq.old_size <= usize::MAX,
        rq.addr + rq.new_size <= usize::MAX,
    ensures
        ({
            let m = remapped(sp, frames, rq, sizes);
            let unfit = rq.addr % 0x1000 != 0 || rq.old_size % 0x1000 != 0 || rq.new_size % 0x1000
                != 0 || rq.old_size == 0 || rq.new_size == 0;
            let held = exists|j: int|
                0 <= j < sp.areas.len() && (#[trigger] sp.areas[j]).start <= rq.addr && rq.addr
                    + rq.old_size <= sp.areas[j].end;
            let followed = exists|j: int|
                0 <= j < sp.areas.len() && (#[trigger] sp.areas[j]).start < rq.addr + rq.new_size
                    && rq.addr + rq.old_size < sp.areas[j].end;
            let elsewhere = rq.fixed && rq.new_addr is Some && rq.new_addr != Some(rq.addr);
            &&& unfit ==> m == refused(sp, frames, AxError::InvalidInput)
            &&& !unfit && !held ==> m == refused(sp, frames, AxError::BadAddress)
            &&& !unfit && held && rq.new_size > rq.old_size && followed && !elsewhere
                && !rq.may_move ==> {
                &&& m.result == Err::<usize, AxError>(AxError::NoMemory)
                &&& m.space.pt == sp.pt
                &&& m.frames == frames
                &&& remap_shootdown(sp.asid, m) is None
            }
        }),
{
    let unfit = rq.addr % 0x1000 != 0 || rq.old_size % 0x1000 != 0 || rq.new_size % 0x1000 != 0
        || rq.old_size == 0 || rq.new_size == 0;
    if !unfit {
        lemma_area_index(sp.areas, rq.addr as int);
        if let Some(i) = area_index(sp.areas, rq.addr as int) {
            assert(sp.areas[i].has(rq.addr as int));
        }
        if exists|j: int|
            0 <= j < sp.areas.len() && (#[trigger] sp.areas[j]).start <= rq.addr && rq.addr
                + rq.old_size <= sp.areas[j].end {
            let j = choose|j: int|
                0 <= j < sp.areas.len() && (#[trigger] sp.areas[j]).start <= rq.addr && rq.addr
                    + rq.old_size <= sp.areas[j].end;
            lemma_found(sp.areas, j, rq.addr as int);
            if rq.new_size > rq.old_size && exists|n: int|
                0 <= n < sp.areas.len() && (#[trigger] sp.areas[n]).start < rq.addr + rq.new_size
                    && rq.addr + rq.old_size < sp.areas[n].end {
                lemma_remap_blocked(sp, rq, j);
            }
        }
    }
}

/// What moving the pages of an area does to the translations and the areas.
proof fn lemma_moved_area(
    sp: Space,
    frames: FrameState,
    middle: MemoryArea,
    target: usize,
    new_size: usize,
    page: usize,
)
    requires
        areas_wf(sp.areas),
        pt_wf(sp.pt),
        entries_disjoint(sp.pt),
        middle.wf(),
        aligned_4k(target as int),
        aligned_4k(new_size as int),
        new_size > 0,
        target + new_size <= usize::MAX,
        aligned_4k(page as int),
        middle.start <= page < middle.end,
        !any_meets(sp.areas, target as int, target + new_size),
        moved_to(sp, frames, middle, target, new_size).result is Ok,
    ensures
        ({
            let t = moved_to(sp, frames, middle, target, new_size);
            &&& t.cleared is None
            &&& resident(sp.pt, page) ==> {
                &&& left_behind(sp.asid, t.tracker, t.reclaims) is Some
                &&& list_covers(
                    (left_behind(sp.asid, t.tracker, t.reclaims)->0).0,
                    sp.asid,
                    page as int,
                )
            }
            &&& t.space.areas.contains(
                MemoryArea {
                    start: target,
                    end: (target + new_size) as usize,
                    flags: middle.flags,
                    backend: middle.backend.moved(middle.start, target, new_size),
                },
            )
        }),
{
    let l = lift_pages(
        nothing_lifted(sp.pt),
        middle.start as int,
        middle.end as int,
        middle.start as int,
    );
    lemma_lifted(
        nothing_lifted(sp.pt),
        middle.start as int,
        middle.end as int,
        middle.start as int,
        page,
    );
    let a = MemoryArea {
        start: target,
        end: (target + new_size) as usize,
        flags: middle.flags,
        backend: middle.backend.moved(middle.start, target, new_size),
    };
    assert(!any_meets(sp.areas, 0, 0)) by {
        reveal(areas_wf);
    }
    lemma_put_in(sp.areas, a, 0, 0);
    if resident(sp.pt, page) {
        let list = tracked_list(sp.asid, l.tracker);
        assert(list[0].0 == sp.asid && list[0].1.covers(page as int));
    }
}

/// A mapping that has to grow over something, and may move, goes to the first
/// free place from its old one on; one that is sent elsewhere goes there. Each
/// page that had a frame has it at the new place, with the flags of the area, and
/// the old translation is dropped on every CPU.
#[verifier::rlimit(80)]
#[verifier::spinoff_prover]
pub proof fn lemma_moved_mapping(
    sp: Space,
    frames: FrameState,
    rq: RemapRequest,
    sizes: Seq<(u64, usize)>,
    k: int,
    page: usize,
)
    requires
        areas_wf(sp.areas),
        pt_wf(sp.pt),
        entries_disjoint(sp.pt),
        frames.wf(),
        0 <= k < sp.areas.len(),
        sp.areas[k].start <= rq.addr,
        rq.addr + rq.old_size <= sp.areas[k].end,
        sp.base <= rq.addr,
        rq.addr + rq.new_size <= usize::MAX,
        rq.fixed && rq.new_addr is Some ==> rq.new_addr->0 + rq.old_size <= usize::MAX
            && rq.new_addr->0 + rq.new_size <= usize::MAX,
        rq.fixed ==> rq.new_addr is Some && rq.new_addr != Some(rq.addr),
        !rq.fixed ==> rq.may_move && rq.new_size > rq.old_size && exists|j: int|
            0 <= j < sp.areas.len() && (#[trigger] sp.areas[j]).start < rq.addr + rq.new_size
                && rq.addr + rq.old_size < sp.areas[j].end,
        forall|j: int| #![trigger sp.areas[j]] 0 <= j < sp.areas.len() ==> is_lazy(sp.areas[j].backend),
        remapped(sp, frames, rq, sizes).result is Ok,
        page % 0x1000 == 0,
        rq.addr <= page < rq.addr + rq.old_size,
    ensures
        ({
            let m = remapped(sp, frames, rq, sizes);
            let to = m.result->Ok_0;
            let now = (to + (page - rq.addr)) as usize;
            let before = pte_at(sp.pt, page)->0;
            &&& rq.fixed ==> Some(to) == rq.new_addr
            &&& !rq.fixed ==> to % 0x1000 == 0 && to >= rq.addr && to + rq.new_size <= sp.end
            &&& resident(sp.pt, page) ==> {
                &&& pte_at(m.space.pt, now) is Some
                &&& (pte_at(m.space.pt, now)->0).frame == before.frame - before.frame % 0x1000
                &&& (pte_at(m.space.pt, now)->0).size == PageSize::Size4K
                &&& (pte_at(m.space.pt, now)->0).flags == sp.stored(sp.areas[k].flags)
                &&& remap_shootdown(sp.asid, m) is Some
                &&& list_covers((remap_shootdown(sp.asid, m)->0).0, sp.asid, page as int)
            }
            &&& !(to <= page < to + rq.new_size) && !(to <= page < to + rq.old_size) ==> lookup(
                m.space.pt,
                page,
            ) is None
            &&& exists|j: int|
                0 <= j < m.space.areas.len() && (#[trigger] m.space.areas[j]).start == to
                    && m.space.areas[j].end == to + rq.new_size && m.space.areas[j].flags
                    == sp.areas[k].flags
        }),
{
    lemma_area_wf(sp.areas, k);
    lemma_found(sp.areas, k, rq.addr as int);
    let m = remapped(sp, frames, rq, sizes);
    assert(rq.old_size > 0 && rq.new_size > 0);
    lemma_carved(sp.areas, k, rq.addr, rq.old_end());
    let middle = sp.areas[k].part(rq.addr, rq.old_end());
    let areas = carved(sp.areas, k, rq.addr, rq.old_end());
    let cut = Space { areas, ..sp };
    assert(is_lazy(sp.areas[k].backend));
    assert(!(middle.backend is Shared) && !(middle.backend is Linear));
    if !rq.fixed {
        lemma_remap_blocked(sp, rq, k);
        assert(rq.leaves(cut, sp.areas[k]));
        let target = gap(areas, rq.addr, rq.new_size, sp.base, sp.end)->0;
        lemma_gap_found_is_free(areas, rq.addr, rq.new_size, sp.base, sp.end);
        assert(m == moved_to(cut, frames, middle, target, rq.new_size));
        lemma_moved_page_keeps_its_frame(cut, frames, middle, target, rq.new_size, page);
        lemma_moved_area(cut, frames, middle, target, rq.new_size, page);
        let j = choose|j: int| 0 <= j < m.space.areas.len() && m.space.areas[j] == (MemoryArea {
            start: target,
            end: (target + rq.new_size) as usize,
            flags: middle.flags,
            backend: middle.backend.moved(middle.start, target, rq.new_size),
        });
        assert(m.space.areas[j].start == target);
    } else {
        let dest = rq.new_addr->0;
        let t = unmapped_space(cut, dest, rq.new_size, Reclaims::none(), sizes);
        assert(t.0 is Ok);
        assert forall|j: int|
            0 <= j < areas.len() && (#[trigger] areas[j]).meets(dest as int, dest + rq.new_size) implies is_lazy(
            areas[j].backend,
        ) by {
            let pieces = trimmed(sp.areas[k], rq.addr, rq.old_end());
            if j < k {
                assert(areas[j] == sp.areas[j]);
            } else if j < k + pieces.len() {
                assert(areas[j] == pieces[j - k]);
            } else {
                assert(areas[j] == sp.areas[j - pieces.len() + 1]);
            }
        }
        lemma_unmapped_range_is_gone(cut, dest, rq.new_size, Reclaims::none(), sizes, page);
        lemma_area_index(areas, page as int);
        if let Some(i) = area_index(areas, page as int) {
            assert(areas[i].meets(rq.addr as int, rq.old_end() as int));
        }
        lemma_unmapped_areas_wf(cut, dest, rq.new_size, Reclaims::none(), sizes);
        lemma_moved_page_keeps_its_frame(t.1, frames, middle, dest, rq.new_size, page);
        lemma_moved_area(t.1, frames, middle, dest, rq.new_size, page);
        let now = moved_to(t.1, frames, middle, dest, rq.new_size);
        let j = choose|j: int| 0 <= j < m.space.areas.len() && m.space.areas[j] == (MemoryArea {
            start: dest,
            end: (dest + rq.new_size) as usize,
            flags: middle.flags,
            backend: middle.backend.moved(middle.start, dest, rq.new_size),
        });
        assert(m.space.areas[j].start == dest);
        if resident(sp.pt, page) && m.cleared is Some {
            lemma_merge_all_covers(
                (m.cleared->0).0,
                (left_behind(sp.asid, m.tracker, m.reclaims)->0).0,
                sp.asid,
                page as int,
            );
        }
    }
}

} // verus!
