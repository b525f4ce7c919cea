//! What new pages of anonymous memory show.
use vstd::prelude::*;

use super::anon::{
    anon_install, anon_install_one, anon_installed, anon_left_over, lemma_after_allocs,
    spec_fault_alloc, unbacked_run, AnonInstall, AnonPages,
};
use super::area::{areas_wf, entered, MemoryArea};
use super::aspace::Space;
use super::backend::Backend;
use super::fault::{fault_on, Fault, Memory};
use super::file_map::FileReadAheadState;
use super::flags::{spec_effective_pte_flags, MappingFlags};
use super::frame_table::{fresh_frames, usable_frame, FrameState};
use super::paging::{
    aligned_4k, entries_disjoint, leaf, lemma_changed_entry, lemma_entry_in_free_range, lemma_gap,
    lemma_lookup_finds, lookup, offset_in, page_of, pt_wf, pte_at, range_free, repointable,
    resident, shown_frame, small_gaps, PageSize, Pte, PtMap,
};
use super::populate::mapped;
use super::reclaim::Reclaims;
use super::space_fault::{faulted, faulted_with_frames, faulted_write, stack_above};
use super::space_ops::{discard_areas, lemma_discarded_pages_are_gone};
use super::unmap::Unmapping;

verus! {

/// Pages that had no frame and now have one show a frame of `fresh`.
pub open spec fn gains_only(before: PtMap, after: PtMap, fresh: Set<usize>) -> bool {
    forall|q: usize|
        aligned_4k(q as int) && !resident(before, q) && #[trigger] resident(after, q)
            ==> fresh.contains(shown_frame(after, q))
}

/// Where only small pages wait for a frame, a page with one has an entry with
/// one.
proof fn lemma_backed_entry(m: PtMap, page: usize)
    requires
        small_gaps(m),
        aligned_4k(page as int),
        resident(m, page),
    ensures
        m.contains_key(lookup(m, page)->0),
        m[lookup(m, page)->0].frame != 0,
{
    lemma_lookup_finds(m, page);
}

/// A frame put into an entry is all that is gained by it.
proof fn lemma_change_gains(before: PtMap, m: PtMap, b: usize, e: Pte, fresh: Set<usize>)
    requires
        gains_only(before, m, fresh),
        pt_wf(m),
        small_gaps(m),
        m.contains_key(b),
        m[b].size == e.size,
        e.frame + e.size.spec_bytes() <= usize::MAX,
        e.frame != 0,
        (m[b].frame == 0 && fresh.contains(e.frame)) || (before == m && m[b].frame != 0),
    ensures
        gains_only(before, m.insert(b, e), fresh),
        small_gaps(m.insert(b, e)),
        pt_wf(m.insert(b, e)),
{
    let m2 = m.insert(b, e);
    assert forall|x: usize| #[trigger] m2.contains_key(x) implies offset_in(x, m2[x].size) == 0
        && m2[x].frame + m2[x].size.spec_bytes() <= usize::MAX && (m2[x].frame == 0 ==> m2[x].size
        == PageSize::Size4K) by {
        assert(m.contains_key(x));
    }
    assert forall|q: usize|
        aligned_4k(q as int) && !resident(before, q) && #[trigger] resident(m2, q) implies fresh.contains(
        shown_frame(m2, q),
    ) by {
        lemma_changed_entry(m, b, e, q);
        if lookup(m, q) != Some(b) || m[b].frame != 0 {
            if lookup(m, q) is Some {
                lemma_lookup_finds(m, q);
            }
            assert(resident(m, q));
        }
    }
}

/// So is a new page.
proof fn lemma_leaf_gains(before: PtMap, m: PtMap, page: usize, e: Pte, fresh: Set<usize>)
    requires
        gains_only(before, m, fresh),
        pt_wf(m),
        small_gaps(m),
        aligned_4k(page as int),
        e == leaf(e.frame, e.flags),
        usable_frame(e.frame),
        lookup(m, page) is None,
        fresh.contains(e.frame),
    ensures
        gains_only(before, m.insert(page, e), fresh),
        pt_wf(m.insert(page, e)),
        small_gaps(m.insert(page, e)),
{
    let m2 = m.insert(page, e);
    assert(range_free(m, page, 0x1000)) by {
        assert forall|x: usize|
            page <= x < page + 0x1000 && aligned_4k(x as int) implies #[trigger] lookup(m, x) is None by {
            assert(x == page);
        }
    }
    lemma_entry_in_free_range(m, page, e, page);
    assert forall|x: usize| #[trigger] m2.contains_key(x) && m2[x].frame == 0 implies m2[x].size
        == PageSize::Size4K by {
        assert(x == page || m.contains_key(x));
    }
    assert forall|q: usize|
        aligned_4k(q as int) && !resident(before, q) && #[trigger] resident(m2, q) implies fresh.contains(
        shown_frame(m2, q),
    ) by {
        lemma_entry_in_free_range(m, page, e, q);
        if !(page <= q < page + 0x1000) {
            assert(resident(m, q));
        }
    }
}

/// Mapping frames in a row gains no other frames.
proof fn lemma_install_gains(
    before: PtMap,
    a: AnonInstall,
    p: AnonPages,
    i: int,
    area_end: usize,
    stored: MappingFlags,
    limit: usize,
    fresh: Set<usize>,
)
    requires
        0 <= i,
        gains_only(before, a.pt, fresh),
        pt_wf(a.pt),
        small_gaps(a.pt),
        p.wf(),
        aligned_4k(p.page as int),
        forall|k: int| 0 <= k < p.frames.len() ==> fresh.contains(#[trigger] p.frames[k]),
    ensures
        gains_only(before, anon_install(a, p, i, area_end, stored, limit).pt, fresh),
    decreases p.frames.len() - i,
{
    if i < p.frames.len() && a.going {
        let n = anon_install_one(a, p, i, area_end, stored, limit);
        let at = p.page + i * 0x1000;
        let page = at as usize;
        let f = p.frames[i];
        assert(usable_frame(f) && fresh.contains(f));
        if at < area_end && !resident(a.pt, page) {
            match lookup(a.pt, page) {
                Some(b) => {
                    lemma_lookup_finds(a.pt, page);
                    lemma_gap(a.pt, page);
                    let e = Pte { frame: f, flags: stored, size: a.pt[b].size };
                    lemma_change_gains(before, a.pt, b, e, fresh);
                },
                None => {
                    assert(aligned_4k(page as int));
                    if a.pt.len() < limit {
                        lemma_leaf_gains(before, a.pt, page, leaf(f, stored), fresh);
                    }
                },
            }
        }
        lemma_install_gains(before, n, p, i + 1, area_end, stored, limit, fresh);
    }
}

/// Giving up frames puts none at hand.
proof fn lemma_dealloc_keeps_available(s: FrameState, frames: Seq<usize>)
    ensures
        s.dealloc_all(frames).available == s.available,
    decreases frames.len(),
{
    if frames.len() > 0 {
        lemma_dealloc_keeps_available(s, frames.drop_last());
    }
}

/// The frames that are taken for a fault before it is answered are fresh.
pub proof fn lemma_prepared_frames_are_fresh(s: FrameState, n: nat)
    requires
        s.wf(),
        n <= s.available.len(),
    ensures
        forall|k: int|
            0 <= k < n ==> usable_frame(#[trigger] s.next_frames(n)[k]) && fresh_frames(
                s,
                s.after_allocs(n),
                None,
            ).contains(s.next_frames(n)[k]),
{
    lemma_after_allocs(s, n);
    let rest = s.available.take(s.available.len() - n);
    assert forall|k: int| 0 <= k < n implies usable_frame(#[trigger] s.next_frames(n)[k])
        && fresh_frames(s, s.after_allocs(n), None).contains(s.next_frames(n)[k]) by {
        let j = s.available.len() - 1 - k;
        let f = s.available[j];
        if rest.contains(f) {
            let i = choose|i: int| 0 <= i < rest.len() && rest[i] == f;
            assert(s.available[i] == f);
        }
    }
}

/// A fault on anonymous memory that the frames at hand answer gains fresh
/// frames only.
proof fn lemma_alloc_fault_gains(
    pt: PtMap,
    frames: FrameState,
    page: usize,
    area_end: usize,
    orig: MappingFlags,
    write_implies_read: bool,
    limit: usize,
    populate: bool,
)
    requires
        pt_wf(pt),
        small_gaps(pt),
        repointable(pt, page),
        frames.wf(),
        aligned_4k(page as int),
    ensures
        ({
            let t = spec_fault_alloc(
                pt,
                frames,
                page,
                area_end,
                orig,
                write_implies_read,
                limit,
                populate,
            );
            gains_only(pt, t.2, fresh_frames(frames, t.3, None))
        }),
{
    let n = unbacked_run(pt, page, area_end, 0);
    super::anon::lemma_unbacked_run_bounds(pt, page, area_end, 0);
    let stored = spec_effective_pte_flags(orig, write_implies_read);
    let end = spec_fault_alloc(
        pt,
        frames,
        page,
        area_end,
        orig,
        write_implies_read,
        limit,
        populate,
    );
    let fresh = fresh_frames(frames, end.3, None);
    if !populate && n > 0 {
        let k = if n < frames.available.len() {
            n
        } else {
            frames.available.len()
        };
        if k > 0 {
            let p = AnonPages {
                page,
                frames: frames.next_frames(k),
                mapped: Seq::new(k, |i: int| false),
            };
            let a = anon_installed(p, pt, page, area_end, stored, limit);
            lemma_prepared_frames_are_fresh(frames, k);
            lemma_dealloc_keeps_available(
                frames.after_allocs(k),
                anon_left_over(p.frames, a.mapped),
            );
            lemma_install_gains(
                pt,
                AnonInstall {
                    pt,
                    mapped: p.mapped,
                    handled: false,
                    flushed: Seq::empty(),
                    going: true,
                },
                p,
                0,
                area_end,
                stored,
                limit,
                fresh,
            );
        }
    } else if frames.available.len() > 0 {
        let f = frames.available.last();
        assert(frames.available[frames.available.len() - 1] == f);
        assert(frames.after_allocs(0) == frames);
        assert(frames.after_allocs(1) == frames.after_alloc()) by {
            reveal_with_fuel(FrameState::after_allocs, 2);
        }
        lemma_prepared_frames_are_fresh(frames, 1);
        assert(frames.next_frames(1)[0] == f);
        match pte_at(pt, page) {
            Some(e) => {
                lemma_lookup_finds(pt, page);
                let b = lookup(pt, page)->0;
                if resident(pt, page) {
                    lemma_backed_entry(pt, page);
                } else {
                    lemma_gap(pt, page);
                }
                if e.flags == MappingFlags::spec_empty() || !resident(pt, page) {
                    if !populate {
                        lemma_change_gains(
                            pt,
                            pt,
                            b,
                            Pte { frame: f, flags: stored, size: e.size },
                            fresh,
                        );
                    }
                } else {
                    lemma_change_gains(
                        pt,
                        pt,
                        b,
                        Pte {
                            frame: shown_frame(pt, page),
                            flags: spec_effective_pte_flags(e.flags.joined(orig), write_implies_read),
                            size: e.size,
                        },
                        fresh,
                    );
                }
            },
            None => {
                if pt.len() < limit {
                    lemma_leaf_gains(pt, pt, page, leaf(f, stored), fresh);
                }
            },
        }
    } else if resident(pt, page) {
        lemma_backed_entry(pt, page);
        let b = lookup(pt, page)->0;
        let e = pt[b];
        lemma_change_gains(
            pt,
            pt,
            b,
            Pte {
                frame: shown_frame(pt, page),
                flags: spec_effective_pte_flags(e.flags.joined(orig), write_implies_read),
                size: e.size,
            },
            fresh,
        );
    }
}

/// A fault on any mapping gains fresh frames only.
proof fn lemma_fault_gains(backend: Backend, f: Fault, m: Memory, sizes: Seq<(u64, usize)>)
    requires
        pt_wf(m.pt),
        small_gaps(m.pt),
        repointable(m.pt, f.page),
        m.frames.wf(),
        aligned_4k(f.page as int),
    ensures
        ({
            let a = fault_on(backend, f, m, sizes);
            &&& gains_only(m.pt, a.memory.pt, fresh_frames(m.frames, a.memory.frames, a.copied))
            &&& !a.handled ==> a.copied is None
        }),
    decreases backend,
{
    let a = fault_on(backend, f, m, sizes);
    let fresh = fresh_frames(m.frames, a.memory.frames, a.copied);
    match backend {
        Backend::Shared { .. } | Backend::Linear { .. } => {},
        Backend::Alloc { populate, .. } => {
            lemma_alloc_fault_gains(
                m.pt,
                m.frames,
                f.page,
                f.area_end,
                f.orig,
                f.write_implies_read,
                f.limit,
                populate,
            );
        },
        _ => {
            if backend is Cow && !(resident(m.pt, f.page) && f.wants_copy(
                pte_at(m.pt, f.page)->0,
            )) {
                lemma_fault_gains(*backend->Cow_0.inner, f, m, sizes);
            } else if resident(m.pt, f.page) {
                lemma_backed_entry(m.pt, f.page);
                if m.frames.available.len() > 0 {
                    assert(usable_frame(m.frames.available[m.frames.available.len() - 1]));
                }
                let b = lookup(m.pt, f.page)->0;
                if a.memory.pt != m.pt {
                    let e = a.memory.pt[b];
                    assert(a.memory.pt == m.pt.insert(b, e));
                    lemma_change_gains(m.pt, m.pt, b, e, fresh);
                }
            }
        },
    }
}

/// A page that a fault gives a frame shows one that was at hand and that
/// nothing was copied to, so that it reads as zeroes. No larger page may be
/// mapped to the start of memory.
pub proof fn lemma_new_pages_are_fresh(
    sp: Space,
    vaddr: usize,
    access: MappingFlags,
    frames: FrameState,
    sizes: Seq<(u64, usize)>,
    ra: FileReadAheadState,
)
    requires
        pt_wf(sp.pt),
        small_gaps(sp.pt),
        repointable(sp.pt, page_of(vaddr)),
        frames.wf(),
    ensures
        ({
            let e = faulted(sp, vaddr, access, frames, sizes, ra);
            gains_only(sp.pt, e.space.pt, fresh_frames(frames, e.frames, e.copied))
        }),
{
    let page = page_of(vaddr);
    if sp.area_at(vaddr as int) is Some {
        let area = sp.area_at(vaddr as int)->0;
        let f = Fault {
            page,
            area_end: area.end,
            orig: area.flags,
            access,
            write_implies_read: sp.write_implies_read,
            limit: sp.limit,
        };
        let m = Memory { pt: sp.pt, frames, reclaims: Reclaims::none() };
        lemma_fault_gains(area.backend, f, m, sizes);
    }
}

/// So does a page of a stack that grows for a fault.
pub proof fn lemma_new_stack_pages_are_fresh(
    sp: Space,
    vaddr: usize,
    access: MappingFlags,
    frames: FrameState,
    sizes: Seq<(u64, usize)>,
    ra: FileReadAheadState,
)
    requires
        pt_wf(sp.pt),
        small_gaps(sp.pt),
        repointable(sp.pt, page_of(vaddr)),
        frames.wf(),
    ensures
        ({
            let e = faulted_write(sp, vaddr, access, frames, sizes, ra);
            gains_only(sp.pt, e.space.pt, fresh_frames(frames, e.frames, e.copied))
        }),
{
    let page = page_of(vaddr);
    reveal(mapped);
    if stack_above(sp.areas, page) is Some {
        let flags = stack_above(sp.areas, page)->0;
        let area = MemoryArea {
            start: page,
            end: (page + 0x1000) as usize,
            flags,
            backend: Backend::Alloc { populate: false, grows_down: true },
        };
        let t = entered(sp.areas, area, sp.pt, frames, sp.stored(flags), sp.limit);
        lemma_new_pages_are_fresh(
            Space { areas: t.1, pt: t.2, ..sp },
            vaddr,
            access,
            t.3,
            sizes,
            ra,
        );
    }
}

/// A page that a fault with frames that were taken for it gives a frame shows one
/// of them, or one that was at hand.
pub proof fn lemma_new_pages_show_prepared_frames(
    sp: Space,
    vaddr: usize,
    access: MappingFlags,
    p: AnonPages,
    frames: FrameState,
    sizes: Seq<(u64, usize)>,
    ra: FileReadAheadState,
)
    requires
        pt_wf(sp.pt),
        small_gaps(sp.pt),
        repointable(sp.pt, page_of(vaddr)),
        frames.wf(),
        p.wf(),
    ensures
        ({
            let e = faulted_with_frames(sp, vaddr, access, p, frames, sizes, ra).0;
            gains_only(
                sp.pt,
                e.space.pt,
                fresh_frames(frames, e.frames, e.copied).union(p.frames.to_set()),
            )
        }),
{
    let page = page_of(vaddr);
    let e = faulted_with_frames(sp, vaddr, access, p, frames, sizes, ra).0;
    let fresh = fresh_frames(frames, e.frames, e.copied).union(p.frames.to_set());
    lemma_new_pages_are_fresh(sp, vaddr, access, frames, sizes, ra);
    if sp.area_at(vaddr as int) is Some && p.page == page {
        let area = sp.area_at(vaddr as int)->0;
        assert forall|k: int| 0 <= k < p.frames.len() implies fresh.contains(
            #[trigger] p.frames[k],
        ) by {
            assert(p.frames.contains(p.frames[k]));
        }
        lemma_install_gains(
            sp.pt,
            AnonInstall {
                pt: sp.pt,
                mapped: p.mapped,
                handled: false,
                flushed: Seq::empty(),
                going: true,
            },
            p,
            0,
            area.end,
            sp.stored(area.flags),
            sp.limit,
            fresh,
        );
    }
}

/// A discarded page of anonymous memory that the next fault gives a frame again
/// shows a fresh one: what it held is gone.
pub proof fn lemma_discarded_pages_come_back_fresh(
    u: Unmapping,
    s: Seq<MemoryArea>,
    k: int,
    lo: usize,
    hi: usize,
    q: usize,
    sp: Space,
    vaddr: usize,
    access: MappingFlags,
    p: AnonPages,
    frames: FrameState,
    sizes: Seq<(u64, usize)>,
    ra: FileReadAheadState,
)
    requires
        lo < hi,
        aligned_4k(lo as int),
        aligned_4k(hi as int),
        areas_wf(s),
        pt_wf(u.pt),
        entries_disjoint(u.pt),
        u.ok,
        discard_areas(u, s, 0, lo, hi, sizes).ok,
        0 <= k < s.len(),
        s[k].backend.spec_discardable(),
        s[k].has(q as int),
        lo <= q < hi,
        aligned_4k(q as int),
        sp.pt == discard_areas(u, s, 0, lo, hi, sizes).pt,
        pt_wf(sp.pt),
        small_gaps(sp.pt),
        repointable(sp.pt, page_of(vaddr)),
        frames.wf(),
        p.wf(),
    ensures
        !resident(sp.pt, q),
        ({
            let e = faulted_with_frames(sp, vaddr, access, p, frames, sizes, ra).0;
            resident(e.space.pt, q) ==> p.frames.contains(shown_frame(e.space.pt, q))
                || fresh_frames(frames, e.frames, e.copied).contains(shown_frame(e.space.pt, q))
        }),
{
    lemma_discarded_pages_are_gone(u, s, 0, lo, hi, sizes, q);
    lemma_new_pages_show_prepared_frames(sp, vaddr, access, p, frames, sizes, ra);
}

} // verus!
