//! Address spaces.
use vstd::prelude::*;

use crate::error::{mapping_err_to_ax_err, AxError, AxResult};

use super::area::{
    any_meets, area_index, areas_wf, gap, held, lemma_area_index, lemma_unmap_areas_hold,
    lemma_unmap_areas_wf, lemma_unmap_areas_within, max_of, min_of, trimmed, unmap_areas,
    unmap_part, MemoryArea, MemorySet, SetUnmapping,
};
use super::backend::Backend;
use super::file_map::FileSizes;
use super::flags::MappingFlags;
use super::paging::{
    aligned_4k, cuts_no_page, entries_disjoint, is_aligned_4k, lookup, pt_wf, pte_at, resident,
    shown_frame, PageSize, PageTable, PtMap,
};
use super::reclaim::{DeferredReclaims, Reclaims, TlbInvalidationTracker};
use super::retire::AddrSpaceUnmapPreparation;
use super::tlb::{leave_behind, left_behind, shootdown_of, AddrSpaceMutation, TlbShootdown};
use super::unmap::{
    is_lazy, lemma_unmapped_part_is_empty, lemma_unmapped_part_is_given_back, takeable, unmapping,
};

verus! {

/// A virtual address space: its areas and its page table.
pub struct AddrSpace {
    pub(crate) base: usize,
    pub(crate) end: usize,
    pub(crate) areas: MemorySet,
    pub(crate) pt: PageTable,
    pub(crate) asid: usize,
}

/// What an address space holds.
pub ghost struct Space {
    pub base: usize,
    pub end: usize,
    pub areas: Seq<MemoryArea>,
    pub pt: PtMap,
    pub write_implies_read: bool,
    pub limit: usize,
    pub asid: usize,
}

impl Space {
    /// Whether `[start, start + size)` lies in the space.
    pub open spec fn has_range(self, start: usize, size: usize) -> bool {
        self.base <= start && start + size <= self.end
    }

    /// The flags that an entry holds after `flags` were written to it.
    pub open spec fn stored(self, flags: MappingFlags) -> MappingFlags {
        super::flags::spec_effective_pte_flags(flags, self.write_implies_read)
    }

    /// The area around `a`.
    pub open spec fn area_at(self, a: int) -> Option<MemoryArea> {
        match area_index(self.areas, a) {
            Some(i) => Some(self.areas[i]),
            None => None,
        }
    }
}

/// What taking `[start, start + size)` out of a space leads to: the result,
/// the space, what has changed and what waits.
pub open spec fn unmapped_space(
    sp: Space,
    start: usize,
    size: usize,
    reclaims: Reclaims,
    sizes: Seq<(u64, usize)>,
) -> (AxResult<()>, Space, TlbInvalidationTracker, Reclaims) {
    let nothing = TlbInvalidationTracker::nothing();
    if !sp.has_range(start, size) || !aligned_4k(start as int) || !aligned_4k(size as int) {
        (Err(AxError::InvalidInput), sp, nothing, reclaims)
    } else if !any_meets(sp.areas, start as int, start + size) || size == 0 {
        (Ok(()), sp, nothing, reclaims)
    } else {
        let t = unmap_areas(
            SetUnmapping {
                ok: true,
                kept: Seq::empty(),
                u: unmapping(sp.pt, reclaims, nothing),
            },
            sp.areas,
            0,
            start,
            (start + size) as usize,
            sizes,
        );
        (
            if t.ok {
                Ok(())
            } else {
                Err(AxError::BadState)
            },
            Space { areas: t.kept, pt: t.u.pt, ..sp },
            t.u.tracker,
            t.u.reclaims,
        )
    }
}

impl AddrSpace {
    pub closed spec fn view(&self) -> Space {
        Space {
            base: self.base,
            end: self.end,
            areas: self.areas@,
            pt: self.pt@,
            write_implies_read: self.pt.wr(),
            limit: self.pt.limit(),
            asid: self.asid,
        }
    }

    /// The areas do not meet, the page table is well formed, and the space
    /// does not reach into the last page.
    pub closed spec fn wf(&self) -> bool {
        &&& self.areas.wf()
        &&& self.pt.wf()
        &&& self.base <= self.end
        &&& self.end <= usize::MAX - 0xfff
    }

    /// What can be said of the parts of a space.
    pub(crate) proof fn lemma_parts(&self)
        ensures
            self@.areas == self.areas@,
            self@.pt == self.pt@,
            self@.write_implies_read == self.pt.wr(),
            self@.limit == self.pt.limit(),
            self@.base == self.base,
            self@.end == self.end,
            self@.asid == self.asid,
            self.wf() <==> self.areas.wf() && self.pt.wf() && self@.base <= self@.end && self@.end
                <= usize::MAX - 0xfff,
            forall|f: MappingFlags| #[trigger] self.pt.stored(f) == self@.stored(f),
    {
    }

    /// A space without any area over `[base, base + size)`.
    pub fn new_empty(base: usize, size: usize, asid: usize, pt: PageTable) -> (r: Self)
        requires
            base + size <= usize::MAX - 0xfff,
            pt.wf(),
        ensures
            r.wf(),
            r@ == (Space {
                base,
                end: (base + size) as usize,
                areas: Seq::empty(),
                pt: pt@,
                write_implies_read: pt.wr(),
                limit: pt.limit(),
                asid,
            }),
    {
        AddrSpace {
            base,
            end: base + size,
            areas: MemorySet::new(),
            pt,
            asid,
        }
    }

    pub fn base(&self) -> (r: usize)
        ensures
            r == self@.base,
    {
        self.base
    }

    pub fn end(&self) -> (r: usize)
        ensures
            r == self@.end,
    {
        self.end
    }

    pub fn size(&self) -> (r: usize)
        requires
            self.wf(),
        ensures
            r == self@.end - self@.base,
    {
        self.end - self.base
    }

    pub fn asid(&self) -> (r: usize)
        ensures
            r == self@.asid,
    {
        self.asid
    }

    /// What `vaddr` is translated to.
    pub fn query_vaddr(&self, vaddr: usize) -> (r: Option<(usize, MappingFlags, PageSize)>)
        requires
            self.wf(),
        ensures
            r == match pte_at(self@.pt, vaddr) {
                Some(e) => Some((shown_frame(self@.pt, vaddr), e.flags, e.size)),
                None => None,
            },
    {
        self.pt.query(vaddr)
    }

    /// Whether `[start, start + size)` lies in the space.
    pub fn contains_range(&self, start: usize, size: usize) -> (r: bool)
        ensures
            r == self@.has_range(start, size),
    {
        match start.checked_add(size) {
            Some(end) => self.base <= start && end <= self.end,
            None => false,
        }
    }

    /// Whether an area meets `[start, start + size)`.
    pub fn has_overlap(&self, start: usize, size: usize) -> (r: bool)
        ensures
            r == (start + size <= usize::MAX && any_meets(
                self@.areas,
                start as int,
                start + size,
            )),
    {
        match start.checked_add(size) {
            Some(end) => self.areas.overlaps(start, end),
            None => false,
        }
    }

    /// The first free range of `size` bytes from the hint on, within the limits.
    pub fn find_free_area(&self, hint: usize, size: usize, limit_start: usize, limit_end: usize) -> (r:
        Option<usize>)
        requires
            self.wf(),
            hint <= usize::MAX - 0xfff,
            limit_start <= usize::MAX - 0xfff,
        ensures
            r == gap(self@.areas, hint, size, limit_start, limit_end),
            r matches Some(a) ==> aligned_4k(a as int) && a >= hint && a >= limit_start && a + size
                <= limit_end && !any_meets(self@.areas, a as int, a + size),
    {
        self.areas.find_free_area(hint, size, limit_start, limit_end)
    }

    /// Takes a range out of the space; what changed and what waits is added to
    /// `tracker` and `reclaim`.
    pub(crate) fn unmap_range(
        &mut self,
        start: usize,
        size: usize,
        sizes: &FileSizes,
        reclaim: &mut DeferredReclaims,
        tracker: &mut TlbInvalidationTracker,
    ) -> (r: AxResult<()>)
        requires
            old(self).wf(),
            old(reclaim)@.retirement is None,
            *old(tracker) == TlbInvalidationTracker::nothing(),
        ensures
            final(self).wf(),
            final(reclaim)@.retirement is None,
            (r, final(self)@, *final(tracker), final(reclaim)@) == unmapped_space(
                old(self)@,
                start,
                size,
                old(reclaim)@,
                sizes@,
            ),
    {
        if !self.contains_range(start, size) {
            return Err(AxError::InvalidInput);
        }
        if !is_aligned_4k(start) || !is_aligned_4k(size) {
            return Err(AxError::InvalidInput);
        }
        if !self.has_overlap(start, size) || size == 0 {
            return Ok(());
        }
        match self.areas.unmap_tracked(
            start,
            start + size,
            sizes,
            &mut self.pt,
            reclaim,
            tracker,
        ) {
            Ok(()) => Ok(()),
            Err(e) => Err(mapping_err_to_ax_err(e)),
        }
    }

    /// Takes a range out of the space, with the reclaim storage at hand.
    pub fn unmap_prepared(
        &mut self,
        start: usize,
        size: usize,
        sizes: &FileSizes,
        preparation: AddrSpaceUnmapPreparation,
    ) -> (r: AddrSpaceMutation<()>)
        requires
            old(self).wf(),
            preparation.reclaims().retirement is None,
        ensures
            final(self).wf(),
            ({
                let t = unmapped_space(old(self)@, start, size, preparation.reclaims(), sizes@);
                &&& r.result == t.0
                &&& final(self)@ == t.1
                &&& shootdown_of(r.shootdown) == left_behind(old(self)@.asid, t.2, t.3)
            }),
            r.shootdown matches Some(s) ==> s.wf(),
    {
        let mut reclaim: DeferredReclaims = preparation.into_reclaims();
        let mut tracker: TlbInvalidationTracker = TlbInvalidationTracker::default();
        let result: AxResult<()> = self.unmap_range(
            start,
            size,
            sizes,
            &mut reclaim,
            &mut tracker,
        );
        let shootdown: Option<TlbShootdown> = leave_behind(self.asid, tracker, reclaim);
        AddrSpaceMutation { result, shootdown }
    }

    /// Takes a range out of the space.
    pub fn unmap(&mut self, start: usize, size: usize, sizes: &FileSizes) -> (r: AddrSpaceMutation<
        (),
    >)
        requires
            old(self).wf(),
        ensures
            final(self).wf(),
            ({
                let t = unmapped_space(old(self)@, start, size, Reclaims::none(), sizes@);
                &&& r.result == t.0
                &&& final(self)@ == t.1
                &&& shootdown_of(r.shootdown) == left_behind(old(self)@.asid, t.2, t.3)
            }),
            r.shootdown matches Some(s) ==> s.wf(),
    {
        self.unmap_prepared(start, size, sizes, AddrSpaceUnmapPreparation::default())
    }
}

/// What taking `[lo, hi)` out of the areas from the `i`-th on does to a page.
proof fn lemma_unmapped_page(
    t: SetUnmapping,
    s: Seq<MemoryArea>,
    i: int,
    lo: usize,
    hi: usize,
    sizes: Seq<(u64, usize)>,
    q: usize,
)
    requires
        0 <= i <= s.len(),
        lo < hi,
        aligned_4k(lo as int),
        aligned_4k(hi as int),
        areas_wf(s),
        forall|k: int|
            i <= k < s.len() && (#[trigger] s[k]).meets(lo as int, hi as int) ==> is_lazy(
                s[k].backend,
            ) || cuts_no_page(t.u.pt, max_of(s[k].start, lo)),
        pt_wf(t.u.pt),
        entries_disjoint(t.u.pt),
        t.u.ok,
        unmap_areas(t, s, i, lo, hi, sizes).ok,
        aligned_4k(q as int),
    ensures
        ({
            let now = unmap_areas(t, s, i, lo, hi, sizes).u.pt;
            let inside = lo <= q < hi && exists|k: int| i <= k < s.len() && (#[trigger] s[k]).has(
                q as int,
            );
            &&& pt_wf(now)
            &&& entries_disjoint(now)
            &&& inside ==> lookup(now, q) is None
            &&& !inside ==> lookup(now, q) == lookup(t.u.pt, q) && pte_at(now, q) == pte_at(
                t.u.pt,
                q,
            )
        }),
    decreases s.len() - i,
{
    reveal(areas_wf);
    if i < s.len() {
        assert(s[i].wf());
        if !s[i].meets(lo as int, hi as int) {
            lemma_unmapped_page(
                SetUnmapping { kept: t.kept.push(s[i]), ..t },
                s,
                i + 1,
                lo,
                hi,
                sizes,
                q,
            );
            if lo <= q < hi && exists|k: int| i <= k < s.len() && (#[trigger] s[k]).has(q as int) {
                let k = choose|k: int| i <= k < s.len() && (#[trigger] s[k]).has(q as int);
                assert(k != i);
                assert(i + 1 <= k < s.len() && s[k].has(q as int));
            }
        } else {
            let u = unmap_part(s[i], t.u, lo, hi, sizes);
            assert(u.ok);
            let start = max_of(s[i].start, lo);
            lemma_unmapped_part_is_empty(
                s[i].backend,
                t.u,
                start,
                (min_of(s[i].end, hi) - start) as usize,
                sizes,
                q,
            );
            assert forall|k: int|
                i + 1 <= k < s.len() && (#[trigger] s[k]).meets(lo as int, hi as int) implies is_lazy(
                s[k].backend,
            ) || cuts_no_page(u.pt, max_of(s[k].start, lo)) by {
                assert(s[i].end <= s[k].start);
                assert(s[k].wf());
                lemma_unmapped_part_is_empty(
                    s[i].backend,
                    t.u,
                    start,
                    (min_of(s[i].end, hi) - start) as usize,
                    sizes,
                    max_of(s[k].start, lo),
                );
            }
            lemma_unmapped_page(
                SetUnmapping { ok: true, kept: t.kept + trimmed(s[i], lo, hi), u },
                s,
                i + 1,
                lo,
                hi,
                sizes,
                q,
            );
            if s[i].has(q as int) {
                assert forall|k: int| i + 1 <= k < s.len() implies !(#[trigger] s[k]).has(
                    q as int,
                ) by {
                    assert(s[i].end <= s[k].start);
                }
            } else if exists|k: int| i <= k < s.len() && (#[trigger] s[k]).has(q as int) {
                let k = choose|k: int| i <= k < s.len() && (#[trigger] s[k]).has(q as int);
                assert(i + 1 <= k < s.len() && s[k].has(q as int));
            }
        }
    }
}

/// Once a range was unmapped, no area meets it and none of its mapped pages is
/// translated; every page outside of it is as it was. Larger pages, which shared
/// and linear areas can have, may not reach across the start of what is taken
/// out of an area.
pub proof fn lemma_unmapped_range_is_gone(
    sp: Space,
    start: usize,
    size: usize,
    reclaims: Reclaims,
    sizes: Seq<(u64, usize)>,
    q: usize,
)
    requires
        areas_wf(sp.areas),
        forall|k: int|
            0 <= k < sp.areas.len() && (#[trigger] sp.areas[k]).meets(start as int, start + size)
                ==> is_lazy(sp.areas[k].backend) || cuts_no_page(
                sp.pt,
                max_of(sp.areas[k].start, start),
            ),
        pt_wf(sp.pt),
        entries_disjoint(sp.pt),
        aligned_4k(q as int),
        size > 0,
        unmapped_space(sp, start, size, reclaims, sizes).0 is Ok,
    ensures
        ({
            let now = unmapped_space(sp, start, size, reclaims, sizes).1;
            &&& !any_meets(now.areas, start as int, start + size)
            &&& pt_wf(now.pt)
            &&& entries_disjoint(now.pt)
            &&& start <= q < start + size && area_index(sp.areas, q as int) is Some ==> lookup(
                now.pt,
                q,
            ) is None
            &&& !(start <= q < start + size) || area_index(sp.areas, q as int) is None ==> lookup(
                now.pt,
                q,
            ) == lookup(sp.pt, q) && pte_at(now.pt, q) == pte_at(sp.pt, q)
        }),
{
    lemma_area_index(sp.areas, q as int);
    if area_index(sp.areas, q as int) is Some {
        lemma_area_index(sp.areas, q as int);
    }
    let end = (start + size) as usize;
    if any_meets(sp.areas, start as int, start + size) {
        let t = SetUnmapping {
            ok: true,
            kept: Seq::empty(),
            u: unmapping(sp.pt, reclaims, TlbInvalidationTracker::nothing()),
        };
        lemma_unmapped_page(t, sp.areas, 0, start, end, sizes, q);
        reveal(areas_wf);
        assert forall|k: int| 0 <= k < sp.areas.len() implies !(#[trigger] sp.areas[k]).meets(0, 0) by {}
        lemma_unmap_areas_within(t, sp.areas, 0, start, end, sizes, 0, 0);
    } else if start <= q < start + size && area_index(sp.areas, q as int) is Some {
        let k = area_index(sp.areas, q as int)->0;
        assert(sp.areas[k].meets(start as int, start + size));
    }
}

/// What is left of a space is in order.
pub(crate) proof fn lemma_unmapped_areas_wf(
    sp: Space,
    start: usize,
    size: usize,
    reclaims: Reclaims,
    sizes: Seq<(u64, usize)>,
)
    requires
        areas_wf(sp.areas),
        start + size <= usize::MAX,
    ensures
        areas_wf(unmapped_space(sp, start, size, reclaims, sizes).1.areas),
{
    if sp.has_range(start, size) && aligned_4k(start as int) && aligned_4k(size as int) && size
        > 0 {
        lemma_unmap_areas_wf(
            unmapping(sp.pt, reclaims, TlbInvalidationTracker::nothing()),
            sp.areas,
            start,
            (start + size) as usize,
            sizes,
        );
    }
}

/// Unmapping a range cuts it out of the areas and does nothing else to them:
/// every address outside of it is held as before.
pub proof fn lemma_unmapped_areas(
    sp: Space,
    start: usize,
    size: usize,
    reclaims: Reclaims,
    sizes: Seq<(u64, usize)>,
    a: int,
    flags: MappingFlags,
    backend: Backend,
)
    requires
        areas_wf(sp.areas),
        size > 0,
        unmapped_space(sp, start, size, reclaims, sizes).0 is Ok,
    ensures
        held(unmapped_space(sp, start, size, reclaims, sizes).1.areas, 0, a, flags, backend)
            <==> held(sp.areas, 0, a, flags, backend) && !(start <= a < start + size),
{
    if any_meets(sp.areas, start as int, start + size) {
        lemma_unmap_areas_hold(
            SetUnmapping {
                ok: true,
                kept: Seq::empty(),
                u: unmapping(sp.pt, reclaims, TlbInvalidationTracker::nothing()),
            },
            sp.areas,
            0,
            start,
            (start + size) as usize,
            sizes,
            a,
            flags,
            backend,
        );
    } else if held(sp.areas, 0, a, flags, backend) && start <= a < start + size {
        let k = choose|k: int|
            0 <= k < sp.areas.len() && (#[trigger] sp.areas[k]).start <= a < sp.areas[k].end
                && sp.areas[k].flags == flags && sp.areas[k].backend == backend;
        assert(sp.areas[k].meets(start as int, start + size));
    }
}

/// What taking `[lo, hi)` out of the areas from the `i`-th on gives back.
#[verifier::rlimit(40)]
#[verifier::spinoff_prover]
proof fn lemma_unmapped_page_is_given_back(
    t: SetUnmapping,
    s: Seq<MemoryArea>,
    i: int,
    lo: usize,
    hi: usize,
    sizes: Seq<(u64, usize)>,
    n: int,
    q: usize,
)
    requires
        0 <= i <= s.len(),
        lo < hi,
        aligned_4k(lo as int),
        aligned_4k(hi as int),
        areas_wf(s),
        forall|k: int|
            i <= k < s.len() && (#[trigger] s[k]).meets(lo as int, hi as int) ==> takeable(
                s[k].backend,
                t.u.pt,
                max_of(s[k].start, lo),
                min_of(s[k].end, hi),
            ),
        pt_wf(t.u.pt),
        entries_disjoint(t.u.pt),
        t.ok,
        t.u.ok,
        t.u.tracker.wf(),
        aligned_4k(q as int),
        lo <= q < hi,
        0 <= n < s.len(),
        s[n].start <= q < s[n].end,
    ensures
        ({
            let now = unmap_areas(t, s, i, lo, hi, sizes);
            &&& now.ok
            &&& forall|f: usize| #[trigger]
                t.u.reclaims.frames.contains(f) ==> now.u.reclaims.frames.contains(f)
            &&& forall|a: int| #[trigger] t.u.tracker.covers(a) ==> now.u.tracker.covers(a)
            &&& i <= n && resident(t.u.pt, q) ==> {
                &&& (pte_at(t.u.pt, q)->0).frame != 0 ==> now.u.tracker.covers(q as int)
                &&& is_lazy(s[n].backend) ==> now.u.reclaims.frames.contains(
                    shown_frame(t.u.pt, q),
                )
            }
        }),
    decreases s.len() - i,
{
    reveal(areas_wf);
    if i < s.len() {
        assert(s[i].wf());
        if !s[i].meets(lo as int, hi as int) {
            lemma_unmapped_page_is_given_back(
                SetUnmapping { kept: t.kept.push(s[i]), ..t },
                s,
                i + 1,
                lo,
                hi,
                sizes,
                n,
                q,
            );
        } else {
            let u = unmap_part(s[i], t.u, lo, hi, sizes);
            let start = max_of(s[i].start, lo);
            let size = (min_of(s[i].end, hi) - start) as usize;
            assert(takeable(s[i].backend, t.u.pt, start, min_of(s[i].end, hi)));
            lemma_unmapped_part_is_given_back(s[i].backend, t.u, start, size, sizes, q);
            lemma_unmapped_part_is_empty(s[i].backend, t.u, start, size, sizes, q);
            assert forall|k: int|
                i + 1 <= k < s.len() && (#[trigger] s[k]).meets(lo as int, hi as int) implies takeable(
                s[k].backend,
                u.pt,
                max_of(s[k].start, lo),
                min_of(s[k].end, hi),
            ) by {
                assert(s[i].end <= s[k].start);
                assert(s[k].wf());
                let from = max_of(s[k].start, lo);
                let to = min_of(s[k].end, hi);
                assert(takeable(s[k].backend, t.u.pt, from, to));
                assert forall|x: usize| from <= x <= to && aligned_4k(x as int) implies #[trigger] lookup(
                    u.pt,
                    x,
                ) == lookup(t.u.pt, x) && pte_at(u.pt, x) == pte_at(t.u.pt, x) by {
                    lemma_unmapped_part_is_empty(s[i].backend, t.u, start, size, sizes, x);
                }
            }
            if n > i {
                assert(s[i].end <= s[n].start);
            } else if n < i {
                assert(s[n].end <= s[i].start);
            }
            let next = SetUnmapping { ok: true, kept: t.kept + trimmed(s[i], lo, hi), u };
            lemma_unmapped_page_is_given_back(next, s, i + 1, lo, hi, sizes, n, q);
            if n > i {
                assert(pte_at(u.pt, q) == pte_at(t.u.pt, q));
            }
        }
    }
}

/// Where no larger page is in the way, unmapping succeeds. What each page showed
/// is then given back, unless it belongs to shared or linear memory, once its
/// translation was dropped on every CPU.
pub proof fn lemma_unmapped_range_is_given_back(
    sp: Space,
    start: usize,
    size: usize,
    sizes: Seq<(u64, usize)>,
    n: int,
    q: usize,
)
    requires
        areas_wf(sp.areas),
        pt_wf(sp.pt),
        entries_disjoint(sp.pt),
        start % 0x1000 == 0,
        size % 0x1000 == 0,
        sp.base <= start,
        start + size <= sp.end,
        forall|k: int|
            0 <= k < sp.areas.len() && (#[trigger] sp.areas[k]).meets(start as int, start + size)
                ==> takeable(
                sp.areas[k].backend,
                sp.pt,
                max_of(sp.areas[k].start, start),
                min_of(sp.areas[k].end, (start + size) as usize),
            ),
        0 <= n < sp.areas.len(),
        sp.areas[n].start <= q < sp.areas[n].end,
        start <= q < start + size,
        q % 0x1000 == 0,
    ensures
        ({
            let t = unmapped_space(sp, start, size, Reclaims::none(), sizes);
            &&& t.0 is Ok
            &&& resident(sp.pt, q) && (pte_at(sp.pt, q)->0).frame != 0 ==> t.2.covers(q as int)
            &&& resident(sp.pt, q) && is_lazy(sp.areas[n].backend) ==> t.3.frames.contains(
                shown_frame(sp.pt, q),
            )
        }),
{
    assert(sp.areas[n].meets(start as int, start + size));
    lemma_unmapped_page_is_given_back(
        SetUnmapping {
            ok: true,
            kept: Seq::empty(),
            u: unmapping(sp.pt, Reclaims::none(), TlbInvalidationTracker::nothing()),
        },
        sp.areas,
        0,
        start,
        (start + size) as usize,
        sizes,
        n,
        q,
    );
}

/// An unmap of what is not in pages, or not in the space, is refused, and one where
/// nothing is mapped succeeds; neither changes anything.
pub proof fn lemma_unmap_of_nothing(
    sp: Space,
    start: usize,
    size: usize,
    reclaims: Reclaims,
    sizes: Seq<(u64, usize)>,
)
    ensures
        ({
            let t = unmapped_space(sp, start, size, reclaims, sizes);
            let unfit = start < sp.base || start + size > sp.end || start % 0x1000 != 0 || size
                % 0x1000 != 0;
            let empty = forall|k: int|
                0 <= k < sp.areas.len() ==> !((#[trigger] sp.areas[k]).start < start + size && start
                    < sp.areas[k].end);
            &&& unfit ==> t.0 == Err::<(), AxError>(AxError::InvalidInput)
            &&& !unfit && empty ==> t.0 is Ok
            &&& unfit || empty ==> t.1 == sp && t.2.changed_pages == 0 && t.3 == reclaims
        }),
{
    if any_meets(sp.areas, start as int, start + size) {
        let k = choose|k: int|
            0 <= k < sp.areas.len() && (#[trigger] sp.areas[k]).meets(start as int, start + size);
        assert(sp.areas[k].start < start + size);
    }
}

} // verus!
