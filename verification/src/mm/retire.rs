//! Taking a whole address space down.
use vstd::prelude::*;

use crate::error::{AxError, AxResult};

use super::area::{areas_wf, carved, lemma_area_wf, lemma_carved, MemoryArea, MemorySet};
use super::aspace::{AddrSpace, Space};
use super::file_map::FileSizes;
use super::paging::{
    aligned_4k, entries_disjoint, lookup, pt_wf, pte_at, resident, shown_frame, PAGE_SIZE_4K,
};
use super::reclaim::{
    page_count, pages_of, DeferredReclaims, Reclaims, TlbInvalidationTracker,
    RETIREMENT_RECLAIM_CAPACITY,
};
use super::tlb::{leave_behind, left_behind, shootdown_of, AddrSpaceMutation, TlbShootdown};
use super::unmap::{
    is_lazy, lemma_unmapped_keeps_buffer, lemma_unmapped_part_is_empty,
    lemma_unmapped_part_is_given_back, takeable, unmapped, unmapping, Unmapping,
};

verus! {

/// The most frames that are made room for before an unmap.
pub const MAX_PREALLOCATED_UNMAP_RECLAIMS: usize = 64;

/// Room for what an unmap leaves behind, made before the space is locked.
pub struct AddrSpaceUnmapPreparation {
    pub(crate) reclaims: DeferredReclaims,
    capacity: usize,
}

impl Default for AddrSpaceUnmapPreparation {
    fn default() -> (r: Self)
        ensures
            r.reclaims() == Reclaims::none(),
            r.room() == 0,
    {
        AddrSpaceUnmapPreparation { reclaims: DeferredReclaims::default(), capacity: 0 }
    }
}

impl AddrSpaceUnmapPreparation {
    /// What waits already: nothing.
    pub closed spec fn reclaims(&self) -> Reclaims {
        self.reclaims@
    }

    /// For how many frames there is room.
    pub closed spec fn room(&self) -> usize {
        self.capacity
    }

    /// Room for the pages of `size` bytes and one more frame, as far as 64.
    pub fn new(size: usize) -> (r: Self)
        ensures
            r.reclaims() == Reclaims::none(),
            r.room() == if pages_of(size) + 1 < 64 {
                pages_of(size) + 1
            } else {
                64
            },
    {
        let pages: usize = page_count(size);
        let wanted: usize = pages.saturating_add(1);
        let capacity: usize = if wanted < MAX_PREALLOCATED_UNMAP_RECLAIMS {
            wanted
        } else {
            MAX_PREALLOCATED_UNMAP_RECLAIMS
        };
        AddrSpaceUnmapPreparation { reclaims: DeferredReclaims::with_capacity(capacity), capacity }
    }

    /// Hands the room out.
    pub fn into_reclaims(self) -> (r: DeferredReclaims)
        ensures
            r@ == self.reclaims(),
    {
        self.reclaims
    }
}

/// Takes the areas out of the page table from the `i`-th on, until one fails.
pub open spec fn clear_areas(
    u: Unmapping,
    s: Seq<MemoryArea>,
    i: int,
    sizes: Seq<(u64, usize)>,
) -> Unmapping
    decreases s.len() - i,
{
    if i >= s.len() || !u.ok {
        u
    } else {
        clear_areas(
            unmapped(s[i].backend, u, s[i].start, (s[i].end - s[i].start) as usize, sizes),
            s,
            i + 1,
            sizes,
        )
    }
}

/// How many bytes of the first area one step of a retirement takes down.
pub open spec fn step_size(a: MemoryArea) -> int {
    if a.end - a.start < RETIREMENT_RECLAIM_CAPACITY * 0x1000 {
        a.end - a.start
    } else {
        RETIREMENT_RECLAIM_CAPACITY * 0x1000
    }
}

/// One step of a retirement.
pub struct RetirementStep {
    /// What can be given up now.
    pub reclaims: DeferredReclaims,
    /// False where the step has failed, which ends the retirement.
    pub ok: bool,
}

impl AddrSpace {
    /// Takes every mapping out. Where an area cannot be taken out, the areas
    /// all stay.
    pub fn clear(&mut self, sizes: &FileSizes) -> (r: AddrSpaceMutation<()>)
        requires
            old(self).wf(),
        ensures
            final(self).wf(),
            ({
                let sp = old(self)@;
                let u = clear_areas(
                    unmapping(sp.pt, Reclaims::none(), TlbInvalidationTracker::nothing()),
                    sp.areas,
                    0,
                    sizes@,
                );
                &&& r.result == if u.ok {
                    Ok::<(), AxError>(())
                } else {
                    Err::<(), AxError>(AxError::BadState)
                }
                &&& final(self)@ == (Space {
                    areas: if u.ok {
                        Seq::empty()
                    } else {
                        sp.areas
                    },
                    pt: u.pt,
                    ..sp
                })
                &&& shootdown_of(r.shootdown) == left_behind(sp.asid, u.tracker, u.reclaims)
            }),
    {
        proof {
            self.lemma_parts();
        }
        let ghost sp = self@;
        let ghost s = sp.areas;
        let ghost u0 = unmapping(sp.pt, Reclaims::none(), TlbInvalidationTracker::nothing());
        let mut reclaim: DeferredReclaims = DeferredReclaims::default();
        let mut tracker: TlbInvalidationTracker = TlbInvalidationTracker::default();
        let mut ok: bool = true;
        let mut i: usize = 0;
        while i < self.areas.len() && ok
            invariant
                i <= s.len(),
                s == self.areas@,
                s == sp.areas,
                areas_wf(s),
                self.pt.wf(),
                self.wf(),
                self@ == (Space { pt: self.pt@, ..sp }),
                reclaim@.retirement is None,
                clear_areas(u0, s, 0, sizes@) == clear_areas(
                    Unmapping {
                        ok,
                        pt: self.pt@,
                        reclaims: reclaim@,
                        tracker,
                        dirty: Seq::empty(),
                    },
                    s,
                    i as int,
                    sizes@,
                ),
            decreases s.len() - i,
        {
            proof {
                self.lemma_parts();
                lemma_area_wf(s, i as int);
                lemma_unmapped_keeps_buffer(
                    s[i as int].backend,
                    unmapping(self.pt@, reclaim@, tracker),
                    s[i as int].start,
                    (s[i as int].end - s[i as int].start) as usize,
                    sizes@,
                );
            }
            let area: MemoryArea = self.areas.get(i).clone();
            ok = area.backend.unmap_tracked(
                area.start,
                area.end - area.start,
                sizes,
                &mut self.pt,
                &mut reclaim,
                &mut tracker,
            );
            proof {
                self.lemma_parts();
            }
            i = i + 1;
        }
        proof {
            self.lemma_parts();
        }
        let result: AxResult<()> = if ok {
            self.areas = MemorySet::new();
            Ok(())
        } else {
            Err(AxError::BadState)
        };
        proof {
            self.lemma_parts();
        }
        let shootdown: Option<TlbShootdown> = leave_behind(self.asid, tracker, reclaim);
        AddrSpaceMutation { result, shootdown }
    }

    /// Takes the first part of the first area down, no more than fits into the
    /// retirement buffer of `cpu_id`. Where that fails, the area is given up.
    /// There is no step left once the space has no area.
    pub fn retire_step(&mut self, cpu_id: usize, sizes: &FileSizes) -> (r: Option<RetirementStep>)
        requires
            old(self).wf(),
        ensures
            final(self).wf(),
            r is None <==> old(self)@.areas.len() == 0,
            r is None ==> final(self)@ == old(self)@,
            r matches Some(step) ==> {
                let sp = old(self)@;
                let a = sp.areas[0];
                let cut = (a.start + step_size(a)) as usize;
                let u = unmapped(
                    a.backend,
                    unmapping(
                        sp.pt,
                        Reclaims { retirement: Some(cpu_id), ..Reclaims::none() },
                        TlbInvalidationTracker::nothing(),
                    ),
                    a.start,
                    step_size(a) as usize,
                    sizes@,
                );
                &&& step.ok == u.ok
                &&& step.reclaims@ == u.reclaims
                &&& final(self)@ == (Space {
                    areas: if u.ok {
                        carved(sp.areas, 0, a.start, cut)
                    } else {
                        sp.areas.drop_first()
                    },
                    pt: u.pt,
                    ..sp
                })
            },
    {
        proof {
            self.lemma_parts();
        }
        if self.areas.is_empty() {
            return None;
        }
        let ghost sp = self@;
        let ghost s = sp.areas;
        proof {
            lemma_area_wf(s, 0);
        }
        let area: MemoryArea = self.areas.get(0).clone();
        let chunk: usize = RETIREMENT_RECLAIM_CAPACITY * PAGE_SIZE_4K;
        let n: usize = if area.end - area.start < chunk {
            area.end - area.start
        } else {
            chunk
        };
        let cut: usize = area.start + n;
        let mut reclaims: DeferredReclaims = DeferredReclaims::for_retirement(cpu_id);
        let mut tracker: TlbInvalidationTracker = TlbInvalidationTracker::default();
        let ok: bool = area.backend.unmap_tracked(
            area.start,
            n,
            sizes,
            &mut self.pt,
            &mut reclaims,
            &mut tracker,
        );
        proof {
            lemma_carved(s, 0, area.start, cut);
        }
        if ok {
            let _ = self.areas.carve(0, area.start, cut);
        } else {
            let _ = self.areas.remove_at(0);
            proof {
                lemma_rest_wf(s);
                assert(s.remove(0) =~= s.drop_first());
            }
        }
        proof {
            self.lemma_parts();
        }
        Some(RetirementStep { reclaims, ok })
    }
}

proof fn lemma_rest_wf(s: Seq<MemoryArea>)
    requires
        areas_wf(s),
        s.len() > 0,
    ensures
        areas_wf(s.drop_first()),
{
    reveal(areas_wf);
    let t = s.drop_first();
    assert forall|i: int| 0 <= i < t.len() implies (#[trigger] t[i]).wf() by {
        assert(t[i] == s[i + 1]);
    }
    assert forall|i: int, j: int| 0 <= i < j < t.len() implies (#[trigger] t[i]).end <= (
    #[trigger] t[j]).start by {
        assert(t[i] == s[i + 1] && t[j] == s[j + 1]);
    }
}

/// The bytes that areas cover.
pub open spec fn bytes_mapped(s: Seq<MemoryArea>) -> int
    decreases s.len(),
{
    if s.len() == 0 {
        0
    } else {
        (s[0].end - s[0].start) + bytes_mapped(s.drop_first())
    }
}

/// A step of a retirement leaves fewer bytes to take down, so it ends.
pub proof fn lemma_retirement_goes_on(s: Seq<MemoryArea>)
    requires
        areas_wf(s),
        s.len() > 0,
    ensures
        bytes_mapped(carved(s, 0, s[0].start, (s[0].start + step_size(s[0])) as usize))
            == bytes_mapped(s) - step_size(s[0]),
        step_size(s[0]) > 0,
        bytes_mapped(s.drop_first()) < bytes_mapped(s),
{
    lemma_area_wf(s, 0);
    let cut = (s[0].start + step_size(s[0])) as usize;
    let t = carved(s, 0, s[0].start, cut);
    if cut < s[0].end {
        assert(t =~= seq![s[0].part(cut, s[0].end)] + s.drop_first());
        assert(t.drop_first() =~= s.drop_first());
    } else {
        assert(t =~= s.drop_first());
    }
}

/// A space that was taken down translates no page of its areas any more, and
/// what the pages showed is given back, unless it belongs to shared or linear
/// memory. That succeeds where no larger page is in the way.
#[verifier::rlimit(40)]
#[verifier::spinoff_prover]
pub proof fn lemma_cleared_space(
    u: Unmapping,
    s: Seq<MemoryArea>,
    i: int,
    sizes: Seq<(u64, usize)>,
    n: int,
    q: usize,
)
    requires
        0 <= i <= s.len(),
        areas_wf(s),
        pt_wf(u.pt),
        entries_disjoint(u.pt),
        u.ok,
        u.tracker.wf(),
        forall|k: int|
            i <= k < s.len() ==> takeable(
                (#[trigger] s[k]).backend,
                u.pt,
                s[k].start,
                s[k].end,
            ),
        0 <= n < s.len(),
        s[n].start <= q < s[n].end,
        aligned_4k(q as int),
    ensures
        ({
            let t = clear_areas(u, s, i, sizes);
            &&& t.ok
            &&& i <= n ==> lookup(t.pt, q) is None
            &&& forall|f: usize| #[trigger]
                u.reclaims.frames.contains(f) ==> t.reclaims.frames.contains(f)
            &&& forall|a: int| #[trigger] u.tracker.covers(a) ==> t.tracker.covers(a)
            &&& lookup(u.pt, q) is None ==> lookup(t.pt, q) is None
            &&& i <= n && resident(u.pt, q) && is_lazy(s[n].backend) ==> t.reclaims.frames.contains(
                shown_frame(u.pt, q),
            )
            &&& i <= n && resident(u.pt, q) && (pte_at(u.pt, q)->0).frame != 0 ==> t.tracker.covers(
                q as int,
            )
        }),
    decreases s.len() - i,
{
    reveal(areas_wf);
    if i < s.len() {
        assert(s[i].wf());
        assert(s[n].wf());
        let size = (s[i].end - s[i].start) as usize;
        let t = unmapped(s[i].backend, u, s[i].start, size, sizes);
        assert(takeable(s[i].backend, u.pt, s[i].start, s[i].end));
        lemma_unmapped_part_is_given_back(s[i].backend, u, s[i].start, size, sizes, q);
        lemma_unmapped_part_is_empty(s[i].backend, u, s[i].start, size, sizes, q);
        assert forall|k: int| i + 1 <= k < s.len() implies takeable(
            (#[trigger] s[k]).backend,
            t.pt,
            s[k].start,
            s[k].end,
        ) by {
            assert(s[i].end <= s[k].start);
            assert(s[k].wf());
            assert(takeable(s[k].backend, u.pt, s[k].start, s[k].end));
            assert forall|x: usize|
                s[k].start <= x <= s[k].end && aligned_4k(x as int) implies #[trigger] lookup(
                t.pt,
                x,
            ) == lookup(u.pt, x) && pte_at(t.pt, x) == pte_at(u.pt, x) by {
                lemma_unmapped_part_is_empty(s[i].backend, u, s[i].start, size, sizes, x);
            }
        }
        if n > i {
            assert(s[i].end <= s[n].start);
        } else if n < i {
            assert(s[n].end <= s[i].start);
        }
        lemma_cleared_space(t, s, i + 1, sizes, n, q);
    }
}

} // verus!
