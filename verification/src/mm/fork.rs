//! Copying an address space for a new process.
use vstd::prelude::*;

use crate::error::{mapping_err_to_ax_err, spec_mapping_err_to_ax_err, AxError, AxResult};

use super::area::{
    areas_wf, entered, lemma_area_wf, lemma_rank, lemma_with_area_wf, rank, with_area, MemoryArea,
    MemorySet,
};
use super::aspace::{AddrSpace, Space};
use super::backend::{Backend, CowMapping};
use super::file_fault::map_page;
use super::flags::{spec_effective_pte_flags, MappingFlags};
use super::frame_table::{
    inc_all, lemma_added_references_releasable, lemma_inc_all_counts, lemma_listed_occurs,
    FrameState, Frames,
};
use super::paging::{
    aligned_4k, base_of, leaf, lemma_changed_entry, lemma_entry_frame, lemma_free_page_has_no_entry,
    lemma_lookup_other_page, lemma_new_entry, lemma_small_entry, lookup, pt_wf, pte_at, resident,
    shown_frame, PageSize, PageTable, Pte, PtMap, PAGE_SIZE_4K,
};
use super::populate::lemma_mapping_elsewhere;
use super::protect::reflagged;
use super::reclaim::{DeferredReclaims, Reclaims, TlbInvalidationTracker};
use super::tlb::{leave_behind, left_behind, lost, shootdown_of, FlushOutcome, TlbShootdown};

verus! {

/// Areas from here on belong to the kernel and are not copied.
pub const USER_ASPACE_LIMIT: u64 = 0x8000_0000_0000;

/// How an area is carried over: whether its frames are shared until one side
/// writes, and what backs it from then on.
pub open spec fn carried(backend: Backend) -> (bool, Backend) {
    match backend {
        Backend::Cow(_) => (true, backend),
        Backend::Alloc { grows_down, .. } => (
            true,
            Backend::Cow(
                CowMapping { inner: Box::new(Backend::Alloc { populate: false, grows_down }) },
            ),
        ),
        Backend::File(m) => if m.shared {
            (false, backend)
        } else {
            (true, Backend::Cow(CowMapping { inner: Box::new(backend) }))
        },
        _ => (false, backend),
    }
}

/// Whether the pages of an area are copied one by one.
pub open spec fn copies_pages(backend: Backend) -> bool {
    carried(backend).0 || backend is File
}

/// What has happened while an address space is copied.
pub ghost struct Cloning {
    pub error: Option<AxError>,
    /// The areas and the page table of the copy.
    pub areas: Seq<MemoryArea>,
    pub pt: PtMap,
    /// The areas and the page table that are copied.
    pub own_areas: Seq<MemoryArea>,
    pub own_pt: PtMap,
    pub frames: FrameState,
    /// The frames that both share from now on, in order.
    pub copied: Seq<usize>,
    pub tracker: TlbInvalidationTracker,
}

/// Copies one page. A page that is shared until it is written loses its
/// permission to write on both sides.
pub open spec fn clone_page(
    c: Cloning,
    page: usize,
    cow: bool,
    write_implies_read: bool,
    limit: usize,
) -> Cloning {
    match pte_at(c.own_pt, page) {
        None => c,
        Some(e) => if !resident(c.own_pt, page) {
            c
        } else if e.size != PageSize::Size4K || lookup(c.pt, page) is Some || c.pt.len() >= limit {
            Cloning { error: Some(AxError::NoMemory), ..c }
        } else {
            let flags = if cow {
                e.flags.with_write(false)
            } else {
                e.flags
            };
            let stored = spec_effective_pte_flags(flags, write_implies_read);
            Cloning {
                pt: c.pt.insert(page, leaf(base_of(e.frame, PageSize::Size4K), stored)),
                own_pt: if cow && e.flags.write {
                    reflagged(c.own_pt, page, stored)
                } else {
                    c.own_pt
                },
                frames: FrameState { counts: c.frames.counts.inc(e.frame), ..c.frames },
                copied: c.copied.push(e.frame),
                tracker: if cow && e.flags.write {
                    c.tracker.recorded(page, 0x1000)
                } else {
                    c.tracker
                },
                ..c
            }
        },
    }
}

/// Copies the pages of `[page, end)`.
pub open spec fn clone_pages(
    c: Cloning,
    page: int,
    end: int,
    cow: bool,
    write_implies_read: bool,
    limit: usize,
) -> Cloning
    decreases (if page < end {
            end - page
        } else {
            0
        }),
{
    if page >= end || c.error is Some {
        c
    } else {
        clone_pages(
            clone_page(c, page as usize, cow, write_implies_read, limit),
            page + 0x1000,
            end,
            cow,
            write_implies_read,
            limit,
        )
    }
}

/// Copies the areas from the `i`-th on.
pub open spec fn clone_areas(
    c: Cloning,
    s: Seq<MemoryArea>,
    i: int,
    write_implies_read: bool,
    limit: usize,
) -> Cloning
    decreases s.len() - i,
{
    if i >= s.len() || c.error is Some {
        c
    } else if s[i].start >= USER_ASPACE_LIMIT {
        clone_areas(c, s, i + 1, write_implies_read, limit)
    } else {
        let (cow, backend) = carried(s[i].backend);
        let t = entered(
            c.areas,
            MemoryArea { backend, ..s[i] },
            c.pt,
            c.frames,
            spec_effective_pte_flags(s[i].flags, write_implies_read),
            limit,
        );
        let n = Cloning { areas: t.1, pt: t.2, frames: t.3, ..c };
        match t.0 {
            Err(e) => Cloning { error: Some(spec_mapping_err_to_ax_err(e)), ..n },
            Ok(_) => {
                let own = Cloning {
                    own_areas: if cow {
                        n.own_areas.update(i, MemoryArea { backend, ..n.own_areas[i] })
                    } else {
                        n.own_areas
                    },
                    ..n
                };
                let p = if copies_pages(s[i].backend) {
                    clone_pages(
                        own,
                        s[i].start as int,
                        s[i].end as int,
                        cow,
                        write_implies_read,
                        limit,
                    )
                } else {
                    own
                };
                clone_areas(p, s, i + 1, write_implies_read, limit)
            },
        }
    }
}

/// What copying a space into the table `pt` leads to. Areas are exchanged for
/// copy-on-write areas only if everything was copied.
pub open spec fn cloned(sp: Space, pt: PtMap, frames: FrameState) -> Cloning {
    clone_areas(
        Cloning {
            error: None,
            areas: Seq::empty(),
            pt,
            own_areas: sp.areas,
            own_pt: sp.pt,
            frames,
            copied: Seq::empty(),
            tracker: TlbInvalidationTracker::nothing(),
        },
        sp.areas,
        0,
        sp.write_implies_read,
        sp.limit,
    )
}

/// The result of copying an address space, and the shootdown that has to
/// follow.
pub struct AddrSpaceCloneResult {
    pub result: AxResult<AddrSpace>,
    pub shootdown: Option<TlbShootdown>,
}

fn carry(backend: &Backend) -> (r: (bool, Backend))
    ensures
        r == carried(*backend),
{
    match backend {
        Backend::Cow(_) => (true, backend.clone()),
        Backend::Alloc { grows_down, .. } => (
            true,
            Backend::Cow(
                CowMapping::new(
                    Box::new(Backend::Alloc { populate: false, grows_down: *grows_down }),
                ),
            ),
        ),
        Backend::File(m) => {
            if m.shared {
                (false, backend.clone())
            } else {
                (true, Backend::Cow(CowMapping::new(Box::new(backend.clone()))))
            }
        },
        _ => (false, backend.clone()),
    }
}

/// Copies the pages of `[start, end)` from `own` to `pt`.
fn copy_cow_range(
    start: usize,
    end: usize,
    cow: bool,
    own: &mut PageTable,
    pt: &mut PageTable,
    frames: &mut Frames,
    copied: &mut Vec<usize>,
    tracker: &mut TlbInvalidationTracker,
    Ghost(c0): Ghost<Cloning>,
) -> (ok: bool)
    requires
        old(own).wf(),
        old(pt).wf(),
        old(pt).same_kind(old(own)),
        old(frames).wf(),
        start <= end,
        aligned_4k(start as int),
        aligned_4k(end as int),
        c0.error is None,
        c0.pt == old(pt)@,
        c0.own_pt == old(own)@,
        c0.frames == old(frames)@,
        c0.copied == old(copied)@,
        c0.tracker == *old(tracker),
        old(copied)@.len() * 0x1000 <= start,
        old(frames).room() + old(copied)@.len() >= usize::MAX / 0x1000,
    ensures
        final(own).wf(),
        final(pt).wf(),
        final(own).same_kind(old(own)),
        final(pt).same_kind(old(pt)),
        final(frames).wf(),
        final(copied)@.len() * 0x1000 <= end,
        final(frames).room() + final(copied)@.len() >= usize::MAX / 0x1000,
        ({
            let t = clone_pages(
                c0,
                start as int,
                end as int,
                cow,
                old(own).wr(),
                old(own).limit(),
            );
            &&& t.error == if ok {
                None
            } else {
                Some(AxError::NoMemory)
            }
            &&& t.areas == c0.areas
            &&& t.own_areas == c0.own_areas
            &&& t.pt == final(pt)@
            &&& t.own_pt == final(own)@
            &&& t.frames == final(frames)@
            &&& t.copied == final(copied)@
            &&& t.tracker == *final(tracker)
        }),
{
    let mut page: usize = start;
    while page < end
        invariant
            start <= page <= end,
            aligned_4k(page as int),
            aligned_4k(end as int),
            own.wf(),
            pt.wf(),
            own.same_kind(old(own)),
            pt.same_kind(old(pt)),
            old(pt).same_kind(old(own)),
            frames.wf(),
            copied@.len() * 0x1000 <= page,
            frames.room() + copied@.len() >= usize::MAX / 0x1000,
            c0.error is None,
            clone_pages(c0, start as int, end as int, cow, old(own).wr(), old(own).limit())
                == clone_pages(
                Cloning {
                    pt: pt@,
                    own_pt: own@,
                    frames: frames@,
                    copied: copied@,
                    tracker: *tracker,
                    ..c0
                },
                page as int,
                end as int,
                cow,
                old(own).wr(),
                old(own).limit(),
            ),
        decreases end - page,
    {
        let ghost c = Cloning {
            pt: pt@,
            own_pt: own@,
            frames: frames@,
            copied: copied@,
            tracker: *tracker,
            ..c0
        };
        let ghost n = clone_page(c, page, cow, old(own).wr(), old(own).limit());
        proof {
            if n.error is Some {
                assert(clone_pages(
                    n,
                    page + 0x1000,
                    end as int,
                    cow,
                    old(own).wr(),
                    old(own).limit(),
                ) == n);
                assert(clone_pages(
                    c,
                    page as int,
                    end as int,
                    cow,
                    old(own).wr(),
                    old(own).limit(),
                ) == n);
            }
            if pte_at(own@, page) is Some {
                lemma_entry_frame(own@, page);
            }
        }
        if let Some((frame, old_flags, size)) = own.query(page) {
            if frame != 0 {
                if size != PageSize::Size4K {
                    return false;
                }
                let flags: MappingFlags = if cow {
                    old_flags.set_write(false)
                } else {
                    old_flags
                };
                if !map_page(pt, page, frame, flags) {
                    return false;
                }
                if cow && old_flags.write {
                    let _ = own.protect(page, flags);
                    tracker.record(page, PAGE_SIZE_4K);
                }
                frames.cow_inc_frame_ref(frame);
                copied.push(frame);
            }
        }
        page = page + PAGE_SIZE_4K;
    }
    true
}

/// Copying pages adds one reference for each page.
proof fn lemma_clone_pages_counts(
    c: Cloning,
    page: int,
    end: int,
    cow: bool,
    write_implies_read: bool,
    limit: usize,
    base: FrameState,
)
    requires
        c.frames == (FrameState { counts: inc_all(base.counts, c.copied), ..base }),
    ensures
        ({
            let t = clone_pages(c, page, end, cow, write_implies_read, limit);
            t.frames == (FrameState { counts: inc_all(base.counts, t.copied), ..base })
        }),
    decreases (if page < end {
            end - page
        } else {
            0
        }),
{
    if page < end && c.error is None {
        let n = clone_page(c, page as usize, cow, write_implies_read, limit);
        assert(n.copied.len() > c.copied.len() ==> n.copied.drop_last() =~= c.copied);
        lemma_clone_pages_counts(n, page + 0x1000, end, cow, write_implies_read, limit, base);
    }
}

impl AddrSpace {
    /// Copies the areas and the pages of this space to `new`.
    #[verifier::rlimit(80)]
    fn try_clone_inner(
        &mut self,
        new: &mut AddrSpace,
        frames: &mut Frames,
        tracker: &mut TlbInvalidationTracker,
    ) -> (r: AxResult<()>)
        requires
            old(self).wf(),
            old(new).wf(),
            old(new)@.areas.len() == 0,
            old(new)@.write_implies_read == old(self)@.write_implies_read,
            old(new)@.limit == old(self)@.limit,
            old(frames).wf(),
            old(frames).room() >= usize::MAX / 0x1000,
            *old(tracker) == TlbInvalidationTracker::nothing(),
        ensures
            final(self).wf(),
            final(new).wf(),
            final(frames).wf(),
            ({
                let c = cloned(old(self)@, old(new)@.pt, old(frames)@);
                &&& *final(tracker) == c.tracker
                &&& r == match c.error {
                    None => Ok::<(), AxError>(()),
                    Some(e) => Err::<(), AxError>(e),
                }
                &&& final(self)@ == (Space {
                    pt: c.own_pt,
                    areas: if c.error is None {
                        c.own_areas
                    } else {
                        old(self)@.areas
                    },
                    ..old(self)@
                })
                &&& c.error is None ==> final(new)@ == (Space {
                    areas: c.areas,
                    pt: c.pt,
                    ..old(new)@
                })
                &&& final(frames)@ == if c.error is None {
                    c.frames
                } else {
                    c.frames.dealloc_all(c.copied)
                }
            }),
    {
        proof {
            self.lemma_parts();
            new.lemma_parts();
            frames.lemma_room((usize::MAX / 0x1000) as int);
            assert(new@.areas =~= Seq::<MemoryArea>::empty());
        }
        let ghost sp = self@;
        let ghost np = new@;
        let ghost f0 = frames@;
        let ghost wr = sp.write_implies_read;
        let ghost limit = sp.limit;
        let ghost s = sp.areas;
        let ghost c0 = Cloning {
            error: None,
            areas: Seq::empty(),
            pt: np.pt,
            own_areas: s,
            own_pt: sp.pt,
            frames: f0,
            copied: Seq::empty(),
            tracker: TlbInvalidationTracker::nothing(),
        };
        let mut own: MemorySet = self.areas.duplicate();
        let mut copied: Vec<usize> = Vec::new();
        let mut i: usize = 0;
        let mut last_end: usize = 0;
        assert(copied@ =~= Seq::empty());
        assert(inc_all(f0.counts, Seq::empty()) == f0.counts);
        while i < self.areas.len()
            invariant
                i <= s.len(),
                s == self.areas@,
                areas_wf(s),
                self.pt.wf(),
                self.wf(),
                self.pt.wr() == wr,
                self.pt.limit() == limit,
                self@ == (Space { pt: self.pt@, ..sp }),
                new.wf(),
                new@ == (Space { pt: new.pt@, areas: new.areas@, ..np }),
                new.areas.wf(),
                new.pt.wf(),
                new.pt.wr() == wr,
                new.pt.limit() == limit,
                np.write_implies_read == wr,
                np.limit == limit,
                own.wf(),
                own@.len() == s.len(),
                frames.wf(),
                copied@.len() * 0x1000 <= last_end,
                i < s.len() ==> last_end <= s[i as int].start,
                frames.room() + copied@.len() >= usize::MAX / 0x1000,
                frames@ == (FrameState { counts: inc_all(f0.counts, copied@), ..f0 }),
                forall|k: int|
                    0 <= k < f0.counts.refs.len() ==> (#[trigger] f0.counts.refs[k]) + usize::MAX
                        / 0x1000 <= usize::MAX,
                sp == old(self)@,
                np == old(new)@,
                f0 == old(frames)@,
                s == sp.areas,
                c0 == (Cloning {
                    error: None,
                    areas: Seq::empty(),
                    pt: np.pt,
                    own_areas: s,
                    own_pt: sp.pt,
                    frames: f0,
                    copied: Seq::empty(),
                    tracker: TlbInvalidationTracker::nothing(),
                }),
                wr == sp.write_implies_read,
                limit == sp.limit,
                clone_areas(c0, s, 0, wr, limit) == clone_areas(
                    Cloning {
                        error: None,
                        areas: new.areas@,
                        pt: new.pt@,
                        own_areas: own@,
                        own_pt: self.pt@,
                        frames: frames@,
                        copied: copied@,
                        tracker: *tracker,
                    },
                    s,
                    i as int,
                    wr,
                    limit,
                ),
            decreases s.len() - i,
        {
            let ghost c = Cloning {
                error: None,
                areas: new.areas@,
                pt: new.pt@,
                own_areas: own@,
                own_pt: self.pt@,
                frames: frames@,
                copied: copied@,
                tracker: *tracker,
            };
            proof {
                self.lemma_parts();
                new.lemma_parts();
                lemma_area_wf(s, i as int);
                if i + 1 < s.len() {
                    lemma_next_area(s, i as int);
                }
            }
            let area: MemoryArea = self.areas.get(i).clone();
            if (area.start as u64) < USER_ASPACE_LIMIT {
                let (cow, backend) = carry(&area.backend);
                let new_area = MemoryArea {
                    start: area.start,
                    end: area.end,
                    flags: area.flags,
                    backend: backend.clone(),
                };
                proof {
                    super::populate::lemma_mapping_takes_no_frames(
                        backend,
                        new.pt@,
                        frames@,
                        area.start,
                        (area.end - area.start) as usize,
                        area.flags,
                        spec_effective_pte_flags(area.flags, wr),
                        limit,
                    );
                }
                let entered_area = new.areas.map(new_area, &mut new.pt, frames);
                proof {
                    new.lemma_parts();
                }
                if let Err(e) = entered_area {
                    proof {
                        lemma_added_references_releasable(f0.counts, copied@, frames@);
                        self.lemma_parts();
                    }
                    frames.dealloc_frames(&copied);
                    return Err(mapping_err_to_ax_err(e));
                }
                let lazy: bool = cow || match &area.backend {
                    Backend::File(_) => true,
                    _ => false,
                };
                if cow {
                    proof {
                        super::area::lemma_backend_moves_nothing(own@, i as int, backend);
                    }
                    own.set_backend(i, backend);
                }
                if lazy {
                    let ghost before = Cloning {
                        areas: new.areas@,
                        pt: new.pt@,
                        own_areas: own@,
                        frames: frames@,
                        ..c
                    };
                    proof {
                        lemma_clone_pages_counts(
                            before,
                            area.start as int,
                            area.end as int,
                            cow,
                            wr,
                            limit,
                            f0,
                        );
                    }
                    let ok: bool = copy_cow_range(
                        area.start,
                        area.end,
                        cow,
                        &mut self.pt,
                        &mut new.pt,
                        frames,
                        &mut copied,
                        tracker,
                        Ghost(before),
                    );
                    proof {
                        self.lemma_parts();
                        new.lemma_parts();
                    }
                    if !ok {
                        proof {
                            let t = clone_pages(
                                before,
                                area.start as int,
                                area.end as int,
                                cow,
                                wr,
                                limit,
                            );
                            assert(clone_areas(t, s, i + 1, wr, limit) == t);
                            assert(clone_areas(c, s, i as int, wr, limit) == t);
                            lemma_added_references_releasable(f0.counts, copied@, frames@);
                        }
                        frames.dealloc_frames(&copied);
                        return Err(AxError::NoMemory);
                    }
                }
                last_end = area.end;
            }
            i = i + 1;
        }
        proof {
            self.lemma_parts();
        }
        self.areas = own;
        proof {
            self.lemma_parts();
        }
        Ok(())
    }
}

impl AddrSpaceCloneResult {
    /// Whether the copy is what copying `sp` into the table `pt` of a new space
    /// with `asid` leads to.
    pub open spec fn is_copy(self, sp: Space, asid: usize, pt: PtMap, frames: FrameState) -> bool {
        let c = cloned(sp, pt, frames);
        match c.error {
            None => self.result matches Ok(new) && new.wf() && new@ == (Space {
                areas: c.areas,
                pt: c.pt,
                asid,
                ..sp
            }),
            Some(e) => self.result matches Err(e2) && e2 == e,
        }
    }

    /// Ends the shootdown of the space that was copied and hands the copy out. A
    /// lost answer comes before the result.
    pub fn complete_after_unlock(self, outcomes: &Vec<FlushOutcome>, frames: &mut Frames) -> (r:
        AxResult<AddrSpace>)
        requires
            old(frames).wf(),
            self.shootdown matches Some(s) ==> old(frames)@.releasable(s.reclaims().frames),
        ensures
            final(frames).wf(),
            match self.shootdown {
                None => r == self.result && final(frames)@ == old(frames)@,
                Some(s) => if lost(outcomes@) {
                    &&& r == Err::<AddrSpace, AxError>(AxError::BadState)
                    &&& final(frames)@ == old(frames)@
                } else {
                    &&& r == self.result
                    &&& final(frames)@ == old(frames)@.dealloc_all(s.reclaims().frames)
                },
            },
    {
        match self.shootdown {
            None => self.result,
            Some(shootdown) => match shootdown.complete_after_unlock(outcomes, frames) {
                Ok(_) => self.result,
                Err(e) => Err(e),
            },
        }
    }
}

impl AddrSpace {
    /// Copies this space for a new process with `asid` and the page table
    /// `pt`, which holds what all spaces have in common.
    pub fn try_clone(&mut self, asid: usize, pt: PageTable, frames: &mut Frames) -> (r:
        AddrSpaceCloneResult)
        requires
            old(self).wf(),
            pt.wf(),
            pt.wr() == old(self)@.write_implies_read,
            pt.limit() == old(self)@.limit,
            old(frames).wf(),
            old(frames).room() >= usize::MAX / 0x1000,
        ensures
            final(self).wf(),
            final(frames).wf(),
            r.is_copy(old(self)@, asid, pt@, old(frames)@),
            ({
                let c = cloned(old(self)@, pt@, old(frames)@);
                &&& final(self)@ == (Space {
                    pt: c.own_pt,
                    areas: if c.error is None {
                        c.own_areas
                    } else {
                        old(self)@.areas
                    },
                    ..old(self)@
                })
                &&& final(frames)@ == if c.error is None {
                    c.frames
                } else {
                    c.frames.dealloc_all(c.copied)
                }
                &&& shootdown_of(r.shootdown) == if c.tracker.changed_pages != 0 {
                    left_behind(old(self)@.asid, c.tracker, Reclaims::none())
                } else {
                    None
                }
            }),
            r.result matches Ok(new) ==> forall|k: int, q: usize|
                #![trigger old(self)@.areas[k], pte_at(new@.pt, q)]
                0 <= k < old(self)@.areas.len() && old(self)@.areas[k].start <= q < old(
                    self,
                )@.areas[k].end && old(self)@.areas[k].start < 0x8000_0000_0000 && aligned_4k(
                    q as int,
                ) && resident(old(self)@.pt, q) && is_private(old(self)@.areas[k].backend) ==> {
                    let before = pte_at(old(self)@.pt, q)->0;
                    &&& pte_at(new@.pt, q) matches Some(e) && !e.flags.write && e.frame
                        == before.frame - before.frame % 0x1000
                    &&& pte_at(final(self)@.pt, q) matches Some(e) && !e.flags.write && e.frame
                        == before.frame
                },
    {
        proof {
            self.lemma_parts();
            let sp = self@;
            if cloned(sp, pt@, frames@).error is None {
                assert forall|k: int, q: usize|
                    #![trigger sp.areas[k], pte_at(cloned(sp, pt@, frames@).pt, q)]
                    0 <= k < sp.areas.len() && sp.areas[k].start <= q < sp.areas[k].end
                        && sp.areas[k].start < 0x8000_0000_0000 && aligned_4k(q as int) && resident(
                        sp.pt,
                        q,
                    ) && is_private(sp.areas[k].backend) implies {
                    let c = cloned(sp, pt@, frames@);
                    let before = pte_at(sp.pt, q)->0;
                    &&& pte_at(c.pt, q) matches Some(e) && !e.flags.write && e.frame == before.frame
                        - before.frame % 0x1000
                    &&& pte_at(c.own_pt, q) matches Some(e) && !e.flags.write && e.frame
                        == before.frame
                } by {
                    lemma_forked_pages(sp, pt@, frames@, k, q);
                }
            }
        }
        let mut new: AddrSpace = AddrSpace::new_empty(
            self.base,
            self.end - self.base,
            asid,
            pt,
        );
        proof {
            new.lemma_parts();
        }
        let mut tracker: TlbInvalidationTracker = TlbInvalidationTracker::default();
        let copied: AxResult<()> = self.try_clone_inner(&mut new, frames, &mut tracker);
        proof {
            self.lemma_parts();
        }
        let shootdown: Option<TlbShootdown> = leave_behind(
            self.asid,
            tracker,
            DeferredReclaims::default(),
        );
        match copied {
            Ok(()) => AddrSpaceCloneResult { result: Ok(new), shootdown },
            Err(e) => AddrSpaceCloneResult { result: Err(e), shootdown },
        }
    }
}

/// The area behind another starts behind its end.
proof fn lemma_next_area(s: Seq<MemoryArea>, i: int)
    requires
        areas_wf(s),
        0 <= i,
        i + 1 < s.len(),
    ensures
        s[i].end <= s[i + 1].start,
{
    reveal(areas_wf);
}

/// Copying another page leaves a page as it is on both sides.
proof fn lemma_clone_other_page(
    c: Cloning,
    p: usize,
    q: usize,
    cow: bool,
    write_implies_read: bool,
    limit: usize,
)
    requires
        pt_wf(c.pt),
        pt_wf(c.own_pt),
        aligned_4k(p as int),
        aligned_4k(q as int),
        p != q,
        c.error is None,
    ensures
        ({
            let t = clone_page(c, p, cow, write_implies_read, limit);
            &&& pt_wf(t.pt)
            &&& pt_wf(t.own_pt)
            &&& pte_at(t.pt, q) == pte_at(c.pt, q)
            &&& pte_at(t.own_pt, q) == pte_at(c.own_pt, q)
        }),
{
    let t = clone_page(c, p, cow, write_implies_read, limit);
    if let Some(e) = pte_at(c.own_pt, p) {
        if resident(c.own_pt, p) && t.error is None {
            lemma_small_entry(c.own_pt, p);
            lemma_entry_frame(c.own_pt, p);
            lemma_free_page_has_no_entry(c.pt, p);
            lemma_lookup_other_page(c.pt, t.pt, p, q);
            lemma_lookup_other_page(c.own_pt, t.own_pt, p, q);
        }
    }
}

proof fn lemma_clone_this_page(
    c: Cloning,
    q: usize,
    cow: bool,
    write_implies_read: bool,
    limit: usize,
)
    requires
        pt_wf(c.pt),
        pt_wf(c.own_pt),
        aligned_4k(q as int),
        resident(c.own_pt, q),
        c.error is None,
        clone_page(c, q, cow, write_implies_read, limit).error is None,
    ensures
        page_is_shared(c, clone_page(c, q, cow, write_implies_read, limit), q, cow),
        pt_wf(clone_page(c, q, cow, write_implies_read, limit).pt),
        pt_wf(clone_page(c, q, cow, write_implies_read, limit).own_pt),
{
    let e = pte_at(c.own_pt, q)->0;
    let t = clone_page(c, q, cow, write_implies_read, limit);
    lemma_small_entry(c.own_pt, q);
    lemma_entry_frame(c.own_pt, q);
    let flags = if cow {
        e.flags.with_write(false)
    } else {
        e.flags
    };
    let stored = spec_effective_pte_flags(flags, write_implies_read);
    lemma_new_entry(c.pt, q, leaf(base_of(e.frame, PageSize::Size4K), stored));
    if cow && e.flags.write {
        lemma_changed_entry(c.own_pt, q, Pte { flags: stored, ..e }, q);
    }
    assert(t.copied[t.copied.len() - 1] == e.frame);
}

/// Whether the copy `t` of `c` sees the frame of the page at `q`, and, where
/// the page is shared until it is written, neither side can write it.
pub open spec fn page_is_shared(c: Cloning, t: Cloning, q: usize, cow: bool) -> bool {
    &&& pte_at(t.pt, q) matches Some(e) && e.frame == base_of(
        (pte_at(c.own_pt, q)->0).frame,
        PageSize::Size4K,
    ) && e.size == PageSize::Size4K && e.flags.write == (!cow && (pte_at(
        c.own_pt,
        q,
    )->0).flags.write) && e.flags.execute == (pte_at(c.own_pt, q)->0).flags.execute
        && e.flags.user == (pte_at(c.own_pt, q)->0).flags.user && ((pte_at(
        c.own_pt,
        q,
    )->0).flags.read ==> e.flags.read)
    &&& pte_at(t.own_pt, q) matches Some(e) && e.frame == (pte_at(c.own_pt, q)->0).frame
        && e.flags.write == (!cow && (pte_at(c.own_pt, q)->0).flags.write) && e.flags.execute == (
    pte_at(c.own_pt, q)->0).flags.execute && e.flags.user == (pte_at(c.own_pt, q)->0).flags.user
    &&& t.copied.contains((pte_at(c.own_pt, q)->0).frame)
}

/// After a range was copied for a new process, both sides see the same frame
/// behind each of its pages. Where the pages are shared until they are
/// written, neither side can write them.
pub proof fn lemma_cloned_page_is_shared(
    c: Cloning,
    page: int,
    end: int,
    cow: bool,
    write_implies_read: bool,
    limit: usize,
    q: usize,
)
    requires
        pt_wf(c.pt),
        pt_wf(c.own_pt),
        0 <= page <= q < end <= usize::MAX,
        aligned_4k(page),
        aligned_4k(q as int),
        resident(c.own_pt, q),
        c.error is None,
        clone_pages(c, page, end, cow, write_implies_read, limit).error is None,
    ensures
        page_is_shared(c, clone_pages(c, page, end, cow, write_implies_read, limit), q, cow),
    decreases end - page,
{
    let t = clone_page(c, page as usize, cow, write_implies_read, limit);
    if t.error is Some {
        assert(clone_pages(t, page + 0x1000, end, cow, write_implies_read, limit) == t);
    } else if page == q {
        lemma_clone_this_page(c, q, cow, write_implies_read, limit);
        lemma_clone_rest(t, page + 0x1000, end, cow, write_implies_read, limit, q);
    } else {
        lemma_clone_other_page(c, page as usize, q, cow, write_implies_read, limit);
        lemma_cloned_page_is_shared(
            t,
            page + 0x1000,
            end,
            cow,
            write_implies_read,
            limit,
            q,
        );
    }
}

/// Copying pages behind `q` leaves the page at `q` alone.
proof fn lemma_clone_rest(
    c: Cloning,
    page: int,
    end: int,
    cow: bool,
    write_implies_read: bool,
    limit: usize,
    q: usize,
)
    requires
        pt_wf(c.pt),
        pt_wf(c.own_pt),
        q < page,
        end <= usize::MAX,
        aligned_4k(page),
        aligned_4k(q as int),
    ensures
        pte_at(clone_pages(c, page, end, cow, write_implies_read, limit).pt, q) == pte_at(c.pt, q),
        pte_at(clone_pages(c, page, end, cow, write_implies_read, limit).own_pt, q) == pte_at(
            c.own_pt,
            q,
        ),
        forall|f: usize|
            c.copied.contains(f) ==> #[trigger] clone_pages(
                c,
                page,
                end,
                cow,
                write_implies_read,
                limit,
            ).copied.contains(f),
    decreases (if page < end {
            end - page
        } else {
            0
        }),
{
    if page < end && c.error is None {
        lemma_clone_other_page(c, page as usize, q, cow, write_implies_read, limit);
        let n = clone_page(c, page as usize, cow, write_implies_read, limit);
        assert forall|f: usize| c.copied.contains(f) implies #[trigger] n.copied.contains(f) by {
            let i = choose|i: int| 0 <= i < c.copied.len() && c.copied[i] == f;
            assert(n.copied[i] == f);
        }
        lemma_clone_rest(
            clone_page(c, page as usize, cow, write_implies_read, limit),
            page + 0x1000,
            end,
            cow,
            write_implies_read,
            limit,
            q,
        );
    }
}

/// Copying the pages of another range changes neither side of a page.
proof fn lemma_clone_elsewhere(
    c: Cloning,
    page: int,
    end: int,
    cow: bool,
    write_implies_read: bool,
    limit: usize,
    q: usize,
)
    requires
        pt_wf(c.pt),
        pt_wf(c.own_pt),
        0 <= page,
        end <= usize::MAX,
        aligned_4k(page),
        aligned_4k(end),
        aligned_4k(q as int),
    ensures
        ({
            let t = clone_pages(c, page, end, cow, write_implies_read, limit);
            &&& pt_wf(t.pt)
            &&& pt_wf(t.own_pt)
            &&& t.areas == c.areas
            &&& t.own_areas == c.own_areas
            &&& !(page <= q < end) ==> pte_at(t.pt, q) == pte_at(c.pt, q) && pte_at(t.own_pt, q)
                == pte_at(c.own_pt, q)
            &&& forall|f: usize| c.copied.contains(f) ==> #[trigger] t.copied.contains(f)
        }),
    decreases (if page < end {
            end - page
        } else {
            0
        }),
{
    if page < end && c.error is None {
        let p = page as usize;
        let n = clone_page(c, p, cow, write_implies_read, limit);
        let other = if p == 0 {
            0x1000usize
        } else {
            0usize
        };
        if p != q {
            lemma_clone_other_page(c, p, q, cow, write_implies_read, limit);
        } else {
            lemma_clone_other_page(c, p, other, cow, write_implies_read, limit);
        }
        assert forall|f: usize| c.copied.contains(f) implies #[trigger] n.copied.contains(f) by {
            let i = choose|i: int| 0 <= i < c.copied.len() && c.copied[i] == f;
            assert(n.copied[i] == f);
        }
        lemma_clone_elsewhere(n, page + 0x1000, end, cow, write_implies_read, limit, q);
    }
}

/// Whether an area is the same for both sides only until one of them writes:
/// neither a shared file, nor shared memory, nor a range of physical memory.
pub open spec fn is_private(backend: Backend) -> bool {
    match backend {
        Backend::Alloc { .. } => true,
        Backend::Cow(_) => true,
        Backend::File(m) => !m.shared,
        Backend::Shared { .. } => false,
        Backend::Linear { .. } => false,
    }
}

/// What copying the areas from the `i`-th on does to a page of the `k`-th.
proof fn lemma_clone_areas_page(
    c: Cloning,
    s: Seq<MemoryArea>,
    i: int,
    write_implies_read: bool,
    limit: usize,
    k: int,
    q: usize,
)
    requires
        0 <= i <= s.len(),
        0 <= k < s.len(),
        areas_wf(s),
        pt_wf(c.pt),
        pt_wf(c.own_pt),
        aligned_4k(q as int),
        s[k].has(q as int),
        c.own_areas.len() == s.len(),
        c.error is None,
        clone_areas(c, s, i, write_implies_read, limit).error is None,
    ensures
        ({
            let t = clone_areas(c, s, i, write_implies_read, limit);
            &&& t.own_areas.len() == s.len()
            &&& forall|f: usize| c.copied.contains(f) ==> #[trigger] t.copied.contains(f)
            &&& k < i ==> pte_at(t.pt, q) == pte_at(c.pt, q) && pte_at(t.own_pt, q) == pte_at(
                c.own_pt,
                q,
            ) && t.own_areas[k] == c.own_areas[k]
            &&& k >= i && s[k].start < USER_ASPACE_LIMIT ==> {
                &&& t.own_areas[k] == (MemoryArea {
                    backend: if is_private(s[k].backend) {
                        t.own_areas[k].backend
                    } else {
                        c.own_areas[k].backend
                    },
                    ..c.own_areas[k]
                })
                &&& is_private(s[k].backend) ==> t.own_areas[k].backend is Cow
                &&& resident(c.own_pt, q) && (is_private(s[k].backend) || s[k].backend is File)
                    ==> page_is_shared(c, t, q, is_private(s[k].backend))
                &&& s[k].backend is Shared || s[k].backend is Linear ==> pte_at(t.own_pt, q)
                    == pte_at(c.own_pt, q)
            }
        }),
    decreases s.len() - i,
{
    reveal(areas_wf);
    if i < s.len() {
        assert(s[i].wf());
        let t = clone_areas(c, s, i, write_implies_read, limit);
        if s[i].start >= USER_ASPACE_LIMIT {
            lemma_clone_areas_page(c, s, i + 1, write_implies_read, limit, k, q);
        } else {
            let (cow, backend) = carried(s[i].backend);
            assert(cow == is_private(s[i].backend));
            let stored = spec_effective_pte_flags(s[i].flags, write_implies_read);
            let e = entered(
                c.areas,
                MemoryArea { backend, ..s[i] },
                c.pt,
                c.frames,
                stored,
                limit,
            );
            let size = (s[i].end - s[i].start) as usize;
            lemma_mapping_elsewhere(
                backend,
                c.pt,
                c.frames,
                s[i].start,
                size,
                s[i].flags,
                stored,
                limit,
                q,
            );
            assert(e.0 is Ok);
            let own = Cloning {
                areas: e.1,
                pt: e.2,
                frames: e.3,
                own_areas: if cow {
                    c.own_areas.update(i, MemoryArea { backend, ..c.own_areas[i] })
                } else {
                    c.own_areas
                },
                ..c
            };
            let p = if copies_pages(s[i].backend) {
                clone_pages(
                    own,
                    s[i].start as int,
                    s[i].end as int,
                    cow,
                    write_implies_read,
                    limit,
                )
            } else {
                own
            };
            assert(t == clone_areas(p, s, i + 1, write_implies_read, limit));
            assert(p.error is None) by {
                if p.error is Some {
                    assert(clone_areas(p, s, i + 1, write_implies_read, limit) == p);
                }
            }
            if copies_pages(s[i].backend) {
                lemma_clone_elsewhere(
                    own,
                    s[i].start as int,
                    s[i].end as int,
                    cow,
                    write_implies_read,
                    limit,
                    q,
                );
            }
            lemma_clone_areas_page(p, s, i + 1, write_implies_read, limit, k, q);
            if k == i {
                if copies_pages(s[i].backend) && resident(c.own_pt, q) {
                    lemma_cloned_page_is_shared(
                        own,
                        s[i].start as int,
                        s[i].end as int,
                        cow,
                        write_implies_read,
                        limit,
                        q,
                    );
                }
            } else {
                assert(!s[i].has(q as int)) by {
                    if i < k {
                        assert(s[i].end <= s[k].start);
                    } else {
                        assert(s[k].end <= s[i].start);
                    }
                }
            }
        }
    }
}

/// After a space was copied, a page of an area that is not a shared file,
/// shared memory or physical memory can be written by neither side, and both
/// see the frame that was there, to which there is one more reference. The
/// area is copy-on-write from then on. A page of a shared file keeps its
/// permissions on both sides.
pub proof fn lemma_forked_pages(sp: Space, pt: PtMap, frames: FrameState, k: int, q: usize)
    requires
        areas_wf(sp.areas),
        pt_wf(sp.pt),
        pt_wf(pt),
        0 <= k < sp.areas.len(),
        sp.areas[k].start < 0x8000_0000_0000,
        sp.areas[k].start <= q < sp.areas[k].end,
        aligned_4k(q as int),
        pte_at(sp.pt, q) is Some,
        shown_frame(sp.pt, q) != 0,
        cloned(sp, pt, frames).error is None,
    ensures
        ({
            let c = cloned(sp, pt, frames);
            let before = pte_at(sp.pt, q)->0;
            &&& match sp.areas[k].backend {
                Backend::Shared { .. } | Backend::Linear { .. } => pte_at(c.own_pt, q) == Some(
                    before,
                ),
                b => {
                    let keeps = b matches Backend::File(m) && m.shared;
                    &&& pte_at(c.own_pt, q) matches Some(e) && e.frame == before.frame
                        && e.flags.write == (keeps && before.flags.write)
                    &&& pte_at(c.pt, q) matches Some(e) && e.frame == before.frame - before.frame
                        % 0x1000 && e.flags.write == (keeps && before.flags.write)
                        && e.flags.execute == before.flags.execute && e.flags.user
                        == before.flags.user && (before.flags.read ==> e.flags.read)
                    &&& c.copied.contains(before.frame)
                    &&& !keeps ==> c.own_areas[k].backend is Cow
                    &&& keeps ==> c.own_areas[k].backend == b
                },
            }
            &&& c.own_areas[k].start == sp.areas[k].start
            &&& c.own_areas[k].end == sp.areas[k].end
            &&& c.own_areas[k].flags == sp.areas[k].flags
        }),
{
    lemma_clone_areas_page(
        Cloning {
            error: None,
            areas: Seq::empty(),
            pt,
            own_areas: sp.areas,
            own_pt: sp.pt,
            frames,
            copied: Seq::empty(),
            tracker: TlbInvalidationTracker::nothing(),
        },
        sp.areas,
        0,
        sp.write_implies_read,
        sp.limit,
        k,
        q,
    );
}

/// What is copied of the areas from the `i`-th on.
#[verifier::rlimit(40)]
#[verifier::spinoff_prover]
proof fn lemma_clone_areas_areas(
    c: Cloning,
    s: Seq<MemoryArea>,
    i: int,
    write_implies_read: bool,
    limit: usize,
    x: MemoryArea,
)
    requires
        0 <= i <= s.len(),
        areas_wf(s),
        areas_wf(c.areas),
        c.error is None,
        clone_areas(c, s, i, write_implies_read, limit).error is None,
    ensures
        ({
            let t = clone_areas(c, s, i, write_implies_read, limit);
            t.areas.contains(x) <==> c.areas.contains(x) || exists|k: int|
                i <= k < s.len() && (#[trigger] s[k]).start < USER_ASPACE_LIMIT && x == (
                MemoryArea { backend: carried(s[k].backend).1, ..s[k] })
        }),
    decreases s.len() - i,
{
    if i < s.len() {
        lemma_area_wf(s, i);
        let t = clone_areas(c, s, i, write_implies_read, limit);
        if s[i].start >= USER_ASPACE_LIMIT {
            lemma_clone_areas_areas(c, s, i + 1, write_implies_read, limit, x);
        } else {
            let (cow, backend) = carried(s[i].backend);
            let a = MemoryArea { backend, ..s[i] };
            let e = entered(
                c.areas,
                a,
                c.pt,
                c.frames,
                spec_effective_pte_flags(s[i].flags, write_implies_read),
                limit,
            );
            assert(e.0 is Ok);
            let own = Cloning {
                areas: e.1,
                pt: e.2,
                frames: e.3,
                own_areas: if cow {
                    c.own_areas.update(i, MemoryArea { backend, ..c.own_areas[i] })
                } else {
                    c.own_areas
                },
                ..c
            };
            let p = if copies_pages(s[i].backend) {
                clone_pages(
                    own,
                    s[i].start as int,
                    s[i].end as int,
                    cow,
                    write_implies_read,
                    limit,
                )
            } else {
                own
            };
            assert(t == clone_areas(p, s, i + 1, write_implies_read, limit));
            assert(p.error is None) by {
                if p.error is Some {
                    assert(clone_areas(p, s, i + 1, write_implies_read, limit) == p);
                }
            }
            lemma_clone_pages_keep_areas(
                own,
                s[i].start as int,
                s[i].end as int,
                cow,
                write_implies_read,
                limit,
            );
            lemma_with_area_wf(c.areas, a);
            lemma_rank(c.areas, a.start);
            let n = rank(c.areas, a.start) as int;
            let w = with_area(c.areas, a);
            assert(w.contains(x) <==> c.areas.contains(x) || x == a) by {
                assert(w[n] == a);
                if c.areas.contains(x) {
                    let j = choose|j: int| 0 <= j < c.areas.len() && c.areas[j] == x;
                    assert(w[if j < n {
                        j
                    } else {
                        j + 1
                    }] == x);
                }
                if w.contains(x) && x != a {
                    let j = choose|j: int| 0 <= j < w.len() && w[j] == x;
                    assert(c.areas[if j < n {
                        j
                    } else {
                        j - 1
                    }] == x);
                }
            }
            lemma_clone_areas_areas(p, s, i + 1, write_implies_read, limit, x);
            if x == a {
                assert(s[i].start < USER_ASPACE_LIMIT);
            }
        }
    }
}

proof fn lemma_clone_pages_keep_areas(
    c: Cloning,
    page: int,
    end: int,
    cow: bool,
    write_implies_read: bool,
    limit: usize,
)
    ensures
        clone_pages(c, page, end, cow, write_implies_read, limit).areas == c.areas,
    decreases (if page < end {
            end - page
        } else {
            0
        }),
{
    if page < end && c.error is None {
        lemma_clone_pages_keep_areas(
            clone_page(c, page as usize, cow, write_implies_read, limit),
            page + 0x1000,
            end,
            cow,
            write_implies_read,
            limit,
        );
    }
}

/// The copy has an area for each area of the user, at the same addresses and
/// with the same flags, and no other. Anonymous memory that grows down does so
/// in the copy; what comes from a file comes from the same place in it.
pub proof fn lemma_forked_areas(sp: Space, pt: PtMap, frames: FrameState, k: int)
    requires
        areas_wf(sp.areas),
        0 <= k < sp.areas.len(),
        sp.areas[k].start < 0x8000_0000_0000,
        cloned(sp, pt, frames).error is None,
    ensures
        ({
            let c = cloned(sp, pt, frames);
            let a = sp.areas[k];
            exists|j: int|
                0 <= j < c.areas.len() && (#[trigger] c.areas[j]).start == a.start && c.areas[j].end
                    == a.end && c.areas[j].flags == a.flags && match a.backend {
                    Backend::Alloc { grows_down, .. } => c.areas[j].backend matches Backend::Cow(w)
                        && *w.inner == (Backend::Alloc { populate: false, grows_down }),
                    Backend::File(m) => if m.shared {
                        c.areas[j].backend == a.backend
                    } else {
                        c.areas[j].backend matches Backend::Cow(w) && *w.inner == a.backend
                    },
                    _ => c.areas[j].backend == a.backend,
                }
        }),
        forall|j: int|
            0 <= j < cloned(sp, pt, frames).areas.len() ==> exists|n: int|
                0 <= n < sp.areas.len() && (#[trigger] sp.areas[n]).start == (
                #[trigger] cloned(sp, pt, frames).areas[j]).start && sp.areas[n].start
                    < 0x8000_0000_0000,
{
    let c = cloned(sp, pt, frames);
    let start = Cloning {
        error: None,
        areas: Seq::empty(),
        pt,
        own_areas: sp.areas,
        own_pt: sp.pt,
        frames,
        copied: Seq::empty(),
        tracker: TlbInvalidationTracker::nothing(),
    };
    assert(areas_wf(start.areas)) by {
        reveal(areas_wf);
    }
    let x = MemoryArea { backend: carried(sp.areas[k].backend).1, ..sp.areas[k] };
    lemma_clone_areas_areas(start, sp.areas, 0, sp.write_implies_read, sp.limit, x);
    assert(c.areas.contains(x)) by {
        assert(sp.areas[k].start < USER_ASPACE_LIMIT);
    }
    let j = choose|j: int| 0 <= j < c.areas.len() && c.areas[j] == x;
    assert(c.areas[j].start == sp.areas[k].start);
    assert forall|j: int| 0 <= j < c.areas.len() implies exists|n: int|
        0 <= n < sp.areas.len() && (#[trigger] sp.areas[n]).start == (#[trigger] c.areas[j]).start
            && sp.areas[n].start < 0x8000_0000_0000 by {
        lemma_clone_areas_areas(
            start,
            sp.areas,
            0,
            sp.write_implies_read,
            sp.limit,
            c.areas[j],
        );
        assert(c.areas.contains(c.areas[j]));
    }
}

/// Every copied page is one more reference to its frame.
#[verifier::rlimit(40)]
#[verifier::spinoff_prover]
proof fn lemma_clone_areas_counts(
    c: Cloning,
    s: Seq<MemoryArea>,
    i: int,
    write_implies_read: bool,
    limit: usize,
    base: FrameState,
)
    requires
        0 <= i <= s.len(),
        areas_wf(s),
        pt_wf(c.pt),
        pt_wf(c.own_pt),
        c.error is None,
        c.frames == (FrameState { counts: inc_all(base.counts, c.copied), ..base }),
        clone_areas(c, s, i, write_implies_read, limit).error is None,
    ensures
        ({
            let t = clone_areas(c, s, i, write_implies_read, limit);
            t.frames == (FrameState { counts: inc_all(base.counts, t.copied), ..base })
        }),
    decreases s.len() - i,
{
    if i < s.len() {
        lemma_area_wf(s, i);
        let t = clone_areas(c, s, i, write_implies_read, limit);
        if s[i].start >= USER_ASPACE_LIMIT {
            lemma_clone_areas_counts(c, s, i + 1, write_implies_read, limit, base);
        } else {
            let (cow, backend) = carried(s[i].backend);
            let stored = spec_effective_pte_flags(s[i].flags, write_implies_read);
            let a = MemoryArea { backend, ..s[i] };
            let e = entered(c.areas, a, c.pt, c.frames, stored, limit);
            lemma_mapping_elsewhere(
                backend,
                c.pt,
                c.frames,
                s[i].start,
                (s[i].end - s[i].start) as usize,
                s[i].flags,
                stored,
                limit,
                0,
            );
            assert(e.0 is Ok);
            let own = Cloning {
                areas: e.1,
                pt: e.2,
                frames: e.3,
                own_areas: if cow {
                    c.own_areas.update(i, MemoryArea { backend, ..c.own_areas[i] })
                } else {
                    c.own_areas
                },
                ..c
            };
            let p = if copies_pages(s[i].backend) {
                clone_pages(
                    own,
                    s[i].start as int,
                    s[i].end as int,
                    cow,
                    write_implies_read,
                    limit,
                )
            } else {
                own
            };
            assert(t == clone_areas(p, s, i + 1, write_implies_read, limit));
            assert(p.error is None) by {
                if p.error is Some {
                    assert(clone_areas(p, s, i + 1, write_implies_read, limit) == p);
                }
            }
            lemma_clone_pages_counts(
                own,
                s[i].start as int,
                s[i].end as int,
                cow,
                write_implies_read,
                limit,
                base,
            );
            lemma_clone_elsewhere(
                own,
                s[i].start as int,
                s[i].end as int,
                cow,
                write_implies_read,
                limit,
                0,
            );
            lemma_clone_areas_counts(p, s, i + 1, write_implies_read, limit, base);
        }
    }
}

/// After a space was copied, a frame that both sides see has more references
/// than before, and no frame has fewer. None was taken or given back.
pub proof fn lemma_forked_frames_are_counted(sp: Space, pt: PtMap, frames: FrameState, f: usize)
    requires
        areas_wf(sp.areas),
        pt_wf(sp.pt),
        pt_wf(pt),
        cloned(sp, pt, frames).error is None,
        forall|i: int|
            0 <= i < frames.counts.refs.len() ==> (#[trigger] frames.counts.refs[i]) + cloned(
                sp,
                pt,
                frames,
            ).copied.len() <= usize::MAX,
        frames.counts.has(f),
    ensures
        ({
            let c = cloned(sp, pt, frames);
            let n = (f - frames.counts.base) / 0x1000;
            &&& c.frames.available == frames.available
            &&& c.frames.released == frames.released
            &&& c.frames.counts.refs[n] >= frames.counts.refs[n]
            &&& c.copied.contains(f) ==> c.frames.counts.refs[n] > frames.counts.refs[n]
        }),
{
    let c = cloned(sp, pt, frames);
    assert(inc_all(frames.counts, Seq::<usize>::empty()) == frames.counts);
    lemma_clone_areas_counts(
        Cloning {
            error: None,
            areas: Seq::empty(),
            pt,
            own_areas: sp.areas,
            own_pt: sp.pt,
            frames,
            copied: Seq::empty(),
            tracker: TlbInvalidationTracker::nothing(),
        },
        sp.areas,
        0,
        sp.write_implies_read,
        sp.limit,
        frames,
    );
    lemma_inc_all_counts(frames.counts, c.copied, f);
    if c.copied.contains(f) {
        lemma_listed_occurs(frames.counts, c.copied, f);
    }
}

} // verus!
