//! Taking mappings out of a page table.
use vstd::prelude::*;

use super::backend::Backend;
use super::file_map::{size_of_file, FileMapping, FileSizes};
use super::paging::{
    aligned_4k, cuts_no_page, entries_disjoint, lemma_drop_entry, lemma_drop_whole_entry,
    lemma_lookup_finds, lemma_lookup_inside_is, lemma_size_multiple_of_4k, lemma_small_entry,
    lookup, pt_wf, pte_at, resident, shown_frame, PageSize, PageTable, Pte, PtMap, PAGE_SIZE_4K,
};
use super::reclaim::{
    lemma_record_covers, DeferredReclaims, FileWriteback, Reclaims, TlbInvalidationTracker,
    Writeback,
};

verus! {

/// What has happened while a range is taken out of a page table.
pub ghost struct Unmapping {
    pub ok: bool,
    pub pt: PtMap,
    pub reclaims: Reclaims,
    pub tracker: TlbInvalidationTracker,
    /// Pages of a shared file that may have been written.
    pub dirty: Seq<u32>,
}

/// The number in the file of a page that was mapped by `e`, if the page has to
/// go back to the file.
pub open spec fn written_page(
    file: Option<(FileMapping, usize)>,
    page: usize,
    e: Pte,
) -> Option<u32> {
    match file {
        Some((m, size)) => if m.shared && e.flags.write {
            match m.window(page as int, size) {
                Some(w) => Some((w.0 / 0x1000) as u32),
                None => None,
            }
        } else {
            None
        },
        None => None,
    }
}

/// Takes one page out. Only small pages can be taken out one by one.
pub open spec fn drop_page(
    u: Unmapping,
    page: usize,
    file: Option<(FileMapping, usize)>,
) -> Unmapping {
    match pte_at(u.pt, page) {
        None => u,
        Some(e) => if e.size != PageSize::Size4K {
            Unmapping { ok: false, ..u }
        } else if e.frame == 0 {
            Unmapping { pt: u.pt.remove(page), ..u }
        } else {
            Unmapping {
                ok: u.ok,
                pt: u.pt.remove(page),
                reclaims: u.reclaims.with_frame(e.frame),
                tracker: u.tracker.recorded(page, 0x1000),
                dirty: match written_page(file, page, e) {
                    Some(pn) => u.dirty.push(pn),
                    None => u.dirty,
                },
            }
        },
    }
}

/// Takes the pages of `[page, end)` out that are there.
pub open spec fn drop_pages(
    u: Unmapping,
    page: int,
    end: int,
    file: Option<(FileMapping, usize)>,
) -> Unmapping
    decreases (if page < end {
            end - page
        } else {
            0
        }),
{
    if page >= end || !u.ok {
        u
    } else {
        drop_pages(drop_page(u, page as usize, file), page + 0x1000, end, file)
    }
}

/// Takes the pages of `[page, end)` out, all of which have to be there.
pub open spec fn drop_populated(u: Unmapping, page: int, end: int) -> Unmapping
    decreases (if page < end {
            end - page
        } else {
            0
        }),
{
    if page >= end {
        u
    } else {
        match pte_at(u.pt, page as usize) {
            None => Unmapping { ok: false, ..u },
            Some(e) => if e.size.spec_bytes() > end - page {
                Unmapping { ok: false, ..u }
            } else {
                drop_populated(
                    Unmapping {
                        pt: u.pt.remove(lookup(u.pt, page as usize)->0),
                        tracker: if e.frame != 0 {
                            u.tracker.recorded(page as usize, e.size.spec_bytes())
                        } else {
                            u.tracker
                        },
                        ..u
                    },
                    page + e.size.spec_bytes(),
                    end,
                )
            },
        }
    }
}

/// Takes `[start, start + size)` out of a mapping of `backend`.
#[verifier::opaque]
pub open spec fn unmapped(
    backend: Backend,
    u: Unmapping,
    start: usize,
    size: usize,
    sizes: Seq<(u64, usize)>,
) -> Unmapping {
    let end = start + size;
    let kept = match backend.bottom() {
        Backend::Shared { .. } | Backend::File(_) => Unmapping {
            reclaims: u.reclaims.with_backend(backend.bottom()),
            ..u
        },
        _ => u,
    };
    if end > usize::MAX {
        Unmapping { ok: false, ..kept }
    } else {
        match backend.bottom() {
            Backend::Shared { .. } | Backend::Linear { .. } => drop_populated(
                kept,
                start as int,
                end,
            ),
            Backend::File(mapping) => {
                let t = drop_pages(
                    Unmapping { dirty: Seq::empty(), ..kept },
                    start as int,
                    end,
                    Some((mapping, size_of_file(sizes, mapping.file))),
                );
                Unmapping {
                    reclaims: if t.dirty.len() > 0 {
                        t.reclaims.with_writeback(
                            Writeback { file: mapping.file, pages: t.dirty, sync: false },
                        )
                    } else {
                        t.reclaims
                    },
                    dirty: u.dirty,
                    ..t
                }
            },
            _ => drop_pages(u, start as int, end, None),
        }
    }
}

/// The state of the objects that an unmapping works on.
pub open spec fn unmapping(
    pt: PtMap,
    reclaims: Reclaims,
    tracker: TlbInvalidationTracker,
) -> Unmapping {
    Unmapping { ok: true, pt, reclaims, tracker, dirty: Seq::empty() }
}

fn drop_present_range(
    start: usize,
    end: usize,
    file: Option<(FileMapping, usize)>,
    pt: &mut PageTable,
    reclaim: &mut DeferredReclaims,
    tracker: &mut TlbInvalidationTracker,
    dirty: &mut Vec<u32>,
) -> (ok: bool)
    requires
        old(pt).wf(),
        start <= end,
        aligned_4k(start as int),
        aligned_4k(end as int),
        old(reclaim)@.has_room((end - start) / 0x1000),
    ensures
        final(pt).wf(),
        final(pt).same_kind(old(pt)),
        (Unmapping {
            ok,
            pt: final(pt)@,
            reclaims: final(reclaim)@,
            tracker: *final(tracker),
            dirty: final(dirty)@,
        }) == drop_pages(
            Unmapping {
                ok: true,
                pt: old(pt)@,
                reclaims: old(reclaim)@,
                tracker: *old(tracker),
                dirty: old(dirty)@,
            },
            start as int,
            end as int,
            file,
        ),
{
    let ghost u0 = Unmapping {
        ok: true,
        pt: pt@,
        reclaims: reclaim@,
        tracker: *tracker,
        dirty: dirty@,
    };
    let mut page: usize = start;
    while page < end
        invariant
            start <= page <= end,
            u0 == (Unmapping {
                ok: true,
                pt: old(pt)@,
                reclaims: old(reclaim)@,
                tracker: *old(tracker),
                dirty: old(dirty)@,
            }),
            aligned_4k(page as int),
            aligned_4k(end as int),
            pt.wf(),
            pt.same_kind(old(pt)),
            reclaim@.has_room((end - page) / 0x1000),
            drop_pages(u0, start as int, end as int, file) == drop_pages(
                Unmapping {
                    ok: true,
                    pt: pt@,
                    reclaims: reclaim@,
                    tracker: *tracker,
                    dirty: dirty@,
                },
                page as int,
                end as int,
                file,
            ),
        decreases end - page,
    {
        assert((end - page) / 0x1000 == 1 + (end - (page + 0x1000)) / 0x1000);
        match pt.entry(page) {
            None => {},
            Some(e) => {
                if e.size != PageSize::Size4K {
                    proof {
                        let u = Unmapping {
                            ok: true,
                            pt: pt@,
                            reclaims: reclaim@,
                            tracker: *tracker,
                            dirty: dirty@,
                        };
                        let t = drop_page(u, page, file);
                        assert(t == Unmapping { ok: false, ..u });
                        assert(drop_pages(t, page + 0x1000, end as int, file) == t);
                        assert(drop_pages(u, page as int, end as int, file) == t);
                    }
                    return false;
                }
                proof {
                    lemma_small_entry(pt@, page);
                }
                let _ = pt.unmap(page);
                if e.frame != 0 {
                    tracker.record(page, PAGE_SIZE_4K);
                    if let Some((mapping, size)) = file {
                        if mapping.shared && e.flags.write {
                            if let Some((offset, _)) = mapping.page_read_window_at_size(
                                page,
                                size,
                            ) {
                                let number: u64 = offset / 0x1000;
                                #[verifier::truncate]
                                let pn: u32 = number as u32;
                                dirty.push(pn);
                            }
                        }
                    }
                    reclaim.defer_frame(e.frame);
                }
            },
        }
        page = page + PAGE_SIZE_4K;
    }
    true
}

/// Takes a range out that has to be mapped completely.
fn unmap_populated_range(
    start: usize,
    size: usize,
    pt: &mut PageTable,
    tracker: &mut TlbInvalidationTracker,
    Ghost(reclaims): Ghost<Reclaims>,
) -> (ok: bool)
    requires
        old(pt).wf(),
        start + size <= usize::MAX,
    ensures
        final(pt).wf(),
        final(pt).same_kind(old(pt)),
        (Unmapping {
            ok,
            pt: final(pt)@,
            reclaims,
            tracker: *final(tracker),
            dirty: Seq::empty(),
        }) == drop_populated(
            unmapping(old(pt)@, reclaims, *old(tracker)),
            start as int,
            start + size,
        ),
{
    let end: usize = start + size;
    let mut page: usize = start;
    while page < end
        invariant
            page <= end,
            end == start + size,
            pt.wf(),
            pt.same_kind(old(pt)),
            drop_populated(
                unmapping(old(pt)@, reclaims, *old(tracker)),
                start as int,
                end as int,
            ) == drop_populated(
                unmapping(pt@, reclaims, *tracker),
                page as int,
                end as int,
            ),
        decreases end - page,
    {
        match pt.entry(page) {
            None => {
                return false;
            },
            Some(e) => {
                let mapped_size: usize = e.size.bytes();
                if mapped_size > end - page {
                    return false;
                }
                let _ = pt.unmap(page);
                if e.frame != 0 {
                    tracker.record(page, mapped_size);
                }
                page = page + mapped_size;
            },
        }
    }
    true
}

impl Backend {
    /// Takes `[start, start + size)` out of the page table. Frames, and the
    /// backend where dropping it may take long, wait in `reclaim`.
    pub fn unmap_tracked(
        &self,
        start: usize,
        size: usize,
        sizes: &FileSizes,
        pt: &mut PageTable,
        reclaim: &mut DeferredReclaims,
        tracker: &mut TlbInvalidationTracker,
    ) -> (ok: bool)
        requires
            old(pt).wf(),
            aligned_4k(start as int),
            aligned_4k(size as int),
            old(reclaim)@.has_room(size as int / 0x1000),
        ensures
            final(pt).wf(),
            final(pt).same_kind(old(pt)),
            (Unmapping {
                ok,
                pt: final(pt)@,
                reclaims: final(reclaim)@,
                tracker: *final(tracker),
                dirty: Seq::empty(),
            }) == unmapped(
                *self,
                unmapping(old(pt)@, old(reclaim)@, *old(tracker)),
                start,
                size,
                sizes@,
            ),
        decreases self,
    {
        reveal(unmapped);
        match self {
            Backend::Cow(cow) => (&*cow.inner).unmap_tracked(
                start,
                size,
                sizes,
                pt,
                reclaim,
                tracker,
            ),
            Backend::Shared { .. } => {
                reclaim.defer_backend(self.clone());
                if start.checked_add(size).is_none() {
                    return false;
                }
                unmap_populated_range(start, size, pt, tracker, Ghost(reclaim@))
            },
            Backend::Linear { .. } => {
                if start.checked_add(size).is_none() {
                    return false;
                }
                unmap_populated_range(start, size, pt, tracker, Ghost(reclaim@))
            },
            Backend::Alloc { .. } => {
                if start.checked_add(size).is_none() {
                    return false;
                }
                let mut dirty: Vec<u32> = Vec::new();
                assert(dirty@ =~= Seq::empty());
                let ok: bool = drop_present_range(
                    start,
                    start + size,
                    None,
                    pt,
                    reclaim,
                    tracker,
                    &mut dirty,
                );
                proof {
                    lemma_no_file_no_dirty(
                        unmapping(old(pt)@, old(reclaim)@, *old(tracker)),
                        start as int,
                        start + size,
                    );
                }
                ok
            },
            Backend::File(mapping) => {
                reclaim.defer_backend(self.clone());
                if start.checked_add(size).is_none() {
                    return false;
                }
                let mut writeback: FileWriteback = FileWriteback::for_unmap(mapping.file);
                let file_size: usize = sizes.size(mapping.file);
                let ok: bool = drop_present_range(
                    start,
                    start + size,
                    Some((*mapping, file_size)),
                    pt,
                    reclaim,
                    tracker,
                    &mut writeback.page_numbers,
                );
                if !writeback.is_empty() {
                    reclaim.defer_file_writeback(writeback);
                }
                ok
            },
        }
    }
}

/// Without a file no page goes back to one.
proof fn lemma_no_file_no_dirty(u: Unmapping, page: int, end: int)
    ensures
        drop_pages(u, page, end, None).dirty == u.dirty,
    decreases (if page < end {
            end - page
        } else {
            0
        }),
{
    if page < end && u.ok {
        lemma_no_file_no_dirty(drop_page(u, page as usize, None), page + 0x1000, end);
    }
}

/// Taking pages out does not change where frames wait.
pub(crate) proof fn lemma_unmapped_keeps_buffer(
    backend: Backend,
    u: Unmapping,
    start: usize,
    size: usize,
    sizes: Seq<(u64, usize)>,
)
    ensures
        unmapped(backend, u, start, size, sizes).reclaims.retirement == u.reclaims.retirement,
        unmapped(backend, u, start, size, sizes).dirty == u.dirty,
{
    reveal(unmapped);
    let end = start + size;
    let kept = match backend.bottom() {
        Backend::Shared { .. } | Backend::File(_) => Unmapping {
            reclaims: u.reclaims.with_backend(backend.bottom()),
            ..u
        },
        _ => u,
    };
    match backend.bottom() {
        Backend::Shared { .. } | Backend::Linear { .. } => {
            lemma_drop_populated_keeps_buffer(kept, start as int, end);
        },
        Backend::File(mapping) => {
            lemma_drop_pages_keeps_buffer(
                Unmapping { dirty: Seq::empty(), ..kept },
                start as int,
                end,
                Some((mapping, size_of_file(sizes, mapping.file))),
            );
        },
        _ => {
            lemma_drop_pages_keeps_buffer(u, start as int, end, None);
            lemma_no_file_no_dirty(u, start as int, end);
        },
    }
}

proof fn lemma_drop_pages_keeps_buffer(
    u: Unmapping,
    page: int,
    end: int,
    file: Option<(FileMapping, usize)>,
)
    ensures
        drop_pages(u, page, end, file).reclaims.retirement == u.reclaims.retirement,
    decreases (if page < end {
            end - page
        } else {
            0
        }),
{
    if page < end && u.ok {
        lemma_drop_pages_keeps_buffer(drop_page(u, page as usize, file), page + 0x1000, end, file);
    }
}

proof fn lemma_drop_populated_keeps_buffer(u: Unmapping, page: int, end: int)
    ensures
        drop_populated(u, page, end).reclaims == u.reclaims,
        drop_populated(u, page, end).dirty == u.dirty,
    decreases (if page < end {
            end - page
        } else {
            0
        }),
{
    if page < end {
        if let Some(e) = pte_at(u.pt, page as usize) {
            if e.size.spec_bytes() <= end - page {
                lemma_drop_populated_keeps_buffer(
                    Unmapping {
                        pt: u.pt.remove(lookup(u.pt, page as usize)->0),
                        tracker: if e.frame != 0 {
                            u.tracker.recorded(page as usize, e.size.spec_bytes())
                        } else {
                            u.tracker
                        },
                        ..u
                    },
                    page + e.size.spec_bytes(),
                    end,
                );
            }
        }
    }
}

/// A range of lazily mapped pages is empty once it was taken out, and every
/// page outside of it is as it was.
pub proof fn lemma_dropped_range_is_empty(
    u: Unmapping,
    page: usize,
    end: usize,
    file: Option<(FileMapping, usize)>,
    q: usize,
)
    requires
        pt_wf(u.pt),
        entries_disjoint(u.pt),
        aligned_4k(page as int),
        aligned_4k(end as int),
        aligned_4k(q as int),
        u.ok,
        page <= end,
        drop_pages(u, page as int, end as int, file).ok,
    ensures
        pt_wf(drop_pages(u, page as int, end as int, file).pt),
        entries_disjoint(drop_pages(u, page as int, end as int, file).pt),
        page <= q < end ==> lookup(drop_pages(u, page as int, end as int, file).pt, q) is None,
        !(page <= q < end) ==> pte_at(drop_pages(u, page as int, end as int, file).pt, q)
            == pte_at(u.pt, q) && lookup(drop_pages(u, page as int, end as int, file).pt, q)
            == lookup(u.pt, q),
    decreases end - page,
{
    if page < end {
        let t = drop_page(u, page, file);
        let next = (page + 0x1000) as usize;
        assert(drop_pages(u, page as int, end as int, file) == drop_pages(
            t,
            next as int,
            end as int,
            file,
        ));
        assert(t.ok) by {
            if !t.ok {
                assert(drop_pages(t, next as int, end as int, file) == t);
            }
        }
        if pte_at(u.pt, page) is Some {
            assert(t.pt == u.pt.remove(page));
            lemma_drop_entry(u.pt, page, q);
        }
        lemma_dropped_range_is_empty(t, next, end, file, q);
    }
}

/// A range of pages that are all there is empty once it was taken out, and every
/// page outside of it is as it was.
pub proof fn lemma_dropped_populated_is_empty(u: Unmapping, page: usize, end: usize, q: usize)
    requires
        pt_wf(u.pt),
        entries_disjoint(u.pt),
        aligned_4k(page as int),
        aligned_4k(end as int),
        aligned_4k(q as int),
        u.ok,
        page <= end,
        cuts_no_page(u.pt, page),
        drop_populated(u, page as int, end as int).ok,
    ensures
        pt_wf(drop_populated(u, page as int, end as int).pt),
        entries_disjoint(drop_populated(u, page as int, end as int).pt),
        page <= q < end ==> lookup(drop_populated(u, page as int, end as int).pt, q) is None,
        !(page <= q < end) ==> pte_at(drop_populated(u, page as int, end as int).pt, q) == pte_at(
            u.pt,
            q,
        ) && lookup(drop_populated(u, page as int, end as int).pt, q) == lookup(u.pt, q),
    decreases end - page,
{
    if page < end {
        let e = pte_at(u.pt, page)->0;
        lemma_lookup_finds(u.pt, page);
        lemma_drop_whole_entry(u.pt, page, q);
        let next = (page + e.size.spec_bytes()) as usize;
        let t = Unmapping {
            pt: u.pt.remove(page),
            tracker: if e.frame != 0 {
                u.tracker.recorded(page, e.size.spec_bytes())
            } else {
                u.tracker
            },
            ..u
        };
        assert(drop_populated(u, page as int, end as int) == drop_populated(
            t,
            next as int,
            end as int,
        ));
        lemma_dropped_populated_is_empty(t, next, end, q);
    }
}

/// Whether the pages of a mapping come one by one, as they are used.
pub open spec fn is_lazy(backend: Backend) -> bool {
    !(backend.bottom() is Shared) && !(backend.bottom() is Linear)
}

/// What was taken out of a mapping is translated no more, and every page outside
/// of it is as it was. A larger page may not reach across the start.
pub proof fn lemma_unmapped_part_is_empty(
    backend: Backend,
    u: Unmapping,
    start: usize,
    size: usize,
    sizes: Seq<(u64, usize)>,
    q: usize,
)
    requires
        is_lazy(backend) || cuts_no_page(u.pt, start),
        pt_wf(u.pt),
        entries_disjoint(u.pt),
        aligned_4k(start as int),
        aligned_4k(size as int),
        aligned_4k(q as int),
        u.ok,
        unmapped(backend, u, start, size, sizes).ok,
    ensures
        ({
            let t = unmapped(backend, u, start, size, sizes);
            &&& pt_wf(t.pt)
            &&& entries_disjoint(t.pt)
            &&& start <= q < start + size ==> lookup(t.pt, q) is None
            &&& !(start <= q < start + size) ==> pte_at(t.pt, q) == pte_at(u.pt, q) && lookup(
                t.pt,
                q,
            ) == lookup(u.pt, q)
        }),
{
    reveal(unmapped);
    let end = (start + size) as usize;
    match backend.bottom() {
        Backend::File(mapping) => {
            lemma_dropped_range_is_empty(
                Unmapping {
                    reclaims: u.reclaims.with_backend(backend.bottom()),
                    dirty: Seq::empty(),
                    ..u
                },
                start,
                end,
                Some((mapping, size_of_file(sizes, mapping.file))),
                q,
            );
        },
        Backend::Shared { .. } => {
            let kept = Unmapping { reclaims: u.reclaims.with_backend(backend.bottom()), ..u };
            lemma_dropped_populated_is_empty(kept, start, end, q);
        },
        Backend::Linear { .. } => {
            lemma_dropped_populated_is_empty(u, start, end, q);
        },
        _ => {
            lemma_dropped_range_is_empty(u, start, end, None, q);
        },
    }
}

/// Whether the pages of `[start, end)` of a mapping can be taken out whole: pages
/// that come one by one are small, and the others are all there, with no larger
/// page across either end.
pub open spec fn takeable(backend: Backend, pt: PtMap, start: usize, end: usize) -> bool {
    if is_lazy(backend) {
        forall|x: usize|
            start <= x < end && aligned_4k(x as int) && #[trigger] lookup(pt, x) is Some ==> (
            pte_at(pt, x)->0).size == PageSize::Size4K
    } else {
        &&& cuts_no_page(pt, start)
        &&& cuts_no_page(pt, end)
        &&& forall|x: usize|
            start <= x < end && aligned_4k(x as int) ==> #[trigger] lookup(pt, x) is Some
    }
}

/// Small pages that are taken out are given back and their translations dropped.
#[verifier::rlimit(40)]
#[verifier::spinoff_prover]
proof fn lemma_dropped_pages_are_given_back(
    u: Unmapping,
    page: usize,
    end: usize,
    file: Option<(FileMapping, usize)>,
    q: usize,
)
    requires
        pt_wf(u.pt),
        entries_disjoint(u.pt),
        aligned_4k(page as int),
        aligned_4k(end as int),
        aligned_4k(q as int),
        u.ok,
        u.tracker.wf(),
        page <= end,
        forall|x: usize|
            page <= x < end && aligned_4k(x as int) && #[trigger] lookup(u.pt, x) is Some ==> (
            pte_at(u.pt, x)->0).size == PageSize::Size4K,
    ensures
        ({
            let t = drop_pages(u, page as int, end as int, file);
            &&& t.ok
            &&& t.tracker.wf()
            &&& forall|f: usize| #[trigger]
                u.reclaims.frames.contains(f) ==> t.reclaims.frames.contains(f)
            &&& forall|n: u32| #[trigger] u.dirty.contains(n) ==> t.dirty.contains(n)
            &&& forall|a: int| #[trigger] u.tracker.covers(a) ==> t.tracker.covers(a)
            &&& t.reclaims.backends == u.reclaims.backends
            &&& page <= q < end && resident(u.pt, q) ==> {
                &&& t.reclaims.frames.contains(shown_frame(u.pt, q))
                &&& t.tracker.covers(q as int)
                &&& written_page(file, q, pte_at(u.pt, q)->0) matches Some(n) ==> t.dirty.contains(
                    n,
                )
            }
        }),
    decreases end - page,
{
    if page < end {
        let t = drop_page(u, page, file);
        let next = (page + 0x1000) as usize;
        assert(drop_pages(u, page as int, end as int, file) == drop_pages(
            t,
            next as int,
            end as int,
            file,
        ));
        if pte_at(u.pt, page) is Some {
            let e = pte_at(u.pt, page)->0;
            assert(lookup(u.pt, page) is Some);
            assert(e.size == PageSize::Size4K);
            assert(t.pt == u.pt.remove(page));
            assert(shown_frame(u.pt, page) == e.frame);
            lemma_drop_entry(u.pt, page, q);
            assert forall|x: usize|
                next <= x < end && aligned_4k(x as int) && #[trigger] lookup(t.pt, x) is Some implies (
            pte_at(t.pt, x)->0).size == PageSize::Size4K by {
                lemma_drop_entry(u.pt, page, x);
            }
            if e.frame != 0 {
                let before = u.reclaims.frames;
                let after = t.reclaims.frames;
                assert(after == before.push(e.frame));
                assert(after[before.len() as int] == e.frame);
                assert(after.contains(e.frame));
                assert forall|f: usize| #[trigger] before.contains(f) implies after.contains(f) by {
                    let k = choose|k: int| 0 <= k < before.len() && before[k] == f;
                    assert(after[k] == f);
                }
                assert forall|n: u32| #[trigger] u.dirty.contains(n) implies t.dirty.contains(n) by {
                    let k = choose|k: int| 0 <= k < u.dirty.len() && u.dirty[k] == n;
                    assert(t.dirty[k] == n);
                }
                if let Some(n) = written_page(file, page, e) {
                    assert(t.dirty[u.dirty.len() as int] == n);
                    assert(t.dirty.contains(n));
                }
                assert forall|a: int| #[trigger] u.tracker.covers(a) implies t.tracker.covers(a) by {
                    lemma_record_covers(u.tracker, page, 0x1000, a);
                }
                lemma_record_covers(u.tracker, page, 0x1000, page as int);
            }
        }
        lemma_dropped_pages_are_given_back(t, next, end, file, q);
    }
}

/// Pages that are all there can be taken out, and their translations are dropped.
#[verifier::rlimit(40)]
#[verifier::spinoff_prover]
proof fn lemma_dropped_populated_is_flushed(u: Unmapping, page: usize, end: usize, q: usize)
    requires
        pt_wf(u.pt),
        entries_disjoint(u.pt),
        aligned_4k(page as int),
        aligned_4k(end as int),
        aligned_4k(q as int),
        u.ok,
        u.tracker.wf(),
        page <= end,
        cuts_no_page(u.pt, page),
        cuts_no_page(u.pt, end),
        forall|x: usize|
            page <= x < end && aligned_4k(x as int) ==> #[trigger] lookup(u.pt, x) is Some,
    ensures
        ({
            let t = drop_populated(u, page as int, end as int);
            &&& t.ok
            &&& t.tracker.wf()
            &&& t.reclaims == u.reclaims
            &&& forall|a: int| #[trigger] u.tracker.covers(a) ==> t.tracker.covers(a)
            &&& page <= q < end && resident(u.pt, q) && (pte_at(u.pt, q)->0).frame != 0
                ==> t.tracker.covers(q as int)
        }),
    decreases end - page,
{
    if page < end {
        assert(lookup(u.pt, page) is Some);
        let e = pte_at(u.pt, page)->0;
        lemma_lookup_finds(u.pt, page);
        lemma_size_multiple_of_4k(page, e.size);
        if e.size.spec_bytes() > end - page {
            lemma_lookup_inside_is(u.pt, page, end);
        }
        lemma_drop_whole_entry(u.pt, page, q);
        lemma_drop_whole_entry(u.pt, page, end);
        let next = (page + e.size.spec_bytes()) as usize;
        let t = Unmapping {
            pt: u.pt.remove(page),
            tracker: if e.frame != 0 {
                u.tracker.recorded(page, e.size.spec_bytes())
            } else {
                u.tracker
            },
            ..u
        };
        assert(drop_populated(u, page as int, end as int) == drop_populated(
            t,
            next as int,
            end as int,
        ));
        if next == end {
            assert(cuts_no_page(t.pt, end));
        } else {
            assert(lookup(t.pt, end) == lookup(u.pt, end));
        }
        assert forall|x: usize| next <= x < end && aligned_4k(x as int) implies #[trigger] lookup(
            t.pt,
            x,
        ) is Some by {
            lemma_drop_whole_entry(u.pt, page, x);
            assert(lookup(u.pt, x) is Some);
        }
        assert forall|a: int| #[trigger] u.tracker.covers(a) implies t.tracker.covers(a) by {
            lemma_record_covers(u.tracker, page, e.size.spec_bytes(), a);
        }
        lemma_record_covers(u.tracker, page, e.size.spec_bytes(), q as int);
        if page <= q < next {
            lemma_lookup_inside_is(u.pt, page, q);
        }
        lemma_dropped_populated_is_flushed(t, next, end, q);
    }
}

/// Where nothing stands in the way, taking a part out of a mapping succeeds. What
/// each page showed is then given back, unless it belongs to memory that is
/// shared or not counted, and no stale translation of it stays. A page of a
/// shared file that could be written goes back to the file, under its number
/// there.
pub proof fn lemma_unmapped_part_is_given_back(
    backend: Backend,
    u: Unmapping,
    start: usize,
    size: usize,
    sizes: Seq<(u64, usize)>,
    q: usize,
)
    requires
        pt_wf(u.pt),
        entries_disjoint(u.pt),
        aligned_4k(start as int),
        aligned_4k(size as int),
        aligned_4k(q as int),
        u.ok,
        u.tracker.wf(),
        start + size <= usize::MAX,
        takeable(backend, u.pt, start, (start + size) as usize),
    ensures
        ({
            let t = unmapped(backend, u, start, size, sizes);
            &&& t.ok
            &&& t.tracker.wf()
            &&& forall|f: usize| #[trigger]
                u.reclaims.frames.contains(f) ==> t.reclaims.frames.contains(f)
            &&& forall|a: int| #[trigger] u.tracker.covers(a) ==> t.tracker.covers(a)
            &&& start <= q < start + size && resident(u.pt, q) ==> {
                &&& (pte_at(u.pt, q)->0).frame != 0 ==> t.tracker.covers(q as int)
                &&& is_lazy(backend) ==> t.reclaims.frames.contains(shown_frame(u.pt, q))
                &&& backend.bottom() matches Backend::File(m) ==> m.shared && (pte_at(
                    u.pt,
                    q,
                )->0).flags.write && m.start <= q && m.file_offset + m.file_bytes <= usize::MAX && q
                    - m.start < m.file_bytes && m.file_offset + (q - m.start) < size_of_file(
                    sizes,
                    m.file,
                ) ==> exists|k: int|
                    0 <= k < t.reclaims.writebacks.len() && (
                    #[trigger] t.reclaims.writebacks[k]).file == m.file
                        && t.reclaims.writebacks[k].pages.contains(
                        (((m.file_offset + (q - m.start)) as u64) / 0x1000) as u32,
                    )
            }
            &&& backend.bottom() is Shared || backend.bottom() is File
                ==> t.reclaims.backends.contains(backend.bottom())
        }),
{
    reveal(unmapped);
    let end = (start + size) as usize;
    let kept = Unmapping { reclaims: u.reclaims.with_backend(backend.bottom()), ..u };
    let n = u.reclaims.backends.len() as int;
    assert(kept.reclaims.backends[n] == backend.bottom());
    let t = unmapped(backend, u, start, size, sizes);
    match backend.bottom() {
        Backend::File(mapping) => {
            let clean = Unmapping { dirty: Seq::empty(), ..kept };
            let file = Some((mapping, size_of_file(sizes, mapping.file)));
            lemma_dropped_pages_are_given_back(clean, start, end, file, q);
            let d = drop_pages(clean, start as int, end as int, file);
            if d.dirty.len() > 0 {
                let w = Writeback { file: mapping.file, pages: d.dirty, sync: false };
                assert(t.reclaims.writebacks == d.reclaims.writebacks.push(w));
                assert(t.reclaims.writebacks[d.reclaims.writebacks.len() as int] == w);
            }
        },
        Backend::Shared { .. } => {
            lemma_dropped_populated_is_flushed(kept, start, end, q);
        },
        Backend::Linear { .. } => {
            lemma_dropped_populated_is_flushed(u, start, end, q);
        },
        _ => {
            lemma_dropped_pages_are_given_back(u, start, end, None, q);
        },
    }
}

} // verus!
