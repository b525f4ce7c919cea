//! Changing the permissions of mapped pages.
use vstd::prelude::*;

use super::backend::Backend;
use super::file_map::FileMapping;
use super::flags::{spec_effective_pte_flags, MappingFlags};
use super::paging::{
    aligned_4k, lemma_changed_entry, lemma_small_entry, lookup, offset_in, pt_wf, pte_at, resident,
    shown_frame, PageSize, PageTable, Pte, PtMap, PAGE_SIZE_4K,
};
use super::reclaim::{lemma_record_covers, TlbInvalidationTracker};

verus! {

/// What has happened while permissions are changed.
pub ghost struct Protecting {
    pub ok: bool,
    pub pt: PtMap,
    pub tracker: TlbInvalidationTracker,
}

/// Gives the entry that translates `page` the flags `stored`.
pub open spec fn reflagged(pt: PtMap, page: usize, stored: MappingFlags) -> PtMap {
    let b = lookup(pt, page)->0;
    pt.insert(b, Pte { flags: stored, ..pt[b] })
}

/// The page table with `frame` in the entry that translates `page`.
pub open spec fn reframed(pt: PtMap, page: usize, frame: usize, stored: MappingFlags) -> PtMap {
    let b = lookup(pt, page)->0;
    pt.insert(b, Pte { frame, flags: stored, size: pt[b].size })
}

/// The page table with `stored` in the entry that translates `page`, pointed at
/// what the page shows.
pub open spec fn repointed(pt: PtMap, page: usize, stored: MappingFlags) -> PtMap {
    reframed(pt, page, shown_frame(pt, page), stored)
}

/// Changes one page. Pages that are not backed are skipped or refused.
pub open spec fn protect_one(
    p: Protecting,
    page: usize,
    stored: MappingFlags,
    lazy: bool,
) -> Protecting {
    match pte_at(p.pt, page) {
        None => Protecting { ok: lazy, ..p },
        Some(e) => if !resident(p.pt, page) {
            Protecting { ok: lazy, ..p }
        } else if e.flags == stored {
            p
        } else {
            Protecting {
                ok: true,
                pt: reflagged(p.pt, page, stored),
                tracker: p.tracker.recorded(page, 0x1000),
            }
        },
    }
}

/// Changes the pages of `[page, end)` one by one.
pub open spec fn protect_each(
    p: Protecting,
    page: int,
    end: int,
    stored: MappingFlags,
    lazy: bool,
) -> Protecting
    decreases (if page < end {
            end - page
        } else {
            0
        }),
{
    if page >= end || !p.ok {
        p
    } else {
        protect_each(protect_one(p, page as usize, stored, lazy), page + 0x1000, end, stored, lazy)
    }
}

/// Changes the pages of `[page, end)`, all of which have to be there.
pub open spec fn protect_populated(
    p: Protecting,
    page: int,
    end: int,
    stored: MappingFlags,
) -> Protecting
    decreases (if page < end {
            end - page
        } else {
            0
        }),
{
    if page >= end {
        p
    } else {
        match pte_at(p.pt, page as usize) {
            None => Protecting { ok: false, ..p },
            Some(e) => if e.size.spec_bytes() > end - page {
                Protecting { ok: false, ..p }
            } else {
                protect_populated(
                    if resident(p.pt, page as usize) && e.flags != stored {
                        Protecting {
                            pt: reflagged(p.pt, page as usize, stored),
                            tracker: p.tracker.recorded(page as usize, e.size.spec_bytes()),
                            ..p
                        }
                    } else {
                        p
                    },
                    page + e.size.spec_bytes(),
                    end,
                    stored,
                )
            },
        }
    }
}

/// What becomes of the flags `new_flags` on pages of `backend`: a private
/// mapping of a file stays read-only until a page was copied.
pub open spec fn page_flags(backend: Backend, new_flags: MappingFlags) -> MappingFlags {
    match backend.bottom() {
        Backend::File(m) => if m.shared {
            new_flags
        } else {
            new_flags.with_write(false)
        },
        _ => new_flags,
    }
}

/// Changes the permissions of `[start, start + size)` in a mapping of `backend`.
#[verifier::opaque]
pub open spec fn protected(
    backend: Backend,
    p: Protecting,
    start: usize,
    size: usize,
    new_flags: MappingFlags,
    write_implies_read: bool,
) -> Protecting {
    let stored = spec_effective_pte_flags(page_flags(backend, new_flags), write_implies_read);
    let end = start + size;
    match backend.bottom() {
        Backend::Shared { .. } | Backend::Linear { .. } => if end > usize::MAX {
            Protecting { ok: false, ..p }
        } else {
            protect_populated(p, start as int, end, stored)
        },
        Backend::File(m) => if m.spec_permits(new_flags) {
            protect_each(p, start as int, end, stored, true)
        } else {
            Protecting { ok: false, ..p }
        },
        Backend::Alloc { populate, .. } => protect_each(p, start as int, end, stored, !populate),
        Backend::Cow(_) => p,
    }
}

/// Changes the permissions of a range that has to be mapped completely.
pub fn protect_populated_range(
    start: usize,
    size: usize,
    new_flags: MappingFlags,
    pt: &mut PageTable,
    tracker: &mut TlbInvalidationTracker,
) -> (ok: bool)
    requires
        old(pt).wf(),
    ensures
        final(pt).wf(),
        final(pt).same_kind(old(pt)),
        (Protecting { ok, pt: final(pt)@, tracker: *final(tracker) }) == if start + size
            > usize::MAX {
            Protecting { ok: false, pt: old(pt)@, tracker: *old(tracker) }
        } else {
            protect_populated(
                Protecting { ok: true, pt: old(pt)@, tracker: *old(tracker) },
                start as int,
                start + size,
                old(pt).stored(new_flags),
            )
        },
{
    let end: usize = match start.checked_add(size) {
        Some(end) => end,
        None => {
            return false;
        },
    };
    let effective: MappingFlags = pt.effective(new_flags);
    let mut page: usize = start;
    while page < end
        invariant
            page <= end,
            end == start + size,
            pt.wf(),
            pt.same_kind(old(pt)),
            effective == old(pt).stored(new_flags),
            protect_populated(
                Protecting { ok: true, pt: old(pt)@, tracker: *old(tracker) },
                start as int,
                end as int,
                effective,
            ) == protect_populated(
                Protecting { ok: true, pt: pt@, tracker: *tracker },
                page as int,
                end as int,
                effective,
            ),
        decreases end - page,
    {
        match pt.query(page) {
            None => {
                return false;
            },
            Some((frame, old_flags, page_size)) => {
                let mapped_size: usize = page_size.bytes();
                if mapped_size > end - page {
                    return false;
                }
                if frame != 0 && old_flags != effective {
                    let _ = pt.protect(page, new_flags);
                    tracker.record(page, mapped_size);
                }
                page = page + mapped_size;
            },
        }
    }
    true
}

/// Changes the permissions of a range page by page. Pages that are missing or
/// only reserved are skipped where `lazy` allows it.
pub fn protect_pages(
    start: usize,
    size: usize,
    new_flags: MappingFlags,
    lazy: bool,
    pt: &mut PageTable,
    tracker: &mut TlbInvalidationTracker,
) -> (ok: bool)
    requires
        old(pt).wf(),
        start + size <= usize::MAX,
        aligned_4k(start as int),
        aligned_4k(size as int),
    ensures
        final(pt).wf(),
        final(pt).same_kind(old(pt)),
        (Protecting { ok, pt: final(pt)@, tracker: *final(tracker) }) == protect_each(
            Protecting { ok: true, pt: old(pt)@, tracker: *old(tracker) },
            start as int,
            start + size,
            old(pt).stored(new_flags),
            lazy,
        ),
{
    let end: usize = start + size;
    let effective: MappingFlags = pt.effective(new_flags);
    let mut page: usize = start;
    while page < end
        invariant
            page <= end,
            end == start + size,
            aligned_4k(page as int),
            aligned_4k(end as int),
            pt.wf(),
            pt.same_kind(old(pt)),
            effective == old(pt).stored(new_flags),
            protect_each(
                Protecting { ok: true, pt: old(pt)@, tracker: *old(tracker) },
                start as int,
                end as int,
                effective,
                lazy,
            ) == protect_each(
                Protecting { ok: true, pt: pt@, tracker: *tracker },
                page as int,
                end as int,
                effective,
                lazy,
            ),
        decreases end - page,
    {
        let ghost p = Protecting { ok: true, pt: pt@, tracker: *tracker };
        proof {
            let t = protect_one(p, page, effective, lazy);
            if !t.ok {
                assert(protect_each(t, page + 0x1000, end as int, effective, lazy) == t);
                assert(protect_each(p, page as int, end as int, effective, lazy) == t);
            }
        }
        match pt.query(page) {
            None => {
                if !lazy {
                    return false;
                }
            },
            Some((frame, old_flags, _)) => {
                if frame == 0 {
                    if !lazy {
                        return false;
                    }
                } else if old_flags != effective {
                    let _ = pt.protect(page, new_flags);
                    tracker.record(page, PAGE_SIZE_4K);
                }
            },
        }
        page = page + PAGE_SIZE_4K;
    }
    true
}

impl FileMapping {
    /// Changes the permissions of pages of a file mapping. Pages of a private
    /// mapping stay read-only, so that the next write copies them.
    pub fn protect_file(
        &self,
        start: usize,
        size: usize,
        new_flags: MappingFlags,
        pt: &mut PageTable,
        tracker: &mut TlbInvalidationTracker,
    ) -> (ok: bool)
        requires
            old(pt).wf(),
            start + size <= usize::MAX,
            aligned_4k(start as int),
            aligned_4k(size as int),
        ensures
            final(pt).wf(),
            final(pt).same_kind(old(pt)),
            (Protecting { ok, pt: final(pt)@, tracker: *final(tracker) }) == protected(
                Backend::File(*self),
                Protecting { ok: true, pt: old(pt)@, tracker: *old(tracker) },
                start,
                size,
                new_flags,
                old(pt).wr(),
            ),
    {
        reveal(protected);
        if !self.permits(new_flags) {
            return false;
        }
        let flags: MappingFlags = if self.shared {
            new_flags
        } else {
            new_flags.set_write(false)
        };
        protect_pages(start, size, flags, true, pt, tracker)
    }
}

impl Backend {
    /// Changes the permissions of `[start, start + size)`.
    pub fn protect_tracked(
        &self,
        start: usize,
        size: usize,
        new_flags: MappingFlags,
        pt: &mut PageTable,
        tracker: &mut TlbInvalidationTracker,
    ) -> (ok: bool)
        requires
            old(pt).wf(),
            start + size <= usize::MAX,
            aligned_4k(start as int),
            aligned_4k(size as int),
        ensures
            final(pt).wf(),
            final(pt).same_kind(old(pt)),
            (Protecting { ok, pt: final(pt)@, tracker: *final(tracker) }) == protected(
                *self,
                Protecting { ok: true, pt: old(pt)@, tracker: *old(tracker) },
                start,
                size,
                new_flags,
                old(pt).wr(),
            ),
        decreases self,
    {
        reveal(protected);
        match self {
            Backend::Shared { .. } | Backend::Linear { .. } => protect_populated_range(
                start,
                size,
                new_flags,
                pt,
                tracker,
            ),
            Backend::Alloc { populate, .. } => protect_pages(
                start,
                size,
                new_flags,
                !*populate,
                pt,
                tracker,
            ),
            Backend::File(mapping) => mapping.protect_file(start, size, new_flags, pt, tracker),
            Backend::Cow(cow) => (&*cow.inner).protect_tracked(
                start,
                size,
                new_flags,
                pt,
                tracker,
            ),
        }
    }
}

/// A page of a private file mapping is never made writable by a change of
/// permissions.
pub proof fn lemma_private_file_stays_read_only(
    m: FileMapping,
    new_flags: MappingFlags,
    write_implies_read: bool,
)
    requires
        !m.shared,
    ensures
        !spec_effective_pte_flags(page_flags(Backend::File(m), new_flags), write_implies_read).write,
{
}

/// What changing small pages one by one does to page `q`.
#[verifier::rlimit(40)]
#[verifier::spinoff_prover]
proof fn lemma_protected_each(
    p: Protecting,
    page: usize,
    end: usize,
    stored: MappingFlags,
    lazy: bool,
    q: usize,
)
    requires
        pt_wf(p.pt),
        aligned_4k(page as int),
        aligned_4k(end as int),
        aligned_4k(q as int),
        p.ok,
        p.tracker.wf(),
        page <= end,
        forall|x: usize|
            page <= x < end && aligned_4k(x as int) && #[trigger] lookup(p.pt, x) is Some ==> (
            pte_at(p.pt, x)->0).size == PageSize::Size4K,
        protect_each(p, page as int, end as int, stored, lazy).ok,
    ensures
        ({
            let t = protect_each(p, page as int, end as int, stored, lazy);
            &&& pt_wf(t.pt)
            &&& t.tracker.wf()
            &&& forall|x: usize| aligned_4k(x as int) ==> #[trigger] lookup(t.pt, x) == lookup(p.pt, x)
            &&& forall|a: int| #[trigger] p.tracker.covers(a) ==> t.tracker.covers(a)
            &&& page <= q < end && resident(p.pt, q) ==> {
                &&& pte_at(t.pt, q) == Some(Pte { flags: stored, ..pte_at(p.pt, q)->0 })
                &&& (pte_at(p.pt, q)->0).flags != stored ==> t.tracker.covers(q as int)
            }
            &&& !(page <= q < end) || !resident(p.pt, q) ==> pte_at(t.pt, q) == pte_at(p.pt, q)
        }),
    decreases end - page,
{
    if page < end {
        let n = protect_one(p, page, stored, lazy);
        let next = (page + 0x1000) as usize;
        assert(protect_each(p, page as int, end as int, stored, lazy) == protect_each(
            n,
            next as int,
            end as int,
            stored,
            lazy,
        ));
        assert(n.ok) by {
            if !n.ok {
                assert(protect_each(n, next as int, end as int, stored, lazy) == n);
            }
        }
        if pte_at(p.pt, page) is Some {
            assert(lookup(p.pt, page) is Some);
            lemma_small_entry(p.pt, page);
            let e = Pte { flags: stored, ..p.pt[page] };
            lemma_changed_entry(p.pt, page, e, q);
            assert forall|x: usize| aligned_4k(x as int) implies #[trigger] lookup(n.pt, x)
                == lookup(p.pt, x) by {
                lemma_changed_entry(p.pt, page, e, x);
            }
            assert(q != page ==> pte_at(n.pt, q) == pte_at(p.pt, q)) by {
                if q != page && lookup(p.pt, q) == Some(page) {
                    super::paging::lemma_lookup_finds(p.pt, q);
                }
            }
            assert forall|x: usize|
                next <= x < end && aligned_4k(x as int) && #[trigger] lookup(n.pt, x) is Some implies (
            pte_at(n.pt, x)->0).size == PageSize::Size4K by {
                lemma_changed_entry(p.pt, page, e, x);
                assert(lookup(p.pt, x) is Some);
            }
            assert(pt_wf(n.pt)) by {
                assert forall|b: usize| #[trigger] n.pt.contains_key(b) implies offset_in(
                    b,
                    n.pt[b].size,
                ) == 0 && n.pt[b].frame + n.pt[b].size.spec_bytes() <= usize::MAX by {
                    assert(p.pt.contains_key(b));
                }
            }
            lemma_record_covers(p.tracker, page, 0x1000, page as int);
            assert forall|a: int| #[trigger] p.tracker.covers(a) implies n.tracker.covers(a) by {
                lemma_record_covers(p.tracker, page, 0x1000, a);
            }
        }
        lemma_protected_each(n, next, end, stored, lazy, q);
        if q == page && resident(p.pt, page) {
            assert(!(next <= q < end));
            if (pte_at(p.pt, page)->0).flags != stored {
                assert(n.tracker.covers(page as int));
            }
        }
    }
}

/// A page with a frame in the range gets the new permissions and keeps its frame;
/// if that changed it, its translation is dropped. No other page changes. On a
/// page of a file that is mapped privately, write permission is held back.
pub proof fn lemma_protected_page(
    backend: Backend,
    p: Protecting,
    start: usize,
    size: usize,
    new_flags: MappingFlags,
    write_implies_read: bool,
    q: usize,
)
    requires
        pt_wf(p.pt),
        p.ok,
        p.tracker.wf(),
        aligned_4k(start as int),
        aligned_4k(size as int),
        aligned_4k(q as int),
        start + size <= usize::MAX,
        !(backend.bottom() is Shared) && !(backend.bottom() is Linear),
        forall|x: usize|
            start <= x < start + size && aligned_4k(x as int) && #[trigger] lookup(p.pt, x) is Some
                ==> (pte_at(p.pt, x)->0).size == PageSize::Size4K,
        protected(backend, p, start, size, new_flags, write_implies_read).ok,
    ensures
        ({
            let t = protected(backend, p, start, size, new_flags, write_implies_read);
            let before = pte_at(p.pt, q)->0;
            let now = pte_at(t.pt, q)->0;
            let private = backend.bottom() matches Backend::File(m) && !m.shared;
            &&& pt_wf(t.pt)
            &&& t.tracker.wf()
            &&& forall|x: usize| aligned_4k(x as int) ==> #[trigger] lookup(t.pt, x) == lookup(p.pt, x)
            &&& forall|a: int| #[trigger] p.tracker.covers(a) ==> t.tracker.covers(a)
            &&& start <= q < start + size && resident(p.pt, q) ==> {
                &&& pte_at(t.pt, q) is Some
                &&& now.frame == before.frame
                &&& now.size == before.size
                &&& now.flags.write == (new_flags.write && !private)
                &&& now.flags.execute == new_flags.execute
                &&& now.flags.user == new_flags.user
                &&& now.flags.device == new_flags.device
                &&& now.flags.uncached == new_flags.uncached
                &&& now.flags.read == (new_flags.read || (write_implies_read && now.flags.write))
                &&& now != before ==> t.tracker.covers(q as int)
            }
            &&& !(start <= q < start + size) || !resident(p.pt, q) ==> pte_at(t.pt, q) == pte_at(
                p.pt,
                q,
            )
        }),
{
    reveal(protected);
    let stored = spec_effective_pte_flags(page_flags(backend, new_flags), write_implies_read);
    let end = (start + size) as usize;
    match backend.bottom() {
        Backend::File(m) => {
            lemma_protected_each(p, start, end, stored, true, q);
        },
        Backend::Alloc { populate, .. } => {
            lemma_protected_each(p, start, end, stored, !populate, q);
        },
        _ => {
            lemma_bottom(backend);
        },
    }
}

/// Below all copy-on-write layers there is none.
proof fn lemma_bottom(backend: Backend)
    ensures
        !(backend.bottom() is Cow),
    decreases backend,
{
    if let Backend::Cow(cow) = backend {
        lemma_bottom(*cow.inner);
    }
}

} // verus!
