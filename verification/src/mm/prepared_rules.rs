//! What page faults come to once frames or pages of a file are there.
use vstd::prelude::*;

use super::anon::{anon_install, anon_install_one, anon_installed, AnonInstall, AnonPages};
use super::area::{areas_wf, lemma_area_wf, lemma_found};
use super::aspace::Space;
use super::backend::Backend;
use super::fault_rules::{lacks, page_at};
use super::file_fault::{
    fault_site, file_faulted, filled, install, install_one, lemma_candidates, FileFaultSite,
    Install,
};
use super::file_map::{size_of_file, FileMapping, FileReadAheadState, PreparedPages};
use super::flags::MappingFlags;
use super::frame_table::{usable_frame, FrameState};
use super::paging::{
    aligned_4k, base_of, leaf, lemma_free_page_has_no_entry, lemma_gap, lemma_lookup_other_page,
    lemma_new_entry, lookup, offset_in, page_of, pt_wf, pte_at, resident, small_gaps, PageSize,
    Pte, PtMap,
};
use super::space_fault::{faulted_with_file, faulted_with_frames, FaultKind};

verus! {

/// The entry of a page without a frame is filled in, or a new one put in, without
/// any other page changing.
pub(crate) proof fn lemma_page_gets_a_frame(pt: PtMap, page: usize, frame: usize, flags: MappingFlags, q: usize)
    requires
        pt_wf(pt),
        small_gaps(pt),
        !resident(pt, page),
        aligned_4k(page as int),
        aligned_4k(q as int),
        usable_frame(frame),
    ensures
        ({
            let t = pt.insert(page, leaf(frame, flags));
            &&& pt_wf(t)
            &&& small_gaps(t)
            &&& pte_at(t, page) == Some(leaf(frame, flags))
            &&& resident(t, page)
            &&& q != page ==> pte_at(t, q) == pte_at(pt, q) && lookup(t, q) == lookup(pt, q)
            &&& lookup(pt, page) matches Some(b) ==> b == page && pt[b].size == PageSize::Size4K
        }),
{
    let t = pt.insert(page, leaf(frame, flags));
    if lookup(pt, page) is Some {
        lemma_gap(pt, page);
        super::paging::lemma_lookup_finds(pt, page);
    } else {
        lemma_free_page_has_no_entry(pt, page);
    }
    lemma_new_entry(pt, page, leaf(frame, flags));
    assert forall|c: usize| #[trigger] t.contains_key(c) implies offset_in(c, t[c].size) == 0
        && t[c].frame + t[c].size.spec_bytes() <= usize::MAX by {
        if c != page {
            assert(pt.contains_key(c));
        }
    }
    assert forall|c: usize| #[trigger] t.contains_key(c) && t[c].frame == 0 implies t[c].size
        == PageSize::Size4K by {
        if c != page {
            assert(pt.contains_key(c));
        }
    }
    if q != page {
        lemma_lookup_other_page(pt, t, page, q);
    }
}

/// What mapping frames from the `i`-th on does to the page of the `j`-th, and to
/// a page `q` that has a frame already or is none of those.
#[verifier::rlimit(40)]
#[verifier::spinoff_prover]
pub(crate) proof fn lemma_anon_install(
    a: AnonInstall,
    p: AnonPages,
    i: int,
    area_end: usize,
    stored: MappingFlags,
    limit: usize,
    j: int,
    q: usize,
)
    requires
        pt_wf(a.pt),
        small_gaps(a.pt),
        aligned_4k(p.page as int),
        aligned_4k(q as int),
        0 <= i <= p.frames.len(),
        p.frames.len() <= 4,
        a.mapped.len() == p.frames.len(),
        forall|n: int| 0 <= n < p.frames.len() ==> usable_frame(#[trigger] p.frames[n]),
        0 <= j < p.frames.len(),
    ensures
        ({
            let t = anon_install(a, p, i, area_end, stored, limit);
            let at = page_at(p.page, j);
            &&& pt_wf(t.pt)
            &&& t.mapped.len() == a.mapped.len()
            &&& j < i ==> t.mapped[j] == a.mapped[j]
            &&& a.handled ==> t.handled
            &&& i <= j && t.mapped[j] && !a.mapped[j] ==> {
                &&& p.page + j * 0x1000 < area_end
                &&& !resident(a.pt, at)
                &&& pte_at(t.pt, at) == Some(leaf(p.frames[j], stored))
                &&& t.flushed.contains(at)
            }
            &&& forall|x: usize| #[trigger] a.flushed.contains(x) ==> t.flushed.contains(x)
            &&& resident(a.pt, q) ==> pte_at(t.pt, q) == pte_at(a.pt, q)
            &&& (q < p.page + i * 0x1000 || q >= area_end) ==> pte_at(t.pt, q) == pte_at(a.pt, q)
        }),
    decreases p.frames.len() - i,
{
    if i < p.frames.len() && a.going {
        let b = anon_install_one(a, p, i, area_end, stored, limit);
        let at = p.page + i * 0x1000;
        let page = at as usize;
        if at < area_end {
            assert(aligned_4k(page as int));
            assert(page_at(p.page, i) == page);
            if !resident(a.pt, page) {
                lemma_page_gets_a_frame(a.pt, page, p.frames[i], stored, q);
                if p.page + j * 0x1000 <= usize::MAX {
                    assert(aligned_4k(page_at(p.page, j) as int));
                    lemma_page_gets_a_frame(a.pt, page, p.frames[i], stored, page_at(p.page, j));
                }
                if b.mapped != a.mapped {
                    assert(b.flushed == a.flushed.push(page));
                    assert(b.flushed[a.flushed.len() as int] == page);
                    assert(b.flushed.contains(page));
                    assert forall|x: usize| #[trigger] a.flushed.contains(x) implies b.flushed.contains(
                        x,
                    ) by {
                        let k = choose|k: int| 0 <= k < a.flushed.len() && a.flushed[k] == x;
                        assert(b.flushed[k] == x);
                    }
                }
                assert forall|x: usize| #[trigger] a.flushed.contains(x) implies b.flushed.contains(
                    x,
                ) by {
                    let k = choose|k: int| 0 <= k < a.flushed.len() && a.flushed[k] == x;
                    assert(b.flushed[k] == x);
                }
            }
        }
        lemma_anon_install(b, p, i + 1, area_end, stored, limit, j, q);
        if at < area_end {
            lemma_anon_install(b, p, i + 1, area_end, stored, limit, j, page);
        }
    }
}

/// Frames that were taken for a fault on lazy anonymous memory are mapped at
/// their pages, the first at the page that was touched, with the permissions of
/// the area, and the fault is answered. Pages that have a frame keep it, and so
/// does everything outside the area.
pub proof fn lemma_frames_answer_the_fault(
    sp: Space,
    vaddr: usize,
    access: MappingFlags,
    p: AnonPages,
    frames: FrameState,
    sizes: Seq<(u64, usize)>,
    ra: FileReadAheadState,
    k: int,
    j: int,
    q: usize,
)
    requires
        areas_wf(sp.areas),
        pt_wf(sp.pt),
        small_gaps(sp.pt),
        sp.base <= vaddr < sp.end,
        0 <= k < sp.areas.len(),
        sp.areas[k].start <= vaddr < sp.areas[k].end,
        !lacks(sp.areas[k].flags, access),
        sp.areas[k].backend.bottom() matches Backend::Alloc { populate, .. } && !populate,
        !resident(sp.pt, (vaddr - vaddr % 0x1000) as usize),
        sp.pt.len() < sp.limit,
        p.wf(),
        p.page == vaddr - vaddr % 0x1000,
        p.frames.len() > 0,
        forall|n: int| 0 <= n < p.frames.len() ==> !(#[trigger] p.mapped[n]),
        0 <= j < p.frames.len(),
        q % 0x1000 == 0,
    ensures
        ({
            let (e, left) = faulted_with_frames(sp, vaddr, access, p, frames, sizes, ra);
            let page = (vaddr - vaddr % 0x1000) as usize;
            let at = page_at(page, j);
            &&& e.kind == FaultKind::Handled(true)
            &&& e.frames == frames
            &&& e.space.areas == sp.areas
            &&& e.copied is None
            &&& left.frames == p.frames
            &&& left.mapped[0]
            &&& left.mapped[j] ==> {
                &&& at < sp.areas[k].end
                &&& !resident(sp.pt, at)
                &&& pte_at(e.space.pt, at) is Some
                &&& (pte_at(e.space.pt, at)->0).frame == p.frames[j]
                &&& (pte_at(e.space.pt, at)->0).flags.write == sp.areas[k].flags.write
                &&& (pte_at(e.space.pt, at)->0).flags.execute == sp.areas[k].flags.execute
                &&& (pte_at(e.space.pt, at)->0).flags.user == sp.areas[k].flags.user
                &&& e.flushed.contains(at)
            }
            &&& resident(sp.pt, q) || q < page || q >= sp.areas[k].end ==> pte_at(e.space.pt, q)
                == pte_at(sp.pt, q)
        }),
{
    lemma_found(sp.areas, k, vaddr as int);
    lemma_area_wf(sp.areas, k);
    let page = page_of(vaddr);
    let area = sp.areas[k];
    let stored = sp.stored(area.flags);
    let a = AnonInstall {
        pt: sp.pt,
        mapped: p.mapped,
        handled: false,
        flushed: Seq::empty(),
        going: true,
    };
    let b = anon_install_one(a, p, 0, area.end, stored, sp.limit);
    assert(page_at(page, 0) == page);
    lemma_page_gets_a_frame(sp.pt, page, p.frames[0], stored, q);
    lemma_page_gets_a_frame(sp.pt, page, p.frames[0], stored, page);
    assert(b.handled && b.mapped[0]);
    assert(b.pt == sp.pt.insert(page, leaf(p.frames[0], stored)));
    lemma_anon_install(b, p, 1, area.end, stored, sp.limit, 0, q);
    assert(anon_install(a, p, 0, area.end, stored, sp.limit) == anon_install(
        b,
        p,
        1,
        area.end,
        stored,
        sp.limit,
    ));
    lemma_anon_install(a, p, 0, area.end, stored, sp.limit, j, q);
    if page + j * 0x1000 < area.end {
        assert(page_at(page, j) == page + j * 0x1000);
    }
}

/// Whether loaded pages can be mapped: their frames are frames, and each address
/// is that of a page.
spec fn mappable(site: FileFaultSite, p: PreparedPages) -> bool {
    &&& aligned_4k(site.page as int)
    &&& p.mapped.len() == p.pages.len()
    &&& forall|i: int| 0 <= i < p.pages.len() ==> usable_frame((#[trigger] p.pages[i]).1)
    &&& forall|i: int| 0 <= i < p.pages.len() ==> !(#[trigger] p.mapped[i])
}

/// What making one loaded page visible does.
#[verifier::rlimit(40)]
#[verifier::spinoff_prover]
proof fn lemma_one_page_is_shown(site: FileFaultSite, p: PreparedPages, s: Install, k: int, q: usize)
    requires
        pt_wf(s.pt),
        small_gaps(s.pt),
        mappable(site, p),
        s.mapped.len() == p.pages.len(),
        site.is_candidate(p, k),
        s.private matches Some(f) ==> usable_frame(f),
        site.private_write() && s.private is None ==> resident(s.pt, site.page),
        aligned_4k(q as int),
    ensures
        ({
            let t = install_one(site, p.pages, s, k);
            let addr = site.addr(p.pages[k].0) as usize;
            let own = addr == site.page && site.private_write();
            &&& addr == site.addr(p.pages[k].0)
            &&& aligned_4k(addr as int)
            &&& site.page <= addr < site.area_end
            &&& pt_wf(t.pt)
            &&& small_gaps(t.pt)
            &&& resident(s.pt, q) ==> pte_at(t.pt, q) == pte_at(s.pt, q)
            &&& q != addr ==> pte_at(t.pt, q) == pte_at(s.pt, q)
            &&& t.private is Some ==> t.private == s.private
            &&& site.private_write() && t.private is None ==> resident(t.pt, site.page)
            &&& t.mapped.len() == s.mapped.len()
            &&& forall|i: int| 0 <= i < p.pages.len() && i != k ==> t.mapped[i] == s.mapped[i]
            &&& t.mapped[k] && !s.mapped[k] ==> !own && !resident(s.pt, addr) && pte_at(t.pt, addr)
                == Some(leaf(p.pages[k].1, site.stored(addr)))
            &&& resident(s.pt, addr) ==> {
                &&& t.mapped[k] == s.mapped[k]
                &&& t.private == s.private
                &&& addr == site.page ==> t.handled == (!site.access.write || (pte_at(
                    s.pt,
                    addr,
                )->0).flags.write)
            }
            &&& t.flushed == s.flushed || t.flushed == s.flushed.push(addr)
            &&& t.executable == s.executable || t.executable == (s.executable || site.orig.execute)
            &&& !resident(s.pt, addr) && s.pt.len() < site.limit ==> {
                &&& t.handled == (s.handled || addr == site.page)
                &&& t.flushed == s.flushed.push(addr)
                &&& t.executable == (s.executable || site.orig.execute)
                &&& own ==> pte_at(t.pt, addr) == Some(leaf(s.private->0, site.stored(addr)))
                    && t.private is None && t.mapped[k] == s.mapped[k]
                &&& !own ==> t.mapped[k] && t.private == s.private && pte_at(t.pt, addr) == Some(
                    leaf(p.pages[k].1, site.stored(addr)),
                )
            }
            &&& addr != site.page ==> t.handled == s.handled && t.private == s.private
        }),
{
    let addr = site.addr(p.pages[k].0) as usize;
    let own = addr == site.page && site.private_write();
    let frame = if own {
        s.private->0
    } else {
        p.pages[k].1
    };
    assert(usable_frame(p.pages[k].1));
    if !resident(s.pt, addr) {
        lemma_page_gets_a_frame(s.pt, addr, frame, site.stored(addr), q);
        lemma_page_gets_a_frame(s.pt, addr, frame, site.stored(addr), site.page);
        assert(base_of(frame, PageSize::Size4K) == frame);
        if filled(site, s.pt, addr, frame) is Some {
            assert(filled(site, s.pt, addr, frame) == Some(
                s.pt.insert(addr, leaf(frame, site.stored(addr))),
            ));
        }
    }
}

/// What making the first `n` loaded pages visible does.
#[verifier::rlimit(40)]
#[verifier::spinoff_prover]
proof fn lemma_pages_are_shown(
    site: FileFaultSite,
    p: PreparedPages,
    s: Install,
    n: nat,
    j: int,
    q: usize,
)
    requires
        pt_wf(s.pt),
        small_gaps(s.pt),
        mappable(site, p),
        s.mapped == p.mapped,
        n <= site.candidates(p),
        s.private matches Some(f) ==> usable_frame(f),
        site.private_write() ==> s.private is Some,
        aligned_4k(q as int),
        0 <= j < p.pages.len(),
        !s.handled,
        !s.executable,
        site.access.write ==> site.orig.write,
        s.flushed.len() == 0,
        p.pages[0].0 == site.number,
        !resident(s.pt, site.page),
        s.pt.len() < site.limit,
    ensures
        ({
            let t = install(site, p.pages, s, n);
            let addr = site.addr(p.pages[j].0) as usize;
            &&& pt_wf(t.pt)
            &&& small_gaps(t.pt)
            &&& t.mapped.len() == p.pages.len()
            &&& resident(s.pt, q) || q < site.page || q >= site.area_end ==> pte_at(t.pt, q)
                == pte_at(s.pt, q)
            &&& n <= j ==> !t.mapped[j]
            &&& t.private is Some ==> t.private == s.private
            &&& t.mapped[j] ==> {
                &&& site.is_candidate(p, j)
                &&& !resident(s.pt, addr)
                &&& pte_at(t.pt, addr) == Some(leaf(p.pages[j].1, site.stored(addr)))
            }
            &&& n == 0 ==> t == s
            &&& n > 0 ==> {
                &&& t.handled
                &&& t.executable == site.orig.execute
                &&& resident(t.pt, site.page)
                &&& t.flushed.len() > 0 && t.flushed[0] == site.page
                &&& site.private_write() ==> t.private is None && !t.mapped[0] && pte_at(
                    t.pt,
                    site.page,
                ) == Some(leaf(s.private->0, site.stored(site.page)))
                &&& !site.private_write() ==> t.private == s.private && t.mapped[0] && pte_at(
                    t.pt,
                    site.page,
                ) == Some(leaf(p.pages[0].1, site.stored(site.page)))
            }
        }),
    decreases n,
{
    if n > 0 {
        let m = (n - 1) as nat;
        let u = install(site, p.pages, s, m);
        lemma_candidates(site, p, 0);
        assert(site.is_candidate(p, m as int));
        lemma_pages_are_shown(site, p, s, m, j, q);
        lemma_pages_are_shown(site, p, s, m, m as int, site.page);
        let at = site.addr(p.pages[m as int].0) as usize;
        lemma_one_page_is_shown(site, p, u, m as int, q);
        lemma_one_page_is_shown(site, p, u, m as int, site.page);
        lemma_one_page_is_shown(site, p, u, m as int, at);
        lemma_pages_are_shown(site, p, s, m, m as int, at);
        assert(usable_frame(p.pages[0].1));
        if site.is_candidate(p, j) {
            let addr = site.addr(p.pages[j].0) as usize;
            assert(aligned_4k(addr as int));
            lemma_one_page_is_shown(site, p, u, m as int, addr);
            lemma_pages_are_shown(site, p, s, m, j, addr);
            assert(usable_frame(p.pages[j].1));
        }
        if m == 0 {
            assert(site.addr(p.pages[0].0) == site.page);
        }
    }
}

/// Pages of a file that were loaded for a fault are mapped, each where the file
/// has it. The page that was touched shows its own page of the file, or, if a
/// private mapping is written to, a copy of it; only the copy and the pages of a
/// shared mapping can be written. Pages that have a frame keep it.
#[verifier::rlimit(80)]
#[verifier::spinoff_prover]
pub proof fn lemma_loaded_pages_answer_the_fault(
    sp: Space,
    vaddr: usize,
    access: MappingFlags,
    p: PreparedPages,
    frames: FrameState,
    sizes: Seq<(u64, usize)>,
    ra: FileReadAheadState,
    k: int,
    m: FileMapping,
    j: int,
    q: usize,
)
    requires
        areas_wf(sp.areas),
        pt_wf(sp.pt),
        small_gaps(sp.pt),
        frames.wf(),
        frames.available.len() > 0,
        sp.base <= vaddr < sp.end,
        0 <= k < sp.areas.len(),
        sp.areas[k].start <= vaddr < sp.areas[k].end,
        !lacks(sp.areas[k].flags, access),
        sp.areas[k].backend.bottom() == Backend::File(m),
        sp.areas[k].flags.read || sp.areas[k].flags.execute ==> m.file_flags.read,
        sp.areas[k].flags.write ==> if m.shared {
            m.file_flags.write
        } else {
            m.file_flags.read
        },
        !resident(sp.pt, (vaddr - vaddr % 0x1000) as usize),
        sp.pt.len() < sp.limit,
        0 <= vaddr - vaddr % 0x1000 - m.start < m.file_bytes,
        m.file_offset + m.file_bytes <= usize::MAX,
        m.file_offset + (vaddr - vaddr % 0x1000 - m.start) < size_of_file(sizes, m.file),
        (m.file_offset + (vaddr - vaddr % 0x1000 - m.start)) / 0x1000 <= u32::MAX,
        p.file == m.file,
        p.requested_page == (m.file_offset + (vaddr - vaddr % 0x1000 - m.start)) / 0x1000,
        p.pages.len() > 0,
        p.pages[0].0 == p.requested_page,
        p.mapped.len() == p.pages.len(),
        forall|i: int| 0 <= i < p.pages.len() ==> usable_frame((#[trigger] p.pages[i]).1),
        forall|i: int| 0 <= i < p.pages.len() ==> !(#[trigger] p.mapped[i]),
        0 <= j < p.pages.len(),
        q % 0x1000 == 0,
    ensures
        ({
            let (e, left, ahead) = faulted_with_file(sp, vaddr, access, p, frames, sizes, ra);
            let page = (vaddr - vaddr % 0x1000) as usize;
            let area = sp.areas[k].flags;
            let now = pte_at(e.space.pt, page)->0;
            let copies = !m.shared && area.write && access.write;
            let at = page + (p.pages[j].0 - p.requested_page) * 0x1000;
            &&& e.kind == FaultKind::Handled(true)
            &&& e.space.areas == sp.areas
            &&& e.flushed.len() > 0 && e.flushed[0] == page
            &&& pte_at(e.space.pt, page) is Some
            &&& now.flags.execute == area.execute
            &&& now.flags.user == area.user
            &&& e.sync_executable == area.execute
            &&& ahead is Some ==> p.sequential
            &&& copies ==> {
                &&& now.frame == frames.available.last()
                &&& now.flags.write
                &&& e.copied == Some((p.pages[0].1, now.frame))
                &&& e.frames.available == frames.available.drop_last()
                &&& !left.mapped[0]
            }
            &&& !copies ==> {
                &&& now.frame == p.pages[0].1
                &&& now.flags.write == (m.shared && area.write)
                &&& e.copied is None
                &&& e.frames == frames
                &&& left.mapped[0]
            }
            &&& j > 0 && left.mapped[j] ==> {
                &&& page <= at < sp.areas[k].end
                &&& !resident(sp.pt, at as usize)
                &&& m.file_offset + (at - m.start) < size_of_file(sizes, m.file)
                &&& p.pages[j].0 == (m.file_offset + (at - m.start)) / 0x1000
                &&& pte_at(e.space.pt, at as usize) is Some
                &&& (pte_at(e.space.pt, at as usize)->0).frame == p.pages[j].1
                &&& at != page ==> (pte_at(e.space.pt, at as usize)->0).flags.write == (m.shared
                    && area.write)
                &&& (pte_at(e.space.pt, at as usize)->0).flags.execute == area.execute
                &&& (pte_at(e.space.pt, at as usize)->0).flags.user == area.user
            }
            &&& resident(sp.pt, q) || q < page || q >= sp.areas[k].end ==> pte_at(e.space.pt, q)
                == pte_at(sp.pt, q)
        }),
{
    lemma_found(sp.areas, k, vaddr as int);
    lemma_area_wf(sp.areas, k);
    let page = page_of(vaddr);
    let area = sp.areas[k];
    let site = fault_site(
        m,
        vaddr,
        area.end,
        area.flags,
        access,
        size_of_file(sizes, m.file),
        sp.write_implies_read,
        sp.limit,
    );
    assert(site.addr(p.pages[0].0) == page);
    assert(site.is_candidate(p, 0));
    lemma_candidates(site, p, 1);
    assert(site.candidates(p) == site.candidates_from(p, 1));
    let n = site.candidates(p);
    assert(n > 0);
    assert(site.accepts(p));
    let own = if site.private_write() {
        frames.next()
    } else {
        None
    };
    if own is Some {
        assert(usable_frame(frames.available[frames.available.len() - 1]));
    }
    let s = Install {
        pt: sp.pt,
        mapped: p.mapped,
        private: own,
        handled: false,
        executable: false,
        flushed: Seq::empty(),
    };
    lemma_pages_are_shown(site, p, s, n, j, q);
    lemma_pages_are_shown(site, p, s, n, 0, page);
    let e = file_faulted(site, sp.pt, p, frames);
    assert(e.handled);
    let t = install(site, p.pages, s, n);
    assert(e.pt == t.pt && e.flushed == t.flushed);
    if t.mapped[j] {
        let at = site.addr(p.pages[j].0);
        assert(site.is_candidate(p, j));
        assert(page <= at < area.end);
        let w = m.window(at, size_of_file(sizes, m.file))->0;
        assert(w.0 == m.file_offset + (at - m.start));
    }
}

} // verus!
