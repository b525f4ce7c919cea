//! Page faults on file-backed mappings.
use vstd::prelude::*;

use super::file_map::{
    file_prefetch_range, spec_prefetch_range, FileMapping, FilePagePrepared, PreparedPages,
};
use super::flags::{spec_effective_pte_flags, MappingFlags};
use super::frame_table::{frame_in_range, usable_frame, FrameState, Frames};
use super::paging::{
    align_down_4k, aligned_4k, base_of, leaf, lemma_changed_entry, lemma_free_page_has_no_entry,
    lemma_gap, lemma_lookup_finds, lemma_lookup_other_page, lemma_new_entry, lookup, offset_in,
    page_of, pt_wf, pte_at, range_free, resident, shown_frame, small_gaps, PageSize, PageTable, Pte, PtMap, PAGE_SIZE_4K,
};

verus! {

/// A fault on a page of a file mapping.
pub ghost struct FileFaultSite {
    pub mapping: FileMapping,
    pub file_size: usize,
    /// The page that was touched.
    pub page: usize,
    /// Its number in the file.
    pub number: u32,
    pub area_end: usize,
    /// What the area allows.
    pub orig: MappingFlags,
    /// What was attempted.
    pub access: MappingFlags,
    pub write_implies_read: bool,
    pub limit: usize,
}

impl FileFaultSite {
    /// A write to a private mapping gets a frame of its own.
    pub open spec fn private_write(self) -> bool {
        !self.mapping.shared && self.orig.write && self.access.write
    }

    /// Where the page with number `pn` of the file is mapped.
    pub open spec fn addr(self, pn: u32) -> int {
        self.page + (pn - self.number) * 0x1000
    }

    /// Whether the `i`-th loaded page can be mapped along with the touched one.
    pub open spec fn is_candidate(self, p: PreparedPages, i: int) -> bool {
        let pn = p.pages[i].0;
        &&& p.waiting(i)
        &&& pn >= self.number
        &&& self.addr(pn) < self.area_end
        &&& self.mapping.window(self.addr(pn), self.file_size) matches Some(w) && w.0 / 0x1000 == pn
    }

    /// How many of the loaded pages are candidates, without a gap, from the
    /// `k`-th on.
    pub open spec fn candidates_from(self, p: PreparedPages, k: nat) -> nat
        decreases p.pages.len() - k,
    {
        if k >= p.pages.len() || !self.is_candidate(p, k as int) {
            k
        } else {
            self.candidates_from(p, (k + 1) as nat)
        }
    }

    /// How many of the loaded pages the fault maps.
    pub open spec fn candidates(self, p: PreparedPages) -> nat {
        self.candidates_from(p, 0)
    }

    /// Whether the loaded pages answer this fault.
    pub open spec fn accepts(self, p: PreparedPages) -> bool {
        &&& self.mapping.spec_permits(self.orig)
        &&& self.mapping.window(self.page as int, self.file_size) matches Some(w) && w.0 / 0x1000
            == self.number
        &&& p.requested_page == self.number
        &&& p.file == self.mapping.file
        &&& self.candidates(p) > 0
    }

    /// What is written to the entry of the candidate at `addr`.
    pub open spec fn map_flags(self, addr: usize) -> MappingFlags {
        if self.mapping.shared || (addr == self.page && self.private_write()) {
            self.orig
        } else {
            self.orig.with_write(false)
        }
    }

    pub open spec fn stored(self, addr: usize) -> MappingFlags {
        spec_effective_pte_flags(self.map_flags(addr), self.write_implies_read)
    }
}

/// What has happened while loaded pages are made visible.
pub ghost struct Install {
    pub pt: PtMap,
    pub mapped: Seq<bool>,
    /// The private copy, until it is mapped.
    pub private: Option<usize>,
    pub handled: bool,
    pub executable: bool,
    pub flushed: Seq<usize>,
}

/// The entry of `addr` after the candidate with frame `frame` was written to it:
/// a reserved entry is filled in, a missing one is added if there is room.
pub open spec fn filled(
    site: FileFaultSite,
    pt: PtMap,
    addr: usize,
    frame: usize,
) -> Option<PtMap> {
    match lookup(pt, addr) {
        Some(b) => Some(
            pt.insert(b, Pte { frame, flags: site.stored(addr), size: pt[b].size }),
        ),
        None => if pt.len() < site.limit {
            Some(pt.insert(addr, leaf(base_of(frame, PageSize::Size4K), site.stored(addr))))
        } else {
            None
        },
    }
}

/// Makes the `k`-th loaded page visible unless its address is already backed.
pub open spec fn install_one(
    site: FileFaultSite,
    pages: Seq<(u32, usize)>,
    s: Install,
    k: int,
) -> Install {
    let addr = site.addr(pages[k].0) as usize;
    let requested = addr == site.page;
    if resident(s.pt, addr) {
        if requested {
            Install {
                handled: !site.access.write || (pte_at(s.pt, addr)->0).flags.write,
                ..s
            }
        } else {
            s
        }
    } else {
        let own = requested && site.private_write();
        let frame = if own {
            s.private->0
        } else {
            pages[k].1
        };
        match filled(site, s.pt, addr, frame) {
            None => s,
            Some(pt) => Install {
                pt,
                mapped: if own {
                    s.mapped
                } else {
                    s.mapped.update(k, true)
                },
                private: if own {
                    None
                } else {
                    s.private
                },
                handled: s.handled || requested,
                executable: s.executable || site.orig.execute,
                flushed: s.flushed.push(addr),
            },
        }
    }
}

/// Makes the first `n` loaded pages visible.
pub open spec fn install(
    site: FileFaultSite,
    pages: Seq<(u32, usize)>,
    s: Install,
    n: nat,
) -> Install
    decreases n,
{
    if n == 0 {
        s
    } else {
        install_one(site, pages, install(site, pages, s, (n - 1) as nat), n - 1)
    }
}

pub(crate) proof fn lemma_candidates(site: FileFaultSite, p: PreparedPages, k: nat)
    requires
        k <= p.pages.len(),
    ensures
        k <= site.candidates_from(p, k) <= p.pages.len(),
        forall|i: int| k <= i < site.candidates_from(p, k) ==> #[trigger] site.is_candidate(p, i),
    decreases p.pages.len() - k,
{
    if k < p.pages.len() && site.is_candidate(p, k as int) {
        lemma_candidates(site, p, (k + 1) as nat);
    }
}

/// Filling in an entry keeps the table well formed and every page that was
/// already backed, but for those behind the filled one in a larger page.
pub(crate) proof fn lemma_filled(site: FileFaultSite, pt: PtMap, addr: usize, frame: usize, q: usize)
    requires
        pt_wf(pt),
        aligned_4k(addr as int),
        aligned_4k(q as int),
        !resident(pt, addr),
        frame_in_range(frame),
        filled(site, pt, addr, frame) is Some,
    ensures
        pt_wf(filled(site, pt, addr, frame)->0),
        resident(pt, q) && (q <= addr || small_gaps(pt)) ==> pte_at(
            filled(site, pt, addr, frame)->0,
            q,
        ) == pte_at(pt, q),
        small_gaps(pt) ==> small_gaps(filled(site, pt, addr, frame)->0),
        pte_at(filled(site, pt, addr, frame)->0, addr) matches Some(e) && e.flags == site.stored(
            addr,
        ) && e.frame <= frame && offset_in(addr, e.size) == 0 && (lookup(pt, addr) is Some
            || aligned_4k(frame as int) ==> e.frame == frame),
{
    let pt2 = filled(site, pt, addr, frame)->0;
    match lookup(pt, addr) {
        Some(b) => {
            lemma_gap(pt, addr);
            lemma_lookup_finds(pt, addr);
            if lookup(pt, q) is Some {
                lemma_lookup_finds(pt, q);
            }
            assert forall|c: usize| #[trigger] pt2.contains_key(c) implies offset_in(c, pt2[c].size) == 0 && pt2[c].frame + pt2[c].size.spec_bytes()
                <= usize::MAX by {
                assert(pt.contains_key(c));
            }
            let e = Pte { frame, flags: site.stored(addr), size: pt[b].size };
            lemma_changed_entry(pt, b, e, q);
            lemma_changed_entry(pt, b, e, addr);
        },
        None => {
            lemma_free_page_has_no_entry(pt, addr);
            assert(PageSize::Size4K.spec_bytes() == 0x1000);
            assert(base_of(frame, PageSize::Size4K) <= frame);
            assert(pt2[addr].size == PageSize::Size4K);
            assert forall|c: usize| #[trigger] pt2.contains_key(c) implies offset_in(c, pt2[c].size) == 0 && pt2[c].frame + pt2[c].size.spec_bytes()
                <= usize::MAX by {
                if c != addr {
                    assert(pt.contains_key(c));
                }
            }
            if q != addr {
                lemma_lookup_other_page(pt, pt2, addr, q);
            }
            lemma_new_entry(pt, addr, pt2[addr]);
        },
    }
}

/// What one more page changes.
proof fn lemma_install_one(
    site: FileFaultSite,
    pages: Seq<(u32, usize)>,
    s: Install,
    k: int,
    q: usize,
)
    requires
        0 <= k < pages.len(),
        s.mapped.len() == pages.len(),
        pt_wf(s.pt),
        aligned_4k(site.addr(pages[k].0) as usize as int),
        aligned_4k(site.page as int),
        aligned_4k(q as int),
        site.page <= site.addr(pages[k].0) as usize,
        frame_in_range(pages[k].1),
        s.private matches Some(f) ==> usable_frame(f),
        site.private_write() && s.private is None ==> resident(s.pt, site.page),
    ensures
        ({
            let t = install_one(site, pages, s, k);
            &&& pt_wf(t.pt)
            &&& resident(s.pt, q) && (q <= site.page || small_gaps(s.pt)) ==> pte_at(t.pt, q)
                == pte_at(s.pt, q)
            &&& small_gaps(s.pt) ==> small_gaps(t.pt)
            &&& t.private is Some ==> t.private == s.private
            &&& site.private_write() && t.private is None ==> resident(t.pt, site.page)
            &&& t.mapped.len() == pages.len()
            &&& forall|i: int| k < i < pages.len() ==> t.mapped[i] == s.mapped[i]
            &&& t.executable ==> s.executable || site.orig.execute
        }),
{
    let addr = site.addr(pages[k].0) as usize;
    if !resident(s.pt, addr) {
        let own = addr == site.page && site.private_write();
        let frame = if own {
            s.private->0
        } else {
            pages[k].1
        };
        if filled(site, s.pt, addr, frame) is Some {
            lemma_filled(site, s.pt, addr, frame, q);
            lemma_filled(site, s.pt, addr, frame, site.page);
        }
    }
}

/// Candidates are mapped at page boundaries.
proof fn lemma_candidate_addr(site: FileFaultSite, p: PreparedPages, k: int)
    requires
        site.is_candidate(p, k),
        aligned_4k(site.page as int),
    ensures
        site.addr(p.pages[k].0) == site.addr(p.pages[k].0) as usize,
        site.page <= site.addr(p.pages[k].0),
        aligned_4k(site.addr(p.pages[k].0) as usize as int),
{
}

/// What holds of the page table, the private copy and the answer after `n`
/// pages were looked at.
pub(crate) proof fn lemma_install(
    site: FileFaultSite,
    p: PreparedPages,
    s: Install,
    n: nat,
    q: usize,
)
    requires
        n <= site.candidates(p),
        pt_wf(s.pt),
        aligned_4k(site.page as int),
        aligned_4k(q as int),
        p.wf(),
        s.private matches Some(f) ==> usable_frame(f),
        site.private_write() ==> s.private is Some,
        s.mapped.len() == p.pages.len(),
    ensures
        ({
            let t = install(site, p.pages, s, n);
            &&& pt_wf(t.pt)
            &&& resident(s.pt, q) && (q <= site.page || small_gaps(s.pt)) ==> pte_at(t.pt, q)
                == pte_at(s.pt, q)
            &&& small_gaps(s.pt) ==> small_gaps(t.pt)
            &&& t.private is Some ==> t.private == s.private
            &&& site.private_write() && t.private is None ==> resident(t.pt, site.page)
            &&& t.mapped.len() == p.pages.len()
            &&& forall|i: int| n <= i < p.pages.len() ==> t.mapped[i] == s.mapped[i]
            &&& t.executable ==> s.executable || site.orig.execute
        }),
    decreases n,
{
    if n > 0 {
        let m = (n - 1) as nat;
        lemma_candidates(site, p, 0);
        assert(site.is_candidate(p, m as int));
        lemma_install(site, p, s, m, q);
        lemma_candidate_addr(site, p, m as int);
        assert(frame_in_range(p.pages[m as int].1));
        lemma_install_one(site, p.pages, install(site, p.pages, s, m), m as int, q);
    }
}

/// What is known before the `k`-th loaded page is looked at.
proof fn lemma_before_step(site: FileFaultSite, p: PreparedPages, s: Install, k: nat)
    requires
        k < site.candidates(p),
        pt_wf(s.pt),
        aligned_4k(site.page as int),
        p.wf(),
        s.private matches Some(f) ==> usable_frame(f),
        site.private_write() ==> s.private is Some,
        s.mapped == p.mapped,
    ensures
        ({
            let t = install(site, p.pages, s, k);
            let addr = site.addr(p.pages[k as int].0);
            &&& aligned_4k(addr as usize as int)
            &&& addr == addr as usize
            &&& (PreparedPages { mapped: t.mapped, ..p }).waiting(k as int)
            &&& t.private matches Some(f) ==> usable_frame(f)
            &&& site.private_write() && t.private is None ==> resident(t.pt, site.page)
            &&& install(site, p.pages, s, (k + 1) as nat) == install_one(site, p.pages, t, k as int)
        }),
{
    lemma_candidates(site, p, 0);
    assert(site.is_candidate(p, k as int));
    lemma_candidate_addr(site, p, k as int);
    lemma_install(site, p, s, k, site.page);
}

/// A fault leaves every page that is already backed as it is, unless a larger
/// page is mapped to the start of memory.
pub proof fn lemma_fault_keeps_backed_pages(
    site: FileFaultSite,
    p: PreparedPages,
    s: Install,
    q: usize,
)
    requires
        pt_wf(s.pt),
        aligned_4k(site.page as int),
        aligned_4k(q as int),
        p.wf(),
        s.private matches Some(f) ==> usable_frame(f),
        site.private_write() ==> s.private is Some,
        s.mapped.len() == p.pages.len(),
        small_gaps(s.pt),
        resident(s.pt, q),
    ensures
        pte_at(install(site, p.pages, s, site.candidates(p)).pt, q) == pte_at(s.pt, q),
{
    lemma_install(site, p, s, site.candidates(p), q);
}

/// A fault that is reported as handled leaves the touched page backed, and
/// writable if it was written to.
pub proof fn lemma_handled_page_is_accessible(
    site: FileFaultSite,
    p: PreparedPages,
    s: Install,
    n: nat,
)
    requires
        n <= site.candidates(p),
        pt_wf(s.pt),
        aligned_4k(site.page as int),
        p.wf(),
        forall|i: int| 0 <= i < p.pages.len() ==> usable_frame((#[trigger] p.pages[i]).1),
        s.private matches Some(f) ==> usable_frame(f),
        site.private_write() ==> s.private is Some,
        s.mapped.len() == p.pages.len(),
        site.access.write ==> site.orig.write,
        !s.handled,
    ensures
        ({
            let t = install(site, p.pages, s, n);
            t.handled ==> resident(t.pt, site.page) && (site.access.write ==> (pte_at(
                t.pt,
                site.page,
            )->0).flags.write)
        }),
    decreases n,
{
    if n > 0 {
        let m = (n - 1) as nat;
        let t = install(site, p.pages, s, m);
        lemma_candidates(site, p, 0);
        assert(site.is_candidate(p, m as int));
        let addr = site.addr(p.pages[m as int].0) as usize;
        lemma_install(site, p, s, m, site.page);
        lemma_handled_page_is_accessible(site, p, s, m);
        lemma_candidate_addr(site, p, m as int);
        if !resident(t.pt, addr) {
            let own = addr == site.page && site.private_write();
            let frame = if own {
                t.private->0
            } else {
                p.pages[m as int].1
            };
            assert(frame_in_range(p.pages[m as int].1));
            if filled(site, t.pt, addr, frame) is Some {
                lemma_filled(site, t.pt, addr, frame, site.page);
            }
        }
    }
}

/// A page that was not backed before shows a loaded page or the private copy.
pub(crate) proof fn lemma_install_frames(site: FileFaultSite, p: PreparedPages, s: Install, n: nat)
    requires
        n <= site.candidates(p),
        pt_wf(s.pt),
        aligned_4k(site.page as int),
        p.wf(),
        forall|i: int| 0 <= i < p.pages.len() ==> (#[trigger] p.pages[i]).1 % 0x1000 == 0,
        s.private matches Some(f) ==> usable_frame(f),
        site.private_write() ==> s.private is Some,
        s.mapped.len() == p.pages.len(),
        !resident(s.pt, site.page),
    ensures
        ({
            let t = install(site, p.pages, s, n);
            resident(t.pt, site.page) ==> {
                let e = pte_at(t.pt, site.page)->0;
                &&& offset_in(site.page, e.size) == 0
                &&& e.frame == shown_frame(t.pt, site.page)
                &&& frame_in_range(e.frame)
                &&& (t.private is None && s.private == Some(e.frame)) || exists|k: int|
                    0 <= k < p.pages.len() && (#[trigger] p.pages[k]).1 == e.frame
            }
        }),
    decreases n,
{
    if n > 0 {
        let m = (n - 1) as nat;
        let t = install(site, p.pages, s, m);
        lemma_candidates(site, p, 0);
        assert(site.is_candidate(p, m as int));
        lemma_candidate_addr(site, p, m as int);
        lemma_install(site, p, s, m, site.page);
        lemma_install_frames(site, p, s, m);
        let addr = site.addr(p.pages[m as int].0) as usize;
        assert(p.pages[m as int].1 % 0x1000 == 0);
        if !resident(t.pt, addr) {
            let own = addr == site.page && site.private_write();
            let frame = if own {
                t.private->0
            } else {
                p.pages[m as int].1
            };
            if filled(site, t.pt, addr, frame) is Some {
                lemma_filled(site, t.pt, addr, frame, site.page);
                if addr != site.page {
                    match lookup(t.pt, addr) {
                        Some(b) => {
                            lemma_gap(t.pt, addr);
                            lemma_lookup_finds(t.pt, addr);
                            if lookup(t.pt, site.page) is Some {
                                lemma_lookup_finds(t.pt, site.page);
                            }
                            lemma_changed_entry(
                                t.pt,
                                b,
                                Pte { frame, flags: site.stored(addr), size: t.pt[b].size },
                                site.page,
                            );
                        },
                        None => {
                            lemma_free_page_has_no_entry(t.pt, addr);
                            let pt2 = filled(site, t.pt, addr, frame)->0;
                            lemma_lookup_other_page(t.pt, pt2, addr, site.page);
                        },
                    }
                }
            }
        }
    }
}

/// How far loaded pages have been made visible.
struct InstallProgress {
    private: Option<usize>,
    handled: bool,
    executable: bool,
    flushed: Vec<usize>,
}

impl InstallProgress {
    spec fn state(&self, pt: PtMap, mapped: Seq<bool>) -> Install {
        Install {
            pt,
            mapped,
            private: self.private,
            handled: self.handled,
            executable: self.executable,
            flushed: self.flushed@,
        }
    }
}

/// What a fault on a file mapping led to.
pub struct FileFault {
    /// Whether the access can be tried again.
    pub handled: bool,
    /// A frame to copy and the frame to copy it to, before anything else.
    pub copied: Option<(usize, usize)>,
    /// Pages whose old translation has to be dropped on this CPU.
    pub flushed: Vec<usize>,
    /// Whether instructions fetched from now on may come from new pages.
    pub sync_executable: bool,
    /// Pages of the file to read ahead.
    pub prefetch: Option<(u32, usize)>,
}

/// The site of a fault at `vaddr`.
pub open spec fn fault_site(
    mapping: FileMapping,
    vaddr: usize,
    area_end: usize,
    orig: MappingFlags,
    access: MappingFlags,
    file_size: usize,
    write_implies_read: bool,
    limit: usize,
) -> FileFaultSite {
    FileFaultSite {
        mapping,
        file_size,
        page: page_of(vaddr),
        number: match mapping.window(page_of(vaddr) as int, file_size) {
            Some(w) => (w.0 / 0x1000) as u32,
            None => 0,
        },
        area_end,
        orig,
        access,
        write_implies_read,
        limit,
    }
}

/// What making loaded pages visible leads to.
pub ghost struct FileFaultEnd {
    pub handled: bool,
    pub copied: Option<(usize, usize)>,
    pub flushed: Seq<usize>,
    pub sync_executable: bool,
    pub prefetch: Option<(u32, usize)>,
    pub pt: PtMap,
    pub prepared: PreparedPages,
    pub frames: FrameState,
}

/// What a fault leads to when the pages `p` were loaded for it.
pub open spec fn file_faulted(
    site: FileFaultSite,
    pt: PtMap,
    p: PreparedPages,
    frames: FrameState,
) -> FileFaultEnd {
    let n = site.candidates(p);
    if !site.accepts(p) || (site.private_write() && frames.next() is None) {
        FileFaultEnd {
            handled: false,
            copied: None,
            flushed: Seq::empty(),
            sync_executable: false,
            prefetch: None,
            pt,
            prepared: p,
            frames,
        }
    } else {
        let own = if site.private_write() {
            frames.next()
        } else {
            None
        };
        let s = install(
            site,
            p.pages,
            Install {
                pt,
                mapped: p.mapped,
                private: own,
                handled: false,
                executable: false,
                flushed: Seq::empty(),
            },
            n,
        );
        FileFaultEnd {
            handled: s.handled,
            copied: match own {
                Some(f) => Some((p.pages[0].1, f)),
                None => None,
            },
            flushed: s.flushed,
            sync_executable: s.executable,
            prefetch: if s.handled && s.flushed.len() > 0 && p.sequential && site.page + n * 0x1000
                <= usize::MAX {
                spec_prefetch_range(
                    site.mapping.start,
                    site.mapping.file_offset,
                    site.mapping.file_bytes,
                    site.file_size,
                    (site.page + n * 0x1000) as usize,
                    site.area_end,
                )
            } else {
                None
            },
            pt: s.pt,
            prepared: PreparedPages { mapped: s.mapped, ..p },
            frames: match (own, s.private) {
                (Some(_), Some(f)) => frames.after_alloc().dealloc(f),
                (Some(_), None) => frames.after_alloc(),
                (None, _) => frames,
            },
        }
    }
}

impl FileMapping {
    /// Makes loaded pages of the file visible: the touched page and those
    /// behind it that are not in the page table yet. A write to a private
    /// mapping gets a copy of the touched page.
    #[verifier::rlimit(60)]
    pub fn handle_prepared_page_fault_file(
        &self,
        vaddr: usize,
        area_end: usize,
        orig_flags: MappingFlags,
        access_flags: MappingFlags,
        file_size: usize,
        pt: &mut PageTable,
        prepared: &mut FilePagePrepared,
        frames: &mut Frames,
    ) -> (r: FileFault)
        requires
            old(pt).wf(),
            old(prepared).wf(),
            old(frames).wf(),
        ensures
            final(pt).wf(),
            final(pt).same_kind(old(pt)),
            final(prepared).wf(),
            final(frames).wf(),
            final(frames).room() >= old(frames).room(),
            ({
                let site = fault_site(
                    *self,
                    vaddr,
                    area_end,
                    orig_flags,
                    access_flags,
                    file_size,
                    old(pt).wr(),
                    old(pt).limit(),
                );
                let end = file_faulted(site, old(pt)@, old(prepared)@, old(frames)@);
                &&& r.handled == end.handled
                &&& r.copied == end.copied
                &&& r.flushed@ == end.flushed
                &&& r.sync_executable == end.sync_executable
                &&& r.prefetch == end.prefetch
                &&& final(pt)@ == end.pt
                &&& final(prepared)@ == end.prepared
                &&& final(frames)@ == end.frames
            }),
    {
        let refused = FileFault {
            handled: false,
            copied: None,
            flushed: Vec::new(),
            sync_executable: false,
            prefetch: None,
        };
        if !self.permits(orig_flags) {
            return refused;
        }
        let page_addr: usize = align_down_4k(vaddr);
        let file_offset: u64 = match self.page_read_window_at_size(page_addr, file_size) {
            Some((offset, _)) => offset,
            None => {
                return refused;
            },
        };
        let number: u64 = file_offset / 0x1000;
        if number > u32::MAX as u64 {
            return refused;
        }
        let page_number: u32 = number as u32;
        if !prepared.matches(self.file, page_number) {
            return refused;
        }
        let ghost site = FileFaultSite {
            mapping: *self,
            file_size,
            page: page_addr,
            number: page_number,
            area_end,
            orig: orig_flags,
            access: access_flags,
            write_implies_read: pt.wr(),
            limit: pt.limit(),
        };
        let ghost p = prepared@;
        let candidates: Vec<usize> = self.fault_candidates(
            page_addr,
            page_number,
            area_end,
            file_size,
            prepared,
            Ghost(site),
        );
        if candidates.len() == 0 {
            return refused;
        }
        let private_write: bool = !self.shared && orig_flags.write && access_flags.write;
        proof {
            lemma_candidates(site, p, 0);
            assert(site.is_candidate(p, 0));
        }
        let requested_frame: usize = match prepared.page(0) {
            Some((_, frame)) => frame,
            None => {
                return refused;
            },
        };
        let mut private_frame: Option<usize> = None;
        let mut copied: Option<(usize, usize)> = None;
        if private_write {
            match frames.alloc_frame() {
                None => {
                    return refused;
                },
                Some(frame) => {
                    private_frame = Some(frame);
                    copied = Some((requested_frame, frame));
                },
            }
        }
        let ghost own = private_frame;
        let ghost start = Install {
            pt: pt@,
            mapped: p.mapped,
            private: own,
            handled: false,
            executable: false,
            flushed: Seq::empty(),
        };
        let mut progress = InstallProgress {
            private: private_frame,
            handled: false,
            executable: false,
            flushed: Vec::new(),
        };
        self.install_candidates(
            &candidates,
            page_addr,
            orig_flags,
            access_flags,
            pt,
            prepared,
            &mut progress,
            Ghost(site),
        );
        proof {
            lemma_install(site, p, start, site.candidates(p), page_addr);
        }
        if let Some(frame) = progress.private {
            frames.dealloc_frame(frame);
        }
        let mut prefetch: Option<(u32, usize)> = None;
        if progress.handled && progress.flushed.len() != 0 && prepared.is_sequential() {
            if let Some(next_page) = page_addr.checked_add(candidates.len() * PAGE_SIZE_4K) {
                prefetch = file_prefetch_range(
                    self.start,
                    self.file_offset,
                    self.file_bytes,
                    file_size,
                    next_page,
                    area_end,
                );
            }
        }
        FileFault {
            handled: progress.handled,
            copied,
            flushed: progress.flushed,
            sync_executable: progress.executable,
            prefetch,
        }
    }

    /// Makes the loaded pages visible that go to the addresses in `candidates`.
    fn install_candidates(
        &self,
        candidates: &Vec<usize>,
        page_addr: usize,
        orig_flags: MappingFlags,
        access_flags: MappingFlags,
        pt: &mut PageTable,
        prepared: &mut FilePagePrepared,
        progress: &mut InstallProgress,
        Ghost(site): Ghost<FileFaultSite>,
    )
        requires
            old(pt).wf(),
            old(prepared).wf(),
            aligned_4k(page_addr as int),
            site.mapping == *self,
            site.page == page_addr,
            site.orig == orig_flags,
            site.access == access_flags,
            site.write_implies_read == old(pt).wr(),
            site.limit == old(pt).limit(),
            candidates@.len() == site.candidates(old(prepared)@),
            forall|i: int|
                0 <= i < candidates@.len() ==> candidates@[i] == #[trigger] site.addr(
                    old(prepared)@.pages[i].0,
                ),
            old(progress).private matches Some(f) ==> usable_frame(f),
            site.private_write() ==> old(progress).private is Some,
        ensures
            final(pt).wf(),
            final(pt).same_kind(old(pt)),
            final(prepared).wf(),
            prepared_ok(final(prepared), old(prepared)@),
            final(progress).state(final(pt)@, final(prepared)@.mapped) == install(
                site,
                old(prepared)@.pages,
                old(progress).state(old(pt)@, old(prepared)@.mapped),
                site.candidates(old(prepared)@),
            ),
    {
        let ghost p = prepared@;
        let ghost start = progress.state(pt@, prepared@.mapped);
        let mut cursor: usize = 0;
        while cursor < candidates.len()
            invariant
                cursor <= candidates@.len(),
                candidates@.len() == site.candidates(p),
                forall|i: int|
                    0 <= i < candidates@.len() ==> candidates@[i] == #[trigger] site.addr(
                        p.pages[i].0,
                    ),
                page_addr == site.page,
                aligned_4k(page_addr as int),
                site.mapping == *self,
                site.orig == orig_flags,
                site.access == access_flags,
                site.write_implies_read == pt.wr(),
                site.limit == pt.limit(),
                pt.same_kind(old(pt)),
                pt.wf(),
                prepared.wf(),
                p.wf(),
                prepared_ok(prepared, p),
                start.mapped == p.mapped,
                pt_wf(start.pt),
                start.private matches Some(f) ==> usable_frame(f),
                site.private_write() ==> start.private is Some,
                progress.state(pt@, prepared@.mapped) == install(
                    site,
                    p.pages,
                    start,
                    cursor as nat,
                ),
            decreases candidates@.len() - cursor,
        {
            proof {
                lemma_before_step(site, p, start, cursor as nat);
                assert(candidates@[cursor as int] == site.addr(p.pages[cursor as int].0));
            }
            self.install_candidate(
                cursor,
                candidates[cursor],
                page_addr,
                orig_flags,
                access_flags,
                pt,
                prepared,
                progress,
                Ghost(site),
            );
            cursor = cursor + 1;
        }
    }

    /// Makes one loaded page visible unless its address is already backed.
    fn install_candidate(
        &self,
        index: usize,
        addr: usize,
        page_addr: usize,
        orig_flags: MappingFlags,
        access_flags: MappingFlags,
        pt: &mut PageTable,
        prepared: &mut FilePagePrepared,
        progress: &mut InstallProgress,
        Ghost(site): Ghost<FileFaultSite>,
    )
        requires
            old(pt).wf(),
            old(prepared).wf(),
            aligned_4k(addr as int),
            site.mapping == *self,
            site.page == page_addr,
            site.orig == orig_flags,
            site.access == access_flags,
            site.write_implies_read == old(pt).wr(),
            site.limit == old(pt).limit(),
            old(prepared)@.waiting(index as int),
            addr == site.addr(old(prepared)@.pages[index as int].0),
            old(progress).private matches Some(f) ==> usable_frame(f),
            site.private_write() && old(progress).private is None ==> resident(
                old(pt)@,
                page_addr,
            ),
        ensures
            final(pt).wf(),
            final(pt).same_kind(old(pt)),
            final(prepared).wf(),
            prepared_ok(final(prepared), old(prepared)@),
            final(progress).state(final(pt)@, final(prepared)@.mapped) == install_one(
                site,
                old(prepared)@.pages,
                old(progress).state(old(pt)@, old(prepared)@.mapped),
                index as int,
            ),
    {
        let requested: bool = addr == page_addr;
        let remap_empty: bool = match pt.query(addr) {
            Some((current, current_flags, _)) => {
                if current != 0 {
                    if requested {
                        progress.handled = !access_flags.write || current_flags.write;
                    }
                    return;
                }
                true
            },
            None => false,
        };
        let cache_frame: usize = match prepared.page(index) {
            Some((_, frame)) => frame,
            None => {
                return;
            },
        };
        let use_private_frame: bool = requested && !self.shared && orig_flags.write
            && access_flags.write;
        let frame: usize = if use_private_frame {
            progress.private.unwrap()
        } else {
            cache_frame
        };
        let map_flags: MappingFlags = if self.shared || use_private_frame {
            orig_flags
        } else {
            orig_flags.set_write(false)
        };
        let mapped: bool = if remap_empty {
            pt.remap(addr, frame, map_flags)
        } else {
            map_page(pt, addr, frame, map_flags)
        };
        if !mapped {
            return;
        }
        progress.flushed.push(addr);
        if map_flags.execute {
            progress.executable = true;
        }
        if use_private_frame {
            progress.private = None;
        } else {
            let _ = prepared.take_frame(index);
        }
        if requested {
            progress.handled = true;
        }
    }

    /// The addresses of the loaded pages that the fault maps.
    fn fault_candidates(
        &self,
        page_addr: usize,
        page_number: u32,
        area_end: usize,
        file_size: usize,
        prepared: &FilePagePrepared,
        Ghost(site): Ghost<FileFaultSite>,
    ) -> (r: Vec<usize>)
        requires
            prepared.wf(),
            site.mapping == *self,
            site.file_size == file_size,
            site.page == page_addr,
            site.number == page_number,
            site.area_end == area_end,
        ensures
            r@.len() == site.candidates(prepared@),
            r@.len() <= 16,
            forall|i: int|
                0 <= i < r@.len() ==> r@[i] == #[trigger] site.addr(prepared@.pages[i].0),
    {
        let mut r: Vec<usize> = Vec::new();
        let mut index: usize = 0;
        while index < prepared.page_count()
            invariant
                prepared.wf(),
                site.mapping == *self,
                site.file_size == file_size,
                site.page == page_addr,
                site.number == page_number,
                site.area_end == area_end,
                index == r@.len(),
                index <= prepared@.pages.len(),
                index <= 16,
                site.candidates(prepared@) == site.candidates_from(prepared@, index as nat),
                forall|i: int|
                    0 <= i < r@.len() ==> r@[i] == #[trigger] site.addr(prepared@.pages[i].0),
            decreases prepared@.pages.len() - index,
        {
            let number: u32 = match prepared.page(index) {
                Some((number, _)) => number,
                None => {
                    return r;
                },
            };
            if number < page_number {
                return r;
            }
            let delta: usize = (number - page_number) as usize;
            let byte_delta: usize = match delta.checked_mul(PAGE_SIZE_4K) {
                Some(byte_delta) => byte_delta,
                None => {
                    return r;
                },
            };
            let addr: usize = match page_addr.checked_add(byte_delta) {
                Some(addr) => addr,
                None => {
                    return r;
                },
            };
            if addr >= area_end {
                return r;
            }
            match self.page_read_window_at_size(addr, file_size) {
                None => {
                    return r;
                },
                Some((offset, _)) => {
                    if offset / 0x1000 != number as u64 {
                        return r;
                    }
                },
            }
            r.push(addr);
            index = index + 1;
        }
        r
    }
}

/// Pages can be marked, and nothing else about the loaded pages changes.
spec fn prepared_ok(prepared: &FilePagePrepared, p: PreparedPages) -> bool {
    prepared@ == (PreparedPages { mapped: prepared@.mapped, ..p })
}

/// Adds an entry for the page at `va`.
pub fn map_page(pt: &mut PageTable, va: usize, frame: usize, flags: MappingFlags) -> (r: bool)
    requires
        old(pt).wf(),
        aligned_4k(va as int),
        frame + 0x1000 <= usize::MAX,
    ensures
        final(pt).wf(),
        final(pt).same_kind(old(pt)),
        r == (lookup(old(pt)@, va) is None && old(pt)@.len() < old(pt).limit()),
        final(pt)@ == if r {
            old(pt)@.insert(va, leaf(base_of(frame, PageSize::Size4K), old(pt).stored(flags)))
        } else {
            old(pt)@
        },
{
    proof {
        assert(range_free(old(pt)@, va, 0x1000) == (lookup(old(pt)@, va) is None)) by {
            assert forall|q: usize|
                va <= q < va + 0x1000 && aligned_4k(q as int) implies q == va by {}
            if lookup(old(pt)@, va) is Some {
                assert(va <= va < va + 0x1000 && aligned_4k(va as int));
            }
        }
    }
    pt.map(va, frame, PageSize::Size4K, flags)
}

} // verus!
