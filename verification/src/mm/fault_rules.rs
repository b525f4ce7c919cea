//! What page faults come to.
use vstd::prelude::*;

use super::anon::{
    anon_install, anon_install_one, spec_fault_alloc, unbacked_run, AnonInstall, AnonPages,
};
use super::area::{
    any_meets, area_index, areas_wf, entered, lemma_area_index, lemma_area_wf, lemma_found,
    lemma_rank, lemma_with_area_wf, rank, with_area, MemoryArea,
};
use super::aspace::Space;
use super::backend::{Backend, CowMapping};
use super::fault::{fault_on, lemma_shared_page_becomes_private, Answer, Fault, Memory};
use super::file_map::{
    lemma_pages_in_a_row_bounds, size_of_file, FileMapping, FileReadAheadState,
};
use super::flags::{spec_effective_pte_flags, MappingFlags};
use super::frame_table::{usable_frame, FrameState};
use super::paging::{
    lemma_changed_entry, lemma_gap, lemma_lookup_finds, lookup, page_of, pt_wf, pte_at, resident,
    round_up_4k, shown_frame, small_gaps, PageSize, Pte, PtMap,
};
use super::populate::mapped;
use super::prepared_rules::{lemma_anon_install, lemma_page_gets_a_frame};
use super::protect::repointed;
use super::reclaim::Reclaims;
use super::space_fault::{
    faulted, faulted_write, first_at, guard_start, load_request, shown, FaultEnd, FaultKind,
};

verus! {

/// Whether an access needs a flag that is not there.
pub open spec fn lacks(flags: MappingFlags, access: MappingFlags) -> bool {
    ||| access.read && !flags.read
    ||| access.write && !flags.write
    ||| access.execute && !flags.execute
    ||| access.user && !flags.user
    ||| access.device && !flags.device
    ||| access.uncached && !flags.uncached
}

/// Whether `page` has a frame and an entry that allows the access.
pub open spec fn accessible(pt: PtMap, page: usize, access: MappingFlags) -> bool {
    pte_at(pt, page) is Some && shown_frame(pt, page) != 0 && !lacks(
        (pte_at(pt, page)->0).flags,
        access,
    )
}

/// Whether a fault changed nothing at all.
pub open spec fn nothing_changed(
    e: FaultEnd,
    sp: Space,
    frames: FrameState,
    ra: FileReadAheadState,
) -> bool {
    &&& e.space == sp
    &&& e.frames == frames
    &&& e.read_ahead == ra
    &&& e.copied is None
}

/// An access outside the space or to a page that is in no area is not answered,
/// and neither is one that the area does not allow. Nothing changes.
pub proof fn lemma_forbidden_access_is_refused(
    sp: Space,
    vaddr: usize,
    access: MappingFlags,
    frames: FrameState,
    sizes: Seq<(u64, usize)>,
    ra: FileReadAheadState,
)
    requires
        areas_wf(sp.areas),
        vaddr < sp.base || vaddr >= sp.end || (!accessible(
            sp.pt,
            (vaddr - vaddr % 0x1000) as usize,
            access,
        ) && ((exists|k: int|
            0 <= k < sp.areas.len() && (#[trigger] sp.areas[k]).start <= vaddr < sp.areas[k].end
                && lacks(sp.areas[k].flags, access)) || (forall|k: int|
            0 <= k < sp.areas.len() ==> !((#[trigger] sp.areas[k]).start <= vaddr
                < sp.areas[k].end) && (sp.areas[k].start == (vaddr - vaddr % 0x1000) + 0x1000 ==> !(
            sp.areas[k].backend.bottom() matches Backend::Alloc { grows_down, .. }
                && grows_down))))),
    ensures
        ({
            let e = faulted(sp, vaddr, access, frames, sizes, ra);
            &&& e.kind == FaultKind::Handled(false)
            &&& e.flushed.len() == 0
            &&& nothing_changed(e, sp, frames, ra)
        }),
{
    if sp.base <= vaddr < sp.end {
        lemma_area_index(sp.areas, vaddr as int);
        if exists|k: int|
            0 <= k < sp.areas.len() && (#[trigger] sp.areas[k]).start <= vaddr < sp.areas[k].end
                && lacks(sp.areas[k].flags, access) {
            let k = choose|k: int|
                0 <= k < sp.areas.len() && (#[trigger] sp.areas[k]).start <= vaddr
                    < sp.areas[k].end && lacks(sp.areas[k].flags, access);
            lemma_found(sp.areas, k, vaddr as int);
        } else {
            lemma_first_at(sp.areas, page_of(vaddr) + 0x1000);
            if let Some(i) = area_index(sp.areas, vaddr as int) {
                assert(sp.areas[i].has(vaddr as int));
            }
        }
    }
}

/// What a search for the area that starts at an address finds.
proof fn lemma_first_at(s: Seq<MemoryArea>, start: int)
    ensures
        first_at(s, start) matches Some(a) ==> exists|k: int|
            0 <= k < s.len() && (#[trigger] s[k]) == a && a.start == start,
        first_at(s, start) is None ==> forall|k: int|
            0 <= k < s.len() ==> (#[trigger] s[k]).start != start,
    decreases s.len(),
{
    if s.len() > 0 && s[0].start != start {
        let rest = s.skip(1);
        lemma_first_at(rest, start);
        if let Some(a) = first_at(rest, start) {
            let k = choose|k: int| 0 <= k < rest.len() && (#[trigger] rest[k]) == a && a.start == start;
            assert(s[k + 1] == a);
        } else {
            assert forall|k: int| 0 <= k < s.len() implies (#[trigger] s[k]).start != start by {
                if k > 0 {
                    assert(rest[k - 1] == s[k]);
                }
            }
        }
    }
}

/// A page that has a frame and allows the access needs no more than a fresh
/// translation.
pub proof fn lemma_accessible_page_is_retried(
    sp: Space,
    vaddr: usize,
    access: MappingFlags,
    frames: FrameState,
    sizes: Seq<(u64, usize)>,
    ra: FileReadAheadState,
)
    requires
        sp.base <= vaddr < sp.end,
        accessible(sp.pt, (vaddr - vaddr % 0x1000) as usize, access),
    ensures
        ({
            let e = faulted(sp, vaddr, access, frames, sizes, ra);
            &&& e.kind == FaultKind::Handled(true)
            &&& e.flushed == seq![(vaddr - vaddr % 0x1000) as usize]
            &&& nothing_changed(e, sp, frames, ra)
        }),
{
}

/// An access right below a stack, where no area is, is put off until the space is
/// locked for writing.
pub proof fn lemma_stack_growth_needs_the_lock(
    sp: Space,
    vaddr: usize,
    access: MappingFlags,
    frames: FrameState,
    sizes: Seq<(u64, usize)>,
    ra: FileReadAheadState,
    k: int,
)
    requires
        areas_wf(sp.areas),
        sp.base <= vaddr < sp.end,
        !accessible(sp.pt, (vaddr - vaddr % 0x1000) as usize, access),
        forall|j: int|
            0 <= j < sp.areas.len() ==> !((#[trigger] sp.areas[j]).start <= vaddr
                < sp.areas[j].end),
        0 <= k < sp.areas.len(),
        sp.areas[k].start == (vaddr - vaddr % 0x1000) + 0x1000,
        sp.areas[k].backend.bottom() matches Backend::Alloc { grows_down, .. } && grows_down,
    ensures
        ({
            let e = faulted(sp, vaddr, access, frames, sizes, ra);
            &&& e.kind == FaultKind::NeedWriteLock
            &&& nothing_changed(e, sp, frames, ra)
        }),
{
    lemma_area_index(sp.areas, vaddr as int);
    if let Some(i) = area_index(sp.areas, vaddr as int) {
        assert(sp.areas[i].has(vaddr as int));
    }
    lemma_first_at(sp.areas, page_of(vaddr) + 0x1000);
    reveal(areas_wf);
    let a = first_at(sp.areas, page_of(vaddr) + 0x1000)->0;
    let j = choose|j: int|
        0 <= j < sp.areas.len() && (#[trigger] sp.areas[j]) == a && a.start == page_of(vaddr)
            + 0x1000;
    assert(sp.areas[j].wf() && sp.areas[k].wf());
    if j < k {
        assert(sp.areas[j].end <= sp.areas[k].start);
    } else if k < j {
        assert(sp.areas[k].end <= sp.areas[j].start);
    }
}

/// How many pages in a row have no frame.
proof fn lemma_unbacked_run(pt: PtMap, page: usize, area_end: usize, k: nat)
    requires
        k <= 4,
    ensures
        k <= unbacked_run(pt, page, area_end, k) <= 4,
        forall|i: int|
            k <= i < unbacked_run(pt, page, area_end, k) ==> page <= #[trigger] page_at(page, i)
                < area_end && !resident(pt, page_at(page, i)),
        unbacked_run(pt, page, area_end, k) < 4 ==> page + unbacked_run(pt, page, area_end, k)
            * 0x1000 >= area_end || resident(
            pt,
            page_at(page, unbacked_run(pt, page, area_end, k) as int),
        ),
    decreases 4 - k,
{
    if k < 4 && page + k * 0x1000 < area_end && !resident(pt, (page + k * 0x1000) as usize) {
        lemma_unbacked_run(pt, page, area_end, (k + 1) as nat);
        let n = unbacked_run(pt, page, area_end, k);
        assert forall|i: int| k <= i < n implies page <= #[trigger] page_at(page, i) < area_end
            && !resident(pt, page_at(page, i)) by {
            if i == k {
                assert(page_at(page, i) == (page + k * 0x1000) as usize);
            }
        }
    }
}

/// The `i`-th page from `page` on.
pub open spec fn page_at(page: usize, i: int) -> usize {
    (page + i * 0x1000) as usize
}

/// The first access to a page of lazy anonymous memory asks for frames: for the
/// page itself and for those behind it, up to four in all, that lie in the area
/// and have none yet. It asks for as many as that. Nothing changes before the
/// frames are there.
pub proof fn lemma_anonymous_fault_asks_for_frames(
    sp: Space,
    vaddr: usize,
    access: MappingFlags,
    frames: FrameState,
    sizes: Seq<(u64, usize)>,
    ra: FileReadAheadState,
    k: int,
)
    requires
        areas_wf(sp.areas),
        sp.base <= vaddr < sp.end,
        0 <= k < sp.areas.len(),
        sp.areas[k].start <= vaddr < sp.areas[k].end,
        !lacks(sp.areas[k].flags, access),
        sp.areas[k].backend.bottom() matches Backend::Alloc { populate, .. } && !populate,
        !resident(sp.pt, (vaddr - vaddr % 0x1000) as usize),
    ensures
        ({
            let e = faulted(sp, vaddr, access, frames, sizes, ra);
            let page = (vaddr - vaddr % 0x1000) as usize;
            let end = sp.areas[k].end;
            &&& nothing_changed(e, sp, frames, ra)
            &&& e.kind matches FaultKind::NeedAnon(load) && {
                let n = load.page_count as int;
                &&& load.page == page
                &&& 1 <= n <= 4
                &&& forall|i: int|
                    0 <= i < n ==> page <= #[trigger] page_at(page, i) < end && !resident(
                        sp.pt,
                        page_at(page, i),
                    )
                &&& n < 4 ==> page + n * 0x1000 >= end || resident(sp.pt, page_at(page, n))
            }
        }),
{
    lemma_found(sp.areas, k, vaddr as int);
    let page = page_of(vaddr);
    lemma_unbacked_run(sp.pt, page, sp.areas[k].end, 0);
    assert(!resident(sp.pt, (page + 0 * 0x1000) as usize));
    assert(unbacked_run(sp.pt, page, sp.areas[k].end, 0) == unbacked_run(
        sp.pt,
        page,
        sp.areas[k].end,
        1,
    ));
    lemma_unbacked_run(sp.pt, page, sp.areas[k].end, 1);
    let n = unbacked_run(sp.pt, page, sp.areas[k].end, 0);
    let e = faulted(sp, vaddr, access, frames, sizes, ra);
    assert(load_request(sp.areas[k], vaddr, sp.pt, sizes, ra) is None);
    assert(e.kind matches FaultKind::NeedAnon(load) && load.page == page && load.page_count == n);
    assert(n < 4 ==> page + n * 0x1000 >= sp.areas[k].end || resident(
        sp.pt,
        page_at(page, n as int),
    ));
}

/// The first access to a page of a mapped file asks for that page of the file,
/// counted from the start of the file, and for at most fifteen behind it. Nothing
/// changes before the page is there but what is expected to be read next.
pub proof fn lemma_file_fault_asks_for_its_page(
    sp: Space,
    vaddr: usize,
    access: MappingFlags,
    frames: FrameState,
    sizes: Seq<(u64, usize)>,
    ra: FileReadAheadState,
    k: int,
    m: FileMapping,
)
    requires
        areas_wf(sp.areas),
        sp.base <= vaddr < sp.end,
        0 <= k < sp.areas.len(),
        sp.areas[k].start <= vaddr < sp.areas[k].end,
        sp.areas[k].end <= usize::MAX - 0xffff,
        !lacks(sp.areas[k].flags, access),
        sp.areas[k].backend.bottom() == Backend::File(m),
        !resident(sp.pt, (vaddr - vaddr % 0x1000) as usize),
        sp.areas[k].flags.read || sp.areas[k].flags.execute ==> m.file_flags.read,
        sp.areas[k].flags.write ==> if m.shared {
            m.file_flags.write
        } else {
            m.file_flags.read
        },
        m.start <= vaddr - vaddr % 0x1000,
        m.file_offset + m.file_bytes <= usize::MAX,
        m.file_offset + (vaddr - vaddr % 0x1000 - m.start) < m.file_offset + m.file_bytes,
        m.file_offset + (vaddr - vaddr % 0x1000 - m.start) < size_of_file(sizes, m.file),
        (m.file_offset + (vaddr - vaddr % 0x1000 - m.start)) / 0x1000 <= u32::MAX,
    ensures
        ({
            let e = faulted(sp, vaddr, access, frames, sizes, ra);
            let page = vaddr - vaddr % 0x1000;
            &&& e.space == sp
            &&& e.frames == frames
            &&& e.copied is None
            &&& e.kind matches FaultKind::NeedFile(load) && {
                &&& load.file == m.file
                &&& load.page_number == (m.file_offset + (page - m.start)) / 0x1000
                &&& load.may_write == (m.shared && m.file_flags.write)
                &&& load.sequential == (ra.next_page == Some(load.page_number))
                &&& 1 <= load.page_count <= 16
                &&& load.page_number + load.page_count <= u32::MAX ==> e.read_ahead.next_page
                    == Some((load.page_number + load.page_count) as u32)
            }
        }),
{
    lemma_found(sp.areas, k, vaddr as int);
    let page = page_of(vaddr);
    lemma_pages_in_a_row_bounds(
        m.start,
        m.file_offset,
        m.file_bytes,
        size_of_file(sizes, m.file),
        page as int,
        sp.areas[k].end,
        0,
    );
}

/// The answer to a write to a page that is shared since a fork reaches the space:
/// the page becomes writable, a page with other users gets a frame of its own, to
/// which the old one is copied, and every CPU drops the old translation.
#[verifier::rlimit(40)]
#[verifier::spinoff_prover]
pub proof fn lemma_write_after_fork(
    sp: Space,
    vaddr: usize,
    access: MappingFlags,
    frames: FrameState,
    sizes: Seq<(u64, usize)>,
    ra: FileReadAheadState,
    k: int,
    cow: CowMapping,
)
    requires
        areas_wf(sp.areas),
        pt_wf(sp.pt),
        frames.wf(),
        sp.base <= vaddr < sp.end,
        0 <= k < sp.areas.len(),
        sp.areas[k].start <= vaddr < sp.areas[k].end,
        sp.areas[k].backend == Backend::Cow(cow),
        !lacks(sp.areas[k].flags, access),
        access.write,
        resident(sp.pt, (vaddr - vaddr % 0x1000) as usize),
        !(pte_at(sp.pt, (vaddr - vaddr % 0x1000) as usize)->0).flags.write,
        shown_frame(sp.pt, (vaddr - vaddr % 0x1000) as usize) % 0x1000 == 0,
        !frames.available.contains(shown_frame(sp.pt, (vaddr - vaddr % 0x1000) as usize)),
        frames.counts.releasable(shown_frame(sp.pt, (vaddr - vaddr % 0x1000) as usize)),
        frames.available.len() > 0,
    ensures
        ({
            let e = faulted(sp, vaddr, access, frames, sizes, ra);
            let page = (vaddr - vaddr % 0x1000) as usize;
            let old_frame = shown_frame(sp.pt, page);
            let counts = frames.counts;
            let sole = counts.has(old_frame) && counts.refs[(old_frame - counts.base) / 0x1000]
                == 1;
            let now = pte_at(e.space.pt, page)->0;
            &&& e.kind matches FaultKind::Shootdown(handled, list, reclaims) && handled
                && list.len() == 1 && list[0].0 == sp.asid && list[0].1.covers(page as int)
                && reclaims.frames.len() == 0
            &&& pte_at(e.space.pt, page) is Some
            &&& now.flags.write
            &&& now.flags.execute == (pte_at(sp.pt, page)->0).flags.execute
            &&& now.flags.user == (pte_at(sp.pt, page)->0).flags.user
            &&& e.sync_executable == (pte_at(sp.pt, page)->0).flags.execute
            &&& sole ==> now.frame == old_frame && e.copied is None && e.frames == frames
            &&& !sole ==> now.frame != old_frame && e.copied == Some((old_frame, now.frame))
                && frames.available.contains(now.frame) && !e.frames.available.contains(now.frame)
            &&& e.flushed.contains(page)
            &&& e.space.areas == sp.areas
            &&& forall|q: usize|
                lookup(sp.pt, q) != lookup(sp.pt, page) ==> #[trigger] pte_at(e.space.pt, q)
                    == pte_at(sp.pt, q)
        }),
{
    lemma_found(sp.areas, k, vaddr as int);
    let page = page_of(vaddr);
    let area = sp.areas[k];
    let f = Fault {
        page,
        area_end: area.end,
        orig: area.flags,
        access,
        write_implies_read: sp.write_implies_read,
        limit: sp.limit,
    };
    let m = Memory { pt: sp.pt, frames, reclaims: Reclaims::none() };
    let a = fault_on(area.backend, f, m, sizes);
    assert(a.handled);
    lemma_shared_page_becomes_private(cow, f, m, sizes);
    assert(unbacked_run(sp.pt, page, area.end, 0) == 0) by {
        assert((page + 0 * 0x1000) as usize == page);
    }
    assert(load_request(area, vaddr, sp.pt, sizes, ra) is None);
    assert(shown(a.memory.pt, page) != shown(sp.pt, page));
    lemma_area_wf(sp.areas, k);
    assert(page + 0x1000 <= area.end);
    lemma_lookup_finds(sp.pt, page);
    let b = lookup(sp.pt, page)->0;
    lemma_changed_entry(sp.pt, b, a.memory.pt[b], page);
}

/// A write to a page of a file that is mapped privately gets a copy of the page.
/// The file's frame is given up once every CPU has dropped the old translation.
#[verifier::rlimit(40)]
#[verifier::spinoff_prover]
pub proof fn lemma_write_to_private_file(
    sp: Space,
    vaddr: usize,
    access: MappingFlags,
    frames: FrameState,
    sizes: Seq<(u64, usize)>,
    ra: FileReadAheadState,
    k: int,
    m: FileMapping,
)
    requires
        areas_wf(sp.areas),
        pt_wf(sp.pt),
        frames.wf(),
        sp.base <= vaddr < sp.end,
        0 <= k < sp.areas.len(),
        sp.areas[k].start <= vaddr < sp.areas[k].end,
        sp.areas[k].backend == Backend::File(m),
        !m.shared,
        m.file_flags.read,
        !lacks(sp.areas[k].flags, access),
        access.write,
        resident(sp.pt, (vaddr - vaddr % 0x1000) as usize),
        !(pte_at(sp.pt, (vaddr - vaddr % 0x1000) as usize)->0).flags.write,
        !frames.available.contains(shown_frame(sp.pt, (vaddr - vaddr % 0x1000) as usize)),
        frames.available.len() > 0,
        0 <= vaddr - vaddr % 0x1000 - m.start < size_of_file(sizes, m.file),
    ensures
        ({
            let e = faulted(sp, vaddr, access, frames, sizes, ra);
            let page = (vaddr - vaddr % 0x1000) as usize;
            let old_frame = shown_frame(sp.pt, page);
            let now = pte_at(e.space.pt, page)->0;
            &&& e.kind matches FaultKind::Shootdown(handled, list, reclaims) && handled
                && list.len() == 1 && list[0].0 == sp.asid && list[0].1.covers(page as int)
                && reclaims.frames == seq![old_frame]
            &&& pte_at(e.space.pt, page) is Some
            &&& now.flags.write
            &&& now.flags.execute == sp.areas[k].flags.execute
            &&& now.flags.user == sp.areas[k].flags.user
            &&& now.frame != old_frame
            &&& e.sync_executable == sp.areas[k].flags.execute
            &&& e.copied == Some((old_frame, now.frame))
            &&& frames.available.contains(now.frame)
            &&& e.frames.available == frames.available.drop_last()
            &&& e.space.areas == sp.areas
            &&& forall|q: usize|
                lookup(sp.pt, q) != lookup(sp.pt, page) ==> #[trigger] pte_at(e.space.pt, q)
                    == pte_at(sp.pt, q)
        }),
{
    lemma_found(sp.areas, k, vaddr as int);
    lemma_area_wf(sp.areas, k);
    let page = page_of(vaddr);
    let area = sp.areas[k];
    let a = answer(sp, area, vaddr, access, frames, sizes);
    lemma_lookup_finds(sp.pt, page);
    let b = lookup(sp.pt, page)->0;
    let s = frames.available;
    assert(s[s.len() - 1] == s.last());
    assert(s.contains(s.last()));
    assert(a.memory.pt == sp.pt.insert(b, a.memory.pt[b]));
    lemma_changed_entry(sp.pt, b, a.memory.pt[b], page);
    assert forall|q: usize| lookup(sp.pt, q) != lookup(sp.pt, page) implies #[trigger] pte_at(
        a.memory.pt,
        q,
    ) == pte_at(sp.pt, q) by {
        lemma_changed_entry(sp.pt, b, a.memory.pt[b], q);
    }
    assert(load_request(area, vaddr, sp.pt, sizes, ra) is None);
    assert(page + 0x1000 <= area.end);
    assert(a.memory.reclaims.frames =~= seq![shown_frame(sp.pt, page)]);
}

/// How the backend of an area answers.
spec fn answer(
    sp: Space,
    area: MemoryArea,
    vaddr: usize,
    access: MappingFlags,
    frames: FrameState,
    sizes: Seq<(u64, usize)>,
) -> Answer {
    fault_on(
        area.backend,
        Fault {
            page: page_of(vaddr),
            area_end: area.end,
            orig: area.flags,
            access,
            write_implies_read: sp.write_implies_read,
            limit: sp.limit,
        },
        Memory { pt: sp.pt, frames, reclaims: Reclaims::none() },
        sizes,
    )
}

/// A page that has a frame, but lacks a permission that its area gives, gets the
/// permissions of the area in addition to those it has. It keeps its frame, and
/// no other page changes. A page of a file that is mapped privately stays
/// read-only.
#[verifier::rlimit(40)]
pub proof fn lemma_permissions_are_added(
    sp: Space,
    vaddr: usize,
    access: MappingFlags,
    frames: FrameState,
    sizes: Seq<(u64, usize)>,
    ra: FileReadAheadState,
    k: int,
)
    requires
        areas_wf(sp.areas),
        pt_wf(sp.pt),
        sp.base <= vaddr < sp.end,
        0 <= k < sp.areas.len(),
        sp.areas[k].start <= vaddr < sp.areas[k].end,
        !lacks(sp.areas[k].flags, access),
        resident(sp.pt, (vaddr - vaddr % 0x1000) as usize),
        lacks((pte_at(sp.pt, (vaddr - vaddr % 0x1000) as usize)->0).flags, access),
        (pte_at(sp.pt, (vaddr - vaddr % 0x1000) as usize)->0).flags != (MappingFlags {
            read: false,
            write: false,
            execute: false,
            user: false,
            device: false,
            uncached: false,
        }),
        sp.areas[k].backend is Alloc || sp.areas[k].backend is File,
        sp.areas[k].backend matches Backend::File(m) ==> {
            &&& m.shared || !access.write
            &&& sp.areas[k].flags.read || sp.areas[k].flags.execute ==> m.file_flags.read
            &&& sp.areas[k].flags.write ==> if m.shared {
                m.file_flags.write
            } else {
                m.file_flags.read
            }
            &&& 0 <= vaddr - vaddr % 0x1000 - m.start < size_of_file(sizes, m.file)
        },
    ensures
        ({
            let e = faulted(sp, vaddr, access, frames, sizes, ra);
            let page = (vaddr - vaddr % 0x1000) as usize;
            let before = pte_at(sp.pt, page)->0;
            let now = pte_at(e.space.pt, page)->0;
            let area = sp.areas[k].flags;
            let private = sp.areas[k].backend matches Backend::File(m) && !m.shared;
            &&& e.kind matches FaultKind::Shootdown(handled, list, reclaims) && handled
                && list.len() == 1 && list[0].0 == sp.asid && list[0].1.covers(page as int)
                && reclaims.frames.len() == 0
            &&& pte_at(e.space.pt, page) is Some
            &&& now.frame == shown_frame(sp.pt, page)
            &&& now.flags.write == ((before.flags.write || area.write) && !private)
            &&& now.flags.execute == (before.flags.execute || area.execute)
            &&& now.flags.user == (before.flags.user || area.user)
            &&& e.sync_executable == (sp.areas[k].backend is File && (before.flags.execute
                || area.execute))
            &&& before.flags.read || area.read ==> now.flags.read
            &&& now.flags.read ==> before.flags.read || area.read || now.flags.write
            &&& e.copied is None
            &&& e.frames == frames
            &&& e.space.areas == sp.areas
            &&& forall|q: usize|
                lookup(sp.pt, q) != lookup(sp.pt, page) ==> #[trigger] pte_at(e.space.pt, q)
                    == pte_at(sp.pt, q)
        }),
{
    lemma_found(sp.areas, k, vaddr as int);
    lemma_area_wf(sp.areas, k);
    let page = page_of(vaddr);
    let area = sp.areas[k];
    let a = answer(sp, area, vaddr, access, frames, sizes);
    lemma_lookup_finds(sp.pt, page);
    let b = lookup(sp.pt, page)->0;
    let old = sp.pt[b].flags;
    let sum = old.joined(area.flags);
    let added = if area.backend matches Backend::File(m) && !m.shared {
        sum.with_write(false)
    } else {
        sum
    };
    let n = Pte {
        flags: spec_effective_pte_flags(added, sp.write_implies_read),
        frame: shown_frame(sp.pt, page),
        size: sp.pt[b].size,
    };
    assert(unbacked_run(sp.pt, page, area.end, 0) == 0) by {
        assert((page + 0 * 0x1000) as usize == page);
    }
    assert(sum != old);
    assert(!old.has(added));
    assert(old != MappingFlags::spec_empty());
    assert(a.memory.pt == repointed(sp.pt, page, n.flags) && a.handled && a.copied is None
        && a.memory.frames == frames && a.memory.reclaims == Reclaims::none()) by {
        if let Backend::File(m) = area.backend {
            assert(m.spec_permits(area.flags));
            assert(page - m.start < round_up_4k(size_of_file(sizes, m.file) as int));
        }
    }
    assert(a.memory.pt == sp.pt.insert(b, n));
    lemma_changed_entry(sp.pt, b, n, page);
    assert forall|q: usize| lookup(sp.pt, q) != lookup(sp.pt, page) implies #[trigger] pte_at(
        a.memory.pt,
        q,
    ) == pte_at(sp.pt, q) by {
        lemma_changed_entry(sp.pt, b, n, q);
    }
    assert(load_request(area, vaddr, sp.pt, sizes, ra) is None);
    assert(page + 0x1000 <= area.end);
    assert(n.flags != old) by {
        assert(!old.has(n.flags));
    }
    assert(shown(a.memory.pt, page) != shown(sp.pt, page));
}

/// A stack grows by the one page right below it, and only if nothing but free
/// addresses lies within a megabyte below that page. The page becomes an area of
/// its own with the flags of the stack, and the fault is answered there; the areas
/// that were there stay.
#[verifier::rlimit(40)]
#[verifier::spinoff_prover]
pub proof fn lemma_stack_grows(
    sp: Space,
    vaddr: usize,
    access: MappingFlags,
    frames: FrameState,
    sizes: Seq<(u64, usize)>,
    ra: FileReadAheadState,
    k: int,
)
    requires
        areas_wf(sp.areas),
        sp.base <= vaddr - vaddr % 0x1000,
        vaddr - vaddr % 0x1000 + 0x1000 <= sp.end,
        0 <= k < sp.areas.len(),
        sp.areas[k].start == vaddr - vaddr % 0x1000 + 0x1000,
        sp.areas[k].backend.bottom() matches Backend::Alloc { grows_down, .. } && grows_down,
        !lacks(sp.areas[k].flags, access),
        !resident(sp.pt, (vaddr - vaddr % 0x1000) as usize),
        forall|j: int|
            0 <= j < sp.areas.len() ==> !((#[trigger] sp.areas[j]).start <= vaddr
                < sp.areas[j].end),
    ensures
        ({
            let e = faulted_write(sp, vaddr, access, frames, sizes, ra);
            let page = (vaddr - vaddr % 0x1000) as usize;
            let crowded = exists|j: int|
                0 <= j < sp.areas.len() && (#[trigger] sp.areas[j]).start < page && page - 0x10_0000
                    < sp.areas[j].end;
            &&& crowded ==> e.kind == FaultKind::Handled(false) && nothing_changed(
                e,
                sp,
                frames,
                ra,
            )
            &&& !crowded ==> {
                &&& e.kind matches FaultKind::NeedAnon(load) && load.page == page
                    && load.page_count == 1
                &&& e.space.areas.contains(
                    MemoryArea {
                        start: page,
                        end: (page + 0x1000) as usize,
                        flags: sp.areas[k].flags,
                        backend: Backend::Alloc { populate: false, grows_down: true },
                    },
                )
                &&& e.space.areas.len() == sp.areas.len() + 1
                &&& forall|j: int|
                    0 <= j < sp.areas.len() ==> e.space.areas.contains(#[trigger] sp.areas[j])
                &&& e.space.pt == sp.pt
                &&& e.frames == frames
            }
        }),
{
    reveal(mapped);
    let page = page_of(vaddr);
    lemma_first_at(sp.areas, page + 0x1000);
    let a = first_at(sp.areas, page + 0x1000)->0;
    let j = choose|j: int|
        0 <= j < sp.areas.len() && (#[trigger] sp.areas[j]) == a && a.start == page + 0x1000;
    lemma_area_wf(sp.areas, k);
    lemma_area_wf(sp.areas, j);
    assert(a == sp.areas[k]) by {
        lemma_found(sp.areas, k, page + 0x1000);
        lemma_found(sp.areas, j, page + 0x1000);
    }
    let low = guard_start(page);
    let crowded = exists|j: int|
        0 <= j < sp.areas.len() && (#[trigger] sp.areas[j]).start < page && page - 0x10_0000
            < sp.areas[j].end;
    assert(any_meets(sp.areas, low as int, page as int) <==> crowded) by {
        if any_meets(sp.areas, low as int, page as int) {
            let n = choose|n: int|
                0 <= n < sp.areas.len() && (#[trigger] sp.areas[n]).meets(low as int, page as int);
            assert(sp.areas[n].start < page);
        }
        if crowded {
            let n = choose|n: int|
                0 <= n < sp.areas.len() && (#[trigger] sp.areas[n]).start < page && page
                    - 0x10_0000 < sp.areas[n].end;
            lemma_area_wf(sp.areas, n);
            assert(sp.areas[n].meets(low as int, page as int));
        }
    }
    let new = MemoryArea {
        start: page,
        end: (page + 0x1000) as usize,
        flags: a.flags,
        backend: Backend::Alloc { populate: false, grows_down: true },
    };
    assert(!any_meets(sp.areas, page as int, page + 0x1000)) by {
        if any_meets(sp.areas, page as int, page + 0x1000) {
            let n = choose|n: int|
                0 <= n < sp.areas.len() && (#[trigger] sp.areas[n]).meets(
                    page as int,
                    page + 0x1000,
                );
            lemma_area_wf(sp.areas, n);
            assert(!(sp.areas[n].start <= vaddr < sp.areas[n].end));
        }
    }
    if !crowded {
        let t = entered(sp.areas, new, sp.pt, frames, sp.stored(a.flags), sp.limit);
        assert(t.0 is Ok && t.1 == with_area(sp.areas, new) && t.2 == sp.pt && t.3 == frames);
        lemma_with_area_wf(sp.areas, new);
        lemma_rank(sp.areas, page);
        let n = rank(sp.areas, page) as int;
        assert(t.1[n] == new);
        assert forall|j: int| 0 <= j < sp.areas.len() implies t.1.contains(
            #[trigger] sp.areas[j],
        ) by {
            if j < n {
                assert(t.1[j] == sp.areas[j]);
            } else {
                assert(t.1[j + 1] == sp.areas[j]);
            }
        }
        let now = Space { areas: t.1, pt: t.2, ..sp };
        lemma_anonymous_fault_asks_for_frames(now, vaddr, access, frames, sizes, ra, n);
        assert(t.1.contains(new));
        let e = faulted(now, vaddr, access, frames, sizes, ra);
        let load = e.kind->NeedAnon_0;
        if load.page_count >= 2 {
            assert(page_at(page, 1) == page + 0x1000);
        }
    }
}

/// A fault on anonymous memory that is answered at once leaves the page with a
/// frame. A page that had none gets the frame that is next at hand, with the
/// permissions of the area; a page that had one keeps it and gets the permissions of
/// the area in addition to its own. A fault that is not answered changes no page.
#[verifier::rlimit(60)]
#[verifier::spinoff_prover]
pub proof fn lemma_anonymous_fault_at_once(
    pt: PtMap,
    frames: FrameState,
    page: usize,
    area_end: usize,
    orig: MappingFlags,
    write_implies_read: bool,
    limit: usize,
    populate: bool,
)
    requires
        pt_wf(pt),
        small_gaps(pt),
        frames.wf(),
        page % 0x1000 == 0,
        page < area_end,
    ensures
        ({
            let t = spec_fault_alloc(
                pt,
                frames,
                page,
                area_end,
                orig,
                write_implies_read,
                limit,
                populate,
            );
            let before = pte_at(pt, page)->0;
            let now = pte_at(t.2, page)->0;
            let bare = before.flags == (MappingFlags {
                read: false,
                write: false,
                execute: false,
                user: false,
                device: false,
                uncached: false,
            });
            &&& !t.0 ==> t.2 == pt
            &&& t.0 ==> pte_at(t.2, page) is Some
            &&& t.0 && (!resident(pt, page) || before.size == PageSize::Size4K) ==> shown_frame(
                t.2,
                page,
            ) != 0
            &&& t.0 && !resident(pt, page) ==> {
                &&& frames.available.len() > 0
                &&& now.frame == frames.available.last()
                &&& now.flags.write == orig.write
                &&& now.flags.execute == orig.execute
                &&& now.flags.user == orig.user
                &&& t.1.len() > 0 && t.1[0] == page
            }
            &&& resident(pt, page) && !bare ==> {
                &&& t.0
                &&& t.3 == frames
                &&& now.frame == before.frame || now.frame == shown_frame(pt, page)
                &&& now.flags.write == (before.flags.write || orig.write)
                &&& now.flags.execute == (before.flags.execute || orig.execute)
                &&& now.flags.user == (before.flags.user || orig.user)
            }
            &&& resident(pt, page) && bare && populate ==> !t.0
        }),
{
    let stored = spec_effective_pte_flags(orig, write_implies_read);
    assert(page_at(page, 0) == page);
    if !resident(pt, page) {
        if lookup(pt, page) is Some {
            lemma_gap(pt, page);
            lemma_lookup_finds(pt, page);
        }
        if frames.available.len() > 0 {
            assert(usable_frame(frames.available[frames.available.len() - 1]));
            lemma_page_gets_a_frame(pt, page, frames.available.last(), stored, page);
        }
        if !populate && frames.available.len() > 0 {
            let n = unbacked_run(pt, page, area_end, 0);
            lemma_unbacked_run(pt, page, area_end, 0);
            assert(n == unbacked_run(pt, page, area_end, 1));
            lemma_unbacked_run(pt, page, area_end, 1);
            let k = if n < frames.available.len() {
                n
            } else {
                frames.available.len()
            };
            let p = AnonPages {
                page,
                frames: frames.next_frames(k),
                mapped: Seq::new(k, |i: int| false),
            };
            assert forall|i: int| 0 <= i < p.frames.len() implies usable_frame(
                #[trigger] p.frames[i],
            ) by {
                assert(usable_frame(frames.available[frames.available.len() - 1 - i]));
            }
            assert(p.frames[0] == frames.available.last());
            let a = AnonInstall {
                pt,
                mapped: p.mapped,
                handled: false,
                flushed: Seq::empty(),
                going: true,
            };
            let b = anon_install_one(a, p, 0, area_end, stored, limit);
            let t = anon_install(a, p, 0, area_end, stored, limit);
            assert(t == anon_install(b, p, 1, area_end, stored, limit));
            if b.handled {
                lemma_anon_install(b, p, 1, area_end, stored, limit, 0, page);
                lemma_flushed_stays(b, p, 1, area_end, stored, limit);
            } else {
                assert(!b.going);
                assert(t == b);
            }
        }
    } else {
        lemma_lookup_finds(pt, page);
        let b = lookup(pt, page)->0;
        let e = pt[b];
        assert(unbacked_run(pt, page, area_end, 0) == 0);
        if frames.available.len() > 0 {
            assert(usable_frame(frames.available[frames.available.len() - 1]));
        }
        let joined = spec_effective_pte_flags(e.flags.joined(orig), write_implies_read);
        lemma_changed_entry(
            pt,
            b,
            Pte { frame: shown_frame(pt, page), flags: joined, size: e.size },
            page,
        );
        if frames.available.len() > 0 {
            lemma_changed_entry(
                pt,
                b,
                Pte { frame: frames.available.last(), flags: stored, size: e.size },
                page,
            );
        }
    }
}

/// Pages that were noted stay noted first.
proof fn lemma_flushed_stays(
    a: AnonInstall,
    p: AnonPages,
    i: int,
    area_end: usize,
    stored: MappingFlags,
    limit: usize,
)
    requires
        0 <= i,
        a.flushed.len() > 0,
    ensures
        ({
            let t = anon_install(a, p, i, area_end, stored, limit);
            t.flushed.len() > 0 && t.flushed[0] == a.flushed[0]
        }),
    decreases p.frames.len() - i,
{
    if i < p.frames.len() && a.going {
        lemma_flushed_stays(
            anon_install_one(a, p, i, area_end, stored, limit),
            p,
            i + 1,
            area_end,
            stored,
            limit,
        );
    }
}

} // verus!
