//! Entering mappings into a page table.
use vstd::prelude::*;

use super::backend::Backend;
use super::file_fault::map_page;
use super::flags::MappingFlags;
use super::frame_table::{
    fresh_frames, lemma_distinct_releasable, lemma_other_frame, usable_frame, FrameState, Frames,
};
use super::paging::{
    aligned_4k, base_of, leaf, lemma_entry_in_free_range, lemma_free_page_has_no_entry,
    lemma_small_key, lookup, offset_in, pt_wf, pte_at, range_free, PageSize, PageTable, Pte, PtMap,
    PAGE_SIZE_1G, PAGE_SIZE_2M, PAGE_SIZE_4K,
};

verus! {

/// The largest page that a region of `left` bytes can start with.
pub open spec fn region_page(va: usize, pa: usize, left: int, allow_huge: bool) -> PageSize {
    if allow_huge && va % 0x4000_0000 == 0 && pa % 0x4000_0000 == 0 && left >= PAGE_SIZE_1G {
        PageSize::Size1G
    } else if allow_huge && va % 0x20_0000 == 0 && pa % 0x20_0000 == 0 && left >= PAGE_SIZE_2M {
        PageSize::Size2M
    } else {
        PageSize::Size4K
    }
}

/// Maps `left` bytes from `va` on to the memory from `pa` on. Stops at the
/// first page that is already translated or does not fit in the table.
pub open spec fn map_region(
    pt: PtMap,
    va: int,
    pa: int,
    left: int,
    stored: MappingFlags,
    limit: usize,
    allow_huge: bool,
) -> (bool, PtMap)
    decreases left,
{
    if left <= 0 {
        (true, pt)
    } else {
        let size = region_page(va as usize, pa as usize, left, allow_huge);
        let bytes = size.spec_bytes();
        if bytes > left || !(range_free(pt, va as usize, bytes as int) && pt.len() < limit) {
            (false, pt)
        } else {
            map_region(
                pt.insert(
                    va as usize,
                    Pte { frame: base_of(pa as usize, size), flags: stored, size },
                ),
                va + bytes,
                pa + bytes,
                left - bytes,
                stored,
                limit,
                allow_huge,
            )
        }
    }
}

fn choose_page(va: usize, pa: usize, left: usize, allow_huge: bool) -> (r: PageSize)
    requires
        aligned_4k(va as int),
        aligned_4k(left as int),
        left > 0,
    ensures
        r == region_page(va, pa, left as int, allow_huge),
        offset_in(va, r) == 0,
        r.spec_bytes() <= left,
        aligned_4k(va + r.spec_bytes()),
        aligned_4k(left - r.spec_bytes()),
{
    if allow_huge && va % PAGE_SIZE_1G == 0 && pa % PAGE_SIZE_1G == 0 && left >= PAGE_SIZE_1G {
        PageSize::Size1G
    } else if allow_huge && va % PAGE_SIZE_2M == 0 && pa % PAGE_SIZE_2M == 0 && left
        >= PAGE_SIZE_2M {
        PageSize::Size2M
    } else {
        PageSize::Size4K
    }
}

fn enter_region(
    start: usize,
    paddr: usize,
    size: usize,
    flags: MappingFlags,
    allow_huge: bool,
    pt: &mut PageTable,
) -> (ok: bool)
    requires
        old(pt).wf(),
        start + size <= usize::MAX,
        paddr + size <= usize::MAX,
        aligned_4k(start as int),
        aligned_4k(size as int),
    ensures
        final(pt).wf(),
        final(pt).same_kind(old(pt)),
        (ok, final(pt)@) == map_region(
            old(pt)@,
            start as int,
            paddr as int,
            size as int,
            old(pt).stored(flags),
            old(pt).limit(),
            allow_huge,
        ),
{
    let mut va: usize = start;
    let mut pa: usize = paddr;
    let mut left: usize = size;
    while left > 0
        invariant
            pt.wf(),
            pt.same_kind(old(pt)),
            va + left <= usize::MAX,
            pa + left <= usize::MAX,
            aligned_4k(va as int),
            aligned_4k(left as int),
            map_region(
                old(pt)@,
                start as int,
                paddr as int,
                size as int,
                old(pt).stored(flags),
                old(pt).limit(),
                allow_huge,
            ) == map_region(
                pt@,
                va as int,
                pa as int,
                left as int,
                pt.stored(flags),
                pt.limit(),
                allow_huge,
            ),
        decreases left,
    {
        let page: PageSize = choose_page(va, pa, left, allow_huge);
        let bytes: usize = page.bytes();
        if !pt.map(va, pa, page, flags) {
            return false;
        }
        va = va + bytes;
        pa = pa + bytes;
        left = left - bytes;
    }
    true
}

/// What has happened while every page of a range gets a frame.
pub ghost struct Populating {
    pub ok: bool,
    pub pt: PtMap,
    pub frames: FrameState,
    /// The frames that were mapped, in order.
    pub taken: Seq<usize>,
}

/// Gives the pages of `[page, end)` new frames, as far as there are frames and
/// the pages are free.
pub open spec fn populate(
    p: Populating,
    page: int,
    end: int,
    stored: MappingFlags,
    limit: usize,
) -> Populating
    decreases (if page < end {
            end - page
        } else {
            0
        }),
{
    if page >= end {
        p
    } else {
        match p.frames.next() {
            None => Populating { ok: false, ..p },
            Some(frame) => if lookup(p.pt, page as usize) is None && p.pt.len() < limit {
                populate(
                    Populating {
                        ok: p.ok,
                        pt: p.pt.insert(page as usize, leaf(frame, stored)),
                        frames: p.frames.after_alloc(),
                        taken: p.taken.push(frame),
                    },
                    page + 0x1000,
                    end,
                    stored,
                    limit,
                )
            } else {
                Populating { ok: false, frames: p.frames.after_alloc().dealloc(frame), ..p }
            },
        }
    }
}

/// What mapping `[start, start + size)` with new frames leads to: all pages
/// mapped, or the page table as it was and the frames given back.
pub open spec fn populated(
    pt: PtMap,
    frames: FrameState,
    start: usize,
    size: usize,
    stored: MappingFlags,
    limit: usize,
) -> (bool, PtMap, FrameState) {
    let t = populate(
        Populating { ok: true, pt, frames, taken: Seq::empty() },
        start as int,
        start + size,
        stored,
        limit,
    );
    if t.ok {
        (true, t.pt, t.frames)
    } else {
        (false, pt, t.frames.dealloc_all(t.taken))
    }
}

/// Pages from `start + from * 4096` on carry the frames of `taken`; everything
/// else is as in `pt0`.
spec fn partly(
    pt0: PtMap,
    pt: PtMap,
    start: usize,
    taken: Seq<usize>,
    from: int,
    stored: MappingFlags,
) -> bool {
    &&& forall|b: usize|
        start + from * 0x1000 <= b < start + taken.len() * 0x1000 && aligned_4k(b as int)
            ==> #[trigger] pt.contains_key(b) && pt[b] == leaf(
            taken[(b - start) / 0x1000],
            stored,
        ) && !pt0.contains_key(b)
    &&& forall|b: usize|
        !(start + from * 0x1000 <= b < start + taken.len() * 0x1000 && aligned_4k(b as int)) ==> (
        #[trigger] pt.contains_key(b) <==> pt0.contains_key(b)) && (pt.contains_key(b) ==> pt[b]
            == pt0[b])
}

/// The frames of `taken` are different, can be given up, and are not at hand
/// any more.
spec fn owned(taken: Seq<usize>, frames: FrameState) -> bool {
    &&& taken.no_duplicates()
    &&& forall|i: int|
        0 <= i < taken.len() ==> usable_frame(#[trigger] taken[i]) && frames.counts.releasable(
            taken[i],
        ) && !frames.available.contains(taken[i])
}

proof fn lemma_owned_after_alloc(taken: Seq<usize>, frames: FrameState)
    requires
        owned(taken, frames),
        frames.wf(),
        frames.available.len() > 0,
    ensures
        owned(taken, frames.after_alloc()),
        owned(taken.push(frames.available.last()), frames.after_alloc()),
        forall|i: int|
            0 <= i < taken.len() ==> frames.after_alloc().dealloc(
                frames.available.last(),
            ).counts.releasable(#[trigger] taken[i]),
        owned(taken, frames.after_alloc().dealloc(frames.available.last())),
{
    let f = frames.available.last();
    let after = frames.after_alloc();
    assert(frames.available[frames.available.len() - 1] == f);
    assert(usable_frame(f));
    if frames.counts.has(f) {
        assert(after.counts.has(f));
    }
    assert(after.counts.releasable(f));
    assert forall|i: int| 0 <= i < taken.len() implies usable_frame(#[trigger] taken[i])
        && after.counts.releasable(taken[i]) && !after.available.contains(taken[i])
        && after.dealloc(f).counts.releasable(taken[i]) by {
        assert(taken[i] != f) by {
            if taken[i] == f {
                assert(frames.available.contains(f));
            }
        }
        lemma_other_frame(frames.counts, f, taken[i]);
        lemma_other_frame(after.counts, f, taken[i]);
        if after.available.contains(taken[i]) {
            let j = choose|j: int| 0 <= j < after.available.len() && after.available[j] == taken[i];
            assert(frames.available[j] == taken[i]);
            assert(frames.available.contains(taken[i]));
        }
    }
    assert(!after.available.contains(f)) by {
        if after.available.contains(f) {
            let j = choose|j: int| 0 <= j < after.available.len() && after.available[j] == f;
            assert(frames.available[j] == f);
        }
    }
    assert(!taken.contains(f)) by {
        if taken.contains(f) {
            let j = choose|j: int| 0 <= j < taken.len() && taken[j] == f;
            assert(frames.available.contains(taken[j]));
        }
    }
    let more = taken.push(f);
    assert(more.no_duplicates()) by {
        assert forall|i: int, j: int| 0 <= i < more.len() && 0 <= j < more.len() && i != j implies more[i]
            != more[j] by {
            if i == taken.len() {
                assert(taken.contains(taken[j]));
            }
            if j == taken.len() {
                assert(taken.contains(taken[i]));
            }
        }
    }
}

impl Backend {
    /// Gives every page of `[start, start + size)` a new frame. Where that is
    /// not possible, everything is as before.
    #[verifier::rlimit(60)]
    fn map_alloc_populated(
        start: usize,
        size: usize,
        flags: MappingFlags,
        pt: &mut PageTable,
        frames: &mut Frames,
    ) -> (ok: bool)
        requires
            old(pt).wf(),
            old(frames).wf(),
            start + size <= usize::MAX,
            aligned_4k(start as int),
            aligned_4k(size as int),
        ensures
            final(pt).wf(),
            final(pt).same_kind(old(pt)),
            final(frames).wf(),
            final(frames).room() >= old(frames).room(),
            (ok, final(pt)@, final(frames)@) == populated(
                old(pt)@,
                old(frames)@,
                start,
                size,
                old(pt).stored(flags),
                old(pt).limit(),
            ),
    {
        let end: usize = start + size;
        let ghost stored = pt.stored(flags);
        let ghost p0 = Populating { ok: true, pt: pt@, frames: frames@, taken: Seq::empty() };
        let mut taken: Vec<usize> = Vec::new();
        let mut page: usize = start;
        while page < end
            invariant
                end == start + size,
                page == start + taken@.len() * 0x1000,
                page <= end,
                aligned_4k(page as int),
                aligned_4k(end as int),
                aligned_4k(start as int),
                pt.wf(),
                pt.same_kind(old(pt)),
                frames.wf(),
                frames.room() >= old(frames).room(),
                stored == old(pt).stored(flags),
                p0 == (Populating {
                    ok: true,
                    pt: old(pt)@,
                    frames: old(frames)@,
                    taken: Seq::empty(),
                }),
                partly(old(pt)@, pt@, start, taken@, 0, stored),
                owned(taken@, frames@),
                populate(p0, start as int, end as int, stored, old(pt).limit()) == populate(
                    Populating { ok: true, pt: pt@, frames: frames@, taken: taken@ },
                    page as int,
                    end as int,
                    stored,
                    old(pt).limit(),
                ),
            decreases end - page,
        {
            let ghost before = frames@;
            proof {
                frames.lemma_wf();
                if before.available.len() > 0 {
                    lemma_owned_after_alloc(taken@, before);
                }
            }
            let frame: usize = match frames.alloc_frame() {
                Some(frame) => frame,
                None => {
                    Self::unwind_populate(
                        start,
                        &taken,
                        pt,
                        frames,
                        Ghost(old(pt)@),
                        Ghost(stored),
                    );
                    return false;
                },
            };
            assert(base_of(frame, PageSize::Size4K) == frame);
            let ghost pt_before = pt@;
            if map_page(pt, page, frame, flags) {
                proof {
                    lemma_free_page_has_no_entry(pt_before, page);
                    lemma_partly_grows(old(pt)@, pt_before, start, taken@, frame, page, stored);
                }
                taken.push(frame);
            } else {
                frames.dealloc_frame(frame);
                Self::unwind_populate(start, &taken, pt, frames, Ghost(old(pt)@), Ghost(stored));
                return false;
            }
            page = page + PAGE_SIZE_4K;
        }
        true
    }

    /// Takes the pages out again that were given frames and gives these back.
    fn unwind_populate(
        start: usize,
        taken: &Vec<usize>,
        pt: &mut PageTable,
        frames: &mut Frames,
        Ghost(pt0): Ghost<PtMap>,
        Ghost(stored): Ghost<MappingFlags>,
    )
        requires
            old(pt).wf(),
            old(frames).wf(),
            aligned_4k(start as int),
            start + taken@.len() * 0x1000 <= usize::MAX,
            partly(pt0, old(pt)@, start, taken@, 0, stored),
            owned(taken@, old(frames)@),
        ensures
            final(pt).wf(),
            final(pt).same_kind(old(pt)),
            final(pt)@ == pt0,
            final(frames).wf(),
            final(frames).room() >= old(frames).room(),
            final(frames)@ == old(frames)@.dealloc_all(taken@),
    {
        let mut i: usize = 0;
        while i < taken.len()
            invariant
                i <= taken@.len(),
                aligned_4k(start as int),
                start + taken@.len() * 0x1000 <= usize::MAX,
                pt.wf(),
                pt.same_kind(old(pt)),
                partly(pt0, pt@, start, taken@, i as int, stored),
            decreases taken@.len() - i,
        {
            let page: usize = start + i * PAGE_SIZE_4K;
            proof {
                assert(aligned_4k(page as int));
                assert(pt@.contains_key(page));
                assert((page - start) / 0x1000 == i);
                lemma_small_key(pt@, page);
                lemma_partly_shrinks(pt0, pt@, start, taken@, i as int, page, stored);
            }
            let _ = pt.unmap(page);
            i = i + 1;
        }
        assert(pt@ =~= pt0);
        proof {
            lemma_distinct_releasable(frames@, taken@);
        }
        frames.dealloc_frames(taken);
    }

    /// Enters a mapping of `[start, start + size)`.
    pub fn map(
        &self,
        start: usize,
        size: usize,
        flags: MappingFlags,
        pt: &mut PageTable,
        frames: &mut Frames,
    ) -> (ok: bool)
        requires
            old(pt).wf(),
            old(frames).wf(),
            start + size <= usize::MAX,
            aligned_4k(start as int),
            aligned_4k(size as int),
        ensures
            final(pt).wf(),
            final(pt).same_kind(old(pt)),
            final(frames).wf(),
            final(frames).room() >= old(frames).room(),
            (ok, final(pt)@, final(frames)@) == mapped(
                *self,
                old(pt)@,
                old(frames)@,
                start,
                size,
                flags,
                old(pt).stored(flags),
                old(pt).limit(),
            ),
    {
        reveal(mapped);
        match self {
            Backend::Shared { frame_paddr, .. } => {
                if !frames_exist(*frame_paddr, size) {
                    return false;
                }
                enter_region(start, *frame_paddr, size, flags, true, pt)
            },
            Backend::Linear { pa_va_offset } => {
                let paddr: usize = start.wrapping_sub(*pa_va_offset);
                if !frames_exist(paddr, size) {
                    return false;
                }
                enter_region(start, paddr, size, flags, false, pt)
            },
            Backend::Alloc { populate, .. } => {
                if *populate {
                    Self::map_alloc_populated(start, size, flags, pt, frames)
                } else {
                    true
                }
            },
            Backend::File(mapping) => mapping.permits(flags),
            Backend::Cow(_) => true,
        }
    }
}

/// Whether `size` bytes from `paddr` on end within the address range.
pub open spec fn spec_frames_exist(paddr: usize, size: usize) -> bool {
    paddr + size <= usize::MAX
}

fn frames_exist(paddr: usize, size: usize) -> (r: bool)
    ensures
        r == spec_frames_exist(paddr, size),
{
    paddr.checked_add(size).is_some()
}

/// What entering a mapping of `backend` leads to.
#[verifier::opaque]
pub open spec fn mapped(
    backend: Backend,
    pt: PtMap,
    frames: FrameState,
    start: usize,
    size: usize,
    flags: MappingFlags,
    stored: MappingFlags,
    limit: usize,
) -> (bool, PtMap, FrameState) {
    match backend {
        Backend::Shared { frame_paddr, .. } => if !spec_frames_exist(frame_paddr, size) {
            (false, pt, frames)
        } else {
            let t = map_region(
                pt,
                start as int,
                frame_paddr as int,
                size as int,
                stored,
                limit,
                true,
            );
            (t.0, t.1, frames)
        },
        Backend::Linear { pa_va_offset } => if !spec_frames_exist(
            start.wrapping_sub(pa_va_offset),
            size,
        ) {
            (false, pt, frames)
        } else {
            let t = map_region(
                pt,
                start as int,
                start.wrapping_sub(pa_va_offset) as int,
                size as int,
                stored,
                limit,
                false,
            );
            (t.0, t.1, frames)
        },
        Backend::Alloc { populate, .. } => if populate {
            populated(pt, frames, start, size, stored, limit)
        } else {
            (true, pt, frames)
        },
        Backend::File(mapping) => (mapping.spec_permits(flags), pt, frames),
        Backend::Cow(_) => (true, pt, frames),
    }
}

/// Only anonymous memory takes frames when it is mapped.
pub proof fn lemma_mapping_takes_no_frames(
    backend: Backend,
    pt: PtMap,
    frames: FrameState,
    start: usize,
    size: usize,
    flags: MappingFlags,
    stored: MappingFlags,
    limit: usize,
)
    requires
        !(backend is Alloc),
    ensures
        mapped(backend, pt, frames, start, size, flags, stored, limit).2 == frames,
{
    reveal(mapped);
}

proof fn lemma_partly_grows(
    pt0: PtMap,
    pt: PtMap,
    start: usize,
    taken: Seq<usize>,
    frame: usize,
    page: usize,
    stored: MappingFlags,
)
    requires
        partly(pt0, pt, start, taken, 0, stored),
        aligned_4k(start as int),
        page == start + taken.len() * 0x1000,
        !pt.contains_key(page),
    ensures
        partly(pt0, pt.insert(page, leaf(frame, stored)), start, taken.push(frame), 0, stored),
{
    let pt2 = pt.insert(page, leaf(frame, stored));
    let more = taken.push(frame);
    assert forall|b: usize|
        start <= b < start + more.len() * 0x1000 && aligned_4k(b as int) implies #[trigger] pt2.contains_key(b)
        && pt2[b] == leaf(more[(b - start) / 0x1000], stored) && !pt0.contains_key(b) by {
        if b >= page {
            assert(b == page);
            assert((b - start) / 0x1000 == taken.len());
            assert(!pt.contains_key(b));
        } else {
            assert(pt.contains_key(b));
            assert(0 <= (b - start) / 0x1000 < taken.len());
        }
    }
    assert forall|b: usize|
        !(start <= b < start + more.len() * 0x1000 && aligned_4k(b as int)) implies (
    #[trigger] pt2.contains_key(b) <==> pt0.contains_key(b)) && (pt2.contains_key(b) ==> pt2[b]
        == pt0[b]) by {
        assert(b != page);
        assert(pt.contains_key(b) <==> pt0.contains_key(b));
    }
}

proof fn lemma_partly_shrinks(
    pt0: PtMap,
    pt: PtMap,
    start: usize,
    taken: Seq<usize>,
    i: int,
    page: usize,
    stored: MappingFlags,
)
    requires
        partly(pt0, pt, start, taken, i, stored),
        aligned_4k(start as int),
        0 <= i < taken.len(),
        page == start + i * 0x1000,
    ensures
        partly(pt0, pt.remove(page), start, taken, i + 1, stored),
{
    let pt2 = pt.remove(page);
    assert(pt.contains_key(page));
    assert forall|b: usize|
        start + (i + 1) * 0x1000 <= b < start + taken.len() * 0x1000 && aligned_4k(
            b as int,
        ) implies #[trigger] pt2.contains_key(b) && pt2[b] == leaf(
        taken[(b - start) / 0x1000],
        stored,
    ) && !pt0.contains_key(b) by {
        assert(pt.contains_key(b));
    }
    assert forall|b: usize|
        !(start + (i + 1) * 0x1000 <= b < start + taken.len() * 0x1000 && aligned_4k(
            b as int,
        )) implies (#[trigger] pt2.contains_key(b) <==> pt0.contains_key(b)) && (pt2.contains_key(b)
        ==> pt2[b] == pt0[b]) by {
        if b != page {
            assert(pt.contains_key(b) <==> pt0.contains_key(b)) by {
                if start + i * 0x1000 <= b < start + taken.len() * 0x1000 && aligned_4k(b as int) {
                    assert(b == page);
                }
            }
        }
    }
}

/// One step of mapping a region: the page fits in the range, and nothing
/// outside of it changes.
proof fn lemma_region_step(
    pt: PtMap,
    va: int,
    pa: int,
    left: int,
    stored: MappingFlags,
    allow_huge: bool,
    q: usize,
)
    requires
        pt_wf(pt),
        aligned_4k(va),
        aligned_4k(pa),
        aligned_4k(left),
        left > 0,
        0 <= va,
        0 <= pa,
        va + left <= usize::MAX,
        pa + left <= usize::MAX,
        range_free(
            pt,
            va as usize,
            region_page(va as usize, pa as usize, left, allow_huge).spec_bytes() as int,
        ),
    ensures
        ({
            let size = region_page(va as usize, pa as usize, left, allow_huge);
            let bytes = size.spec_bytes();
            let e = Pte { frame: base_of(pa as usize, size), flags: stored, size };
            let pt2 = pt.insert(va as usize, e);
            &&& bytes <= left
            &&& e.frame == pa
            &&& aligned_4k(va + bytes)
            &&& aligned_4k(pa + bytes)
            &&& aligned_4k(left - bytes)
            &&& pt_wf(pt2)
            &&& va <= q < va + bytes ==> pte_at(pt2, q) == Some(e) && offset_in(q, size) == q - va
            &&& !(va <= q < va + bytes) ==> pte_at(pt2, q) == pte_at(pt, q) && lookup(pt2, q)
                == lookup(pt, q)
        }),
{
    let size = region_page(va as usize, pa as usize, left, allow_huge);
    let e = Pte { frame: base_of(pa as usize, size), flags: stored, size };
    assert(offset_in(va as usize, size) == 0);
    assert(offset_in(pa as usize, size) == 0);
    lemma_entry_in_free_range(pt, va as usize, e, q);
    match size {
        PageSize::Size4K => {},
        PageSize::Size2M => {},
        PageSize::Size1G => {},
    }
}

/// A region that was mapped is translated byte for byte, and everything else
/// is as it was, whether or not all of it could be mapped.
proof fn lemma_region(
    pt: PtMap,
    va: int,
    pa: int,
    left: int,
    stored: MappingFlags,
    limit: usize,
    allow_huge: bool,
    q: usize,
)
    requires
        pt_wf(pt),
        aligned_4k(va),
        aligned_4k(pa),
        aligned_4k(left),
        left >= 0,
        0 <= va,
        0 <= pa,
        va + left <= usize::MAX,
        pa + left <= usize::MAX,
    ensures
        ({
            let t = map_region(pt, va, pa, left, stored, limit, allow_huge);
            &&& pt_wf(t.1)
            &&& !(va <= q < va + left) ==> pte_at(t.1, q) == pte_at(pt, q) && lookup(t.1, q)
                == lookup(pt, q)
            &&& t.0 && va <= q < va + left ==> {
                &&& pte_at(t.1, q) matches Some(e)
                &&& e.flags == stored
                &&& e.frame + offset_in(q, e.size) == pa + (q - va)
            }
        }),
    decreases left,
{
    if left > 0 {
        let size = region_page(va as usize, pa as usize, left, allow_huge);
        let bytes = size.spec_bytes();
        if bytes <= left && range_free(pt, va as usize, bytes as int) && pt.len() < limit {
            lemma_region_step(pt, va, pa, left, stored, allow_huge, q);
            let pt2 = pt.insert(
                va as usize,
                Pte { frame: base_of(pa as usize, size), flags: stored, size },
            );
            lemma_region(
                pt2,
                va + bytes,
                pa + bytes,
                left - bytes,
                stored,
                limit,
                allow_huge,
                q,
            );
        }
    }
}

/// Pages that get new frames are translated to them; everything else is as it
/// was.
proof fn lemma_populate(
    p: Populating,
    page: int,
    end: int,
    stored: MappingFlags,
    limit: usize,
    q: usize,
)
    requires
        pt_wf(p.pt),
        p.frames.wf(),
        aligned_4k(page),
        aligned_4k(end),
        0 <= page <= end,
        end <= usize::MAX,
        aligned_4k(q as int),
    ensures
        ({
            let t = populate(p, page, end, stored, limit);
            &&& pt_wf(t.pt)
            &&& !(page <= q < end) ==> pte_at(t.pt, q) == pte_at(p.pt, q) && lookup(t.pt, q)
                == lookup(p.pt, q)
            &&& t.ok && page <= q < end ==> {
                &&& pte_at(t.pt, q) matches Some(e)
                &&& e == leaf(e.frame, stored)
                &&& usable_frame(e.frame)
                &&& p.frames.available.contains(e.frame)
                &&& !t.frames.available.contains(e.frame)
            }
            &&& forall|f: usize| #[trigger]
                t.frames.available.contains(f) ==> p.frames.available.contains(f)
        }),
    decreases end - page,
{
    if page < end && p.frames.available.len() > 0 {
        let frame = p.frames.available.last();
        let rest = p.frames.available.drop_last();
        assert(p.frames.available[p.frames.available.len() - 1] == frame);
        assert forall|f: usize| #[trigger] rest.contains(f) implies p.frames.available.contains(f)
            && f != frame by {
            let i = choose|i: int| 0 <= i < rest.len() && rest[i] == f;
            assert(p.frames.available[i] == f);
        }
        if lookup(p.pt, page as usize) is None && p.pt.len() < limit {
            let e = leaf(frame, stored);
            assert(range_free(p.pt, page as usize, 0x1000)) by {
                assert forall|x: usize|
                    page <= x < page + 0x1000 && aligned_4k(x as int) implies #[trigger] lookup(
                    p.pt,
                    x,
                ) is None by {
                    assert(x == page);
                }
            }
            lemma_entry_in_free_range(p.pt, page as usize, e, q);
            let next = Populating {
                ok: p.ok,
                pt: p.pt.insert(page as usize, e),
                frames: p.frames.after_alloc(),
                taken: p.taken.push(frame),
            };
            assert(next.frames.wf()) by {
                assert forall|i: int| 0 <= i < next.frames.available.len() implies usable_frame(
                    #[trigger] next.frames.available[i],
                ) by {
                    assert(next.frames.available[i] == p.frames.available[i]);
                }
            }
            lemma_populate(next, page + 0x1000, end, stored, limit, q);
        }
    }
}

/// Mapping a region changes nothing outside of it.
proof fn lemma_region_elsewhere(
    pt: PtMap,
    va: int,
    pa: int,
    left: int,
    stored: MappingFlags,
    limit: usize,
    allow_huge: bool,
    q: usize,
)
    requires
        pt_wf(pt),
        aligned_4k(va),
        aligned_4k(left),
        left >= 0,
        0 <= va,
        0 <= pa,
        va + left <= usize::MAX,
        pa + left <= usize::MAX,
    ensures
        ({
            let t = map_region(pt, va, pa, left, stored, limit, allow_huge);
            &&& pt_wf(t.1)
            &&& !(va <= q < va + left) ==> pte_at(t.1, q) == pte_at(pt, q) && lookup(t.1, q)
                == lookup(pt, q)
        }),
    decreases left,
{
    if left > 0 {
        let size = region_page(va as usize, pa as usize, left, allow_huge);
        let bytes = size.spec_bytes();
        if bytes <= left && range_free(pt, va as usize, bytes as int) && pt.len() < limit {
            let e = Pte { frame: base_of(pa as usize, size), flags: stored, size };
            assert(offset_in(va as usize, size) == 0);
            assert(base_of(pa as usize, size) <= pa);
            lemma_entry_in_free_range(pt, va as usize, e, q);
            super::paging::lemma_size_multiple_of_4k(va as usize, size);
            lemma_region_elsewhere(
                pt.insert(va as usize, e),
                va + bytes,
                pa + bytes,
                left - bytes,
                stored,
                limit,
                allow_huge,
                q,
            );
        }
    }
}

/// A mapping that takes no frames keeps the table well formed and everything
/// outside of its range.
pub(crate) proof fn lemma_mapping_elsewhere(
    backend: Backend,
    pt: PtMap,
    frames: FrameState,
    start: usize,
    size: usize,
    flags: MappingFlags,
    stored: MappingFlags,
    limit: usize,
    q: usize,
)
    requires
        pt_wf(pt),
        aligned_4k(start as int),
        aligned_4k(size as int),
        start + size <= usize::MAX,
        !(backend matches Backend::Alloc { populate, .. } && populate),
    ensures
        ({
            let t = mapped(backend, pt, frames, start, size, flags, stored, limit);
            &&& pt_wf(t.1)
            &&& t.2 == frames
            &&& !(backend is Shared) && !(backend is Linear) ==> t.1 == pt
            &&& !(start <= q < start + size) ==> pte_at(t.1, q) == pte_at(pt, q) && lookup(t.1, q)
                == lookup(pt, q)
        }),
{
    reveal(mapped);
    match backend {
        Backend::Shared { frame_paddr, .. } => {
            if spec_frames_exist(frame_paddr, size) {
                lemma_region_elsewhere(
                    pt,
                    start as int,
                    frame_paddr as int,
                    size as int,
                    stored,
                    limit,
                    true,
                    q,
                );
            }
        },
        Backend::Linear { pa_va_offset } => {
            let pa = start.wrapping_sub(pa_va_offset);
            if spec_frames_exist(pa, size) {
                lemma_region_elsewhere(
                    pt,
                    start as int,
                    pa as int,
                    size as int,
                    stored,
                    limit,
                    false,
                    q,
                );
            }
        },
        _ => {},
    }
}

/// Entering a mapping changes nothing outside of its range.
pub proof fn lemma_mapping_stays_in_its_range(
    backend: Backend,
    pt: PtMap,
    frames: FrameState,
    start: usize,
    size: usize,
    flags: MappingFlags,
    stored: MappingFlags,
    limit: usize,
    q: usize,
)
    requires
        pt_wf(pt),
        frames.wf(),
        aligned_4k(start as int),
        aligned_4k(size as int),
        start + size <= usize::MAX,
        backend matches Backend::Shared { frame_paddr, .. } ==> aligned_4k(frame_paddr as int),
        backend matches Backend::Linear { pa_va_offset } ==> aligned_4k(
            start.wrapping_sub(pa_va_offset) as int,
        ),
        aligned_4k(q as int),
        !(start <= q < start + size),
    ensures
        ({
            let t = mapped(backend, pt, frames, start, size, flags, stored, limit);
            pte_at(t.1, q) == pte_at(pt, q) && lookup(t.1, q) == lookup(pt, q)
        }),
{
    reveal(mapped);
    match backend {
        Backend::Shared { frame_paddr, .. } => {
            if spec_frames_exist(frame_paddr, size) {
                lemma_region(
                    pt,
                    start as int,
                    frame_paddr as int,
                    size as int,
                    stored,
                    limit,
                    true,
                    q,
                );
            }
        },
        Backend::Linear { pa_va_offset } => {
            let pa = start.wrapping_sub(pa_va_offset);
            if spec_frames_exist(pa, size) {
                lemma_region(pt, start as int, pa as int, size as int, stored, limit, false, q);
            }
        },
        Backend::Alloc { populate, .. } => {
            if populate {
                lemma_populate(
                    Populating { ok: true, pt, frames, taken: Seq::empty() },
                    start as int,
                    start + size,
                    stored,
                    limit,
                    q,
                );
            }
        },
        _ => {},
    }
}

/// A linear mapping that was entered translates every address of its range to
/// the address at the mapping's distance, with the flags that were asked for.
pub proof fn lemma_linear_mapping_translates(
    pa_va_offset: usize,
    pt: PtMap,
    frames: FrameState,
    start: usize,
    size: usize,
    flags: MappingFlags,
    stored: MappingFlags,
    limit: usize,
    q: usize,
)
    requires
        pt_wf(pt),
        aligned_4k(start as int),
        aligned_4k(size as int),
        start + size <= usize::MAX,
        aligned_4k(start.wrapping_sub(pa_va_offset) as int),
        start <= q < start + size,
        mapped(
            Backend::Linear { pa_va_offset },
            pt,
            frames,
            start,
            size,
            flags,
            stored,
            limit,
        ).0,
    ensures
        ({
            let t = mapped(
                Backend::Linear { pa_va_offset },
                pt,
                frames,
                start,
                size,
                flags,
                stored,
                limit,
            );
            &&& pte_at(t.1, q) matches Some(e)
            &&& e.flags == stored
            &&& e.frame + offset_in(q, e.size) == q.wrapping_sub(pa_va_offset)
        }),
{
    reveal(mapped);
    let pa = start.wrapping_sub(pa_va_offset);
    lemma_region(pt, start as int, pa as int, size as int, stored, limit, false, q);
}

/// Anonymous memory that is filled at once has a frame of its own, one that
/// holds zeroes, at every page.
pub proof fn lemma_filled_memory_is_resident(
    grows_down: bool,
    pt: PtMap,
    frames: FrameState,
    start: usize,
    size: usize,
    flags: MappingFlags,
    stored: MappingFlags,
    limit: usize,
    q: usize,
)
    requires
        pt_wf(pt),
        frames.wf(),
        aligned_4k(start as int),
        aligned_4k(size as int),
        start + size <= usize::MAX,
        aligned_4k(q as int),
        start <= q < start + size,
        mapped(
            Backend::Alloc { populate: true, grows_down },
            pt,
            frames,
            start,
            size,
            flags,
            stored,
            limit,
        ).0,
    ensures
        ({
            let t = mapped(
                Backend::Alloc { populate: true, grows_down },
                pt,
                frames,
                start,
                size,
                flags,
                stored,
                limit,
            );
            &&& pte_at(t.1, q) matches Some(e)
            &&& e == leaf(e.frame, stored)
            &&& usable_frame(e.frame)
            &&& fresh_frames(frames, t.2, None).contains(e.frame)
        }),
{
    reveal(mapped);
    lemma_populate(
        Populating { ok: true, pt, frames, taken: Seq::empty() },
        start as int,
        start + size,
        stored,
        limit,
        q,
    );
}

} // verus!
