//! Page faults on anonymous memory.
use vstd::prelude::*;

use crate::error::{AxError, AxResult};

use super::backend::Backend;
use super::file_fault::map_page;
use super::flags::{spec_effective_pte_flags, MappingFlags};
use super::frame_table::{
    lemma_distinct_releasable, lemma_other_frame, usable_frame, FrameState, Frames,
};
use super::paging::{
    align_down_4k, aligned_4k, base_of, leaf, lookup, page_of, pte_at, repointable, resident,
    PageSize, PageTable, Pte, PtMap, PAGE_SIZE_4K,
};
use super::protect::repointed;

verus! {

/// How many pages one fault on anonymous memory brings in.
pub const MAX_FAULT_BATCH_PAGES: usize = 4;

/// A request for frames for some pages in a row.
#[derive(Clone, Copy, Debug, PartialEq, Eq, Structural)]
pub struct AnonPageLoad {
    pub page: usize,
    pub page_count: usize,
}

/// Frames that wait to be mapped at pages in a row.
pub struct AnonPagePrepared {
    page: usize,
    frames: Vec<usize>,
    mapped: Vec<bool>,
}

/// What [`AnonPagePrepared`] holds.
pub ghost struct AnonPages {
    pub page: usize,
    pub frames: Seq<usize>,
    /// Which frames a page table took over.
    pub mapped: Seq<bool>,
}

impl AnonPages {
    /// The frames that were not taken over.
    pub open spec fn left_over(self) -> Seq<usize> {
        anon_left_over(self.frames, self.mapped)
    }

    pub open spec fn wf(self) -> bool {
        &&& self.frames.len() == self.mapped.len()
        &&& self.frames.len() <= 4
        &&& forall|i: int| 0 <= i < self.frames.len() ==> usable_frame(#[trigger] self.frames[i])
    }
}

pub open spec fn anon_left_over(frames: Seq<usize>, mapped: Seq<bool>) -> Seq<usize>
    decreases frames.len(),
{
    if frames.len() == 0 {
        Seq::empty()
    } else {
        let before = anon_left_over(frames.drop_last(), mapped);
        if mapped[frames.len() - 1] {
            before
        } else {
            before.push(frames.last())
        }
    }
}

impl FrameState {
    /// The state after `n` allocations.
    pub open spec fn after_allocs(self, n: nat) -> Self
        decreases n,
    {
        if n == 0 {
            self
        } else {
            self.after_allocs((n - 1) as nat).after_alloc()
        }
    }

    /// The frames that the next `n` allocations give.
    pub open spec fn next_frames(self, n: nat) -> Seq<usize> {
        Seq::new(n, |i: int| self.available[self.available.len() - 1 - i])
    }
}

pub(crate) proof fn lemma_after_allocs(s: FrameState, n: nat)
    requires
        n <= s.available.len(),
        s.wf(),
    ensures
        s.after_allocs(n).available == s.available.take(s.available.len() - n),
        s.after_allocs(n).released == s.released,
        s.next_frames(n).no_duplicates(),
        forall|i: int|
            0 <= i < n ==> usable_frame(#[trigger] s.next_frames(n)[i]) && s.after_allocs(
                n,
            ).counts.releasable(s.next_frames(n)[i]),
    decreases n,
{
    if n > 0 {
        let m = (n - 1) as nat;
        lemma_after_allocs(s, m);
        let t = s.after_allocs(m);
        let f = t.available.last();
        assert(f == s.available[s.available.len() - n]);
        assert(s.after_allocs(n).available =~= s.available.take(s.available.len() - n));
        assert forall|i: int| 0 <= i < n implies usable_frame(#[trigger] s.next_frames(n)[i])
            && s.after_allocs(n).counts.releasable(s.next_frames(n)[i]) by {
            let g = s.next_frames(n)[i];
            assert(g == s.available[s.available.len() - 1 - i]);
            if i < m {
                assert(s.next_frames(m)[i] == g);
                assert(g != f);
                lemma_other_frame(t.counts, f, g);
            }
        }
    } else {
        assert(s.available.take(s.available.len() as int) =~= s.available);
    }
}

impl AnonPageLoad {
    /// Takes frames for the pages, at least one and as many as there are.
    pub fn prepare(self, frames: &mut Frames) -> (r: AxResult<AnonPagePrepared>)
        requires
            old(frames).wf(),
        ensures
            final(frames).wf(),
            final(frames).room() >= old(frames).room(),
            ({
                let n = if self.page_count < old(frames)@.available.len() {
                    self.page_count as nat
                } else {
                    old(frames)@.available.len()
                };
                if self.page_count == 0 || self.page_count > MAX_FAULT_BATCH_PAGES || n == 0 {
                    &&& r == Err::<AnonPagePrepared, AxError>(AxError::NoMemory)
                    &&& final(frames)@ == old(frames)@
                } else {
                    &&& r matches Ok(p) && p.wf() && p@ == (AnonPages {
                        page: self.page,
                        frames: old(frames)@.next_frames(n),
                        mapped: Seq::new(n, |i: int| false),
                    })
                    &&& final(frames)@ == old(frames)@.after_allocs(n)
                }
            }),
    {
        if self.page_count == 0 || self.page_count > MAX_FAULT_BATCH_PAGES {
            return Err(AxError::NoMemory);
        }
        let mut taken: Vec<usize> = Vec::new();
        let mut mapped: Vec<bool> = Vec::new();
        while taken.len() < self.page_count
            invariant
                taken@.len() <= self.page_count,
                self.page_count <= 4,
                taken@.len() == mapped@.len(),
                taken@.len() <= old(frames)@.available.len(),
                old(frames).wf(),
                frames.wf(),
                frames.room() >= old(frames).room(),
                frames@ == old(frames)@.after_allocs(taken@.len()),
                taken@ == old(frames)@.next_frames(taken@.len()),
                forall|i: int| 0 <= i < mapped@.len() ==> !mapped@[i],
            ensures
                taken@.len() <= self.page_count,
                taken@.len() == mapped@.len(),
                frames.wf(),
                frames.room() >= old(frames).room(),
                frames@ == old(frames)@.after_allocs(taken@.len()),
                taken@ == old(frames)@.next_frames(taken@.len()),
                forall|i: int| 0 <= i < mapped@.len() ==> !mapped@[i],
                taken@.len() == if self.page_count < old(frames)@.available.len() {
                    self.page_count as nat
                } else {
                    old(frames)@.available.len()
                },
            decreases self.page_count - taken@.len(),
        {
            let ghost before = taken@;
            proof {
                old(frames).lemma_wf();
                lemma_after_allocs(old(frames)@, taken@.len());
            }
            match frames.alloc_frame() {
                None => {
                    break;
                },
                Some(frame) => {
                    taken.push(frame);
                    mapped.push(false);
                    assert(taken@ =~= old(frames)@.next_frames(taken@.len()));
                },
            }
        }
        proof {
            old(frames).lemma_wf();
            lemma_after_allocs(old(frames)@, taken@.len());
        }
        if taken.len() == 0 {
            return Err(AxError::NoMemory);
        }
        assert(mapped@ =~= Seq::new(taken@.len(), |i: int| false));
        Ok(AnonPagePrepared { page: self.page, frames: taken, mapped })
    }
}

/// What has happened while frames are mapped at pages in a row.
pub ghost struct AnonInstall {
    pub pt: PtMap,
    pub mapped: Seq<bool>,
    pub handled: bool,
    pub flushed: Seq<usize>,
    /// Whether to go on with the next page.
    pub going: bool,
}

/// Maps the `i`-th frame unless the area ends before its page.
pub open spec fn anon_install_one(
    a: AnonInstall,
    p: AnonPages,
    i: int,
    area_end: usize,
    stored: MappingFlags,
    limit: usize,
) -> AnonInstall {
    let at = p.page + i * 0x1000;
    let page = at as usize;
    if at >= area_end {
        AnonInstall { going: false, ..a }
    } else if resident(a.pt, page) {
        AnonInstall { handled: a.handled || i == 0, ..a }
    } else {
        let pt = match lookup(a.pt, page) {
            Some(b) => Some(
                a.pt.insert(b, Pte { frame: p.frames[i], flags: stored, size: a.pt[b].size }),
            ),
            None => if a.pt.len() < limit {
                Some(a.pt.insert(page, leaf(p.frames[i], stored)))
            } else {
                None
            },
        };
        match pt {
            Some(pt) => AnonInstall {
                pt,
                mapped: a.mapped.update(i, true),
                handled: true,
                flushed: a.flushed.push(page),
                going: true,
            },
            None => AnonInstall { going: false, ..a },
        }
    }
}

/// Maps the frames from the `i`-th on.
pub open spec fn anon_install(
    a: AnonInstall,
    p: AnonPages,
    i: int,
    area_end: usize,
    stored: MappingFlags,
    limit: usize,
) -> AnonInstall
    decreases p.frames.len() - i,
{
    if i >= p.frames.len() || !a.going {
        a
    } else {
        anon_install(
            anon_install_one(a, p, i, area_end, stored, limit),
            p,
            i + 1,
            area_end,
            stored,
            limit,
        )
    }
}

/// What mapping the frames of `p` leads to.
pub open spec fn anon_installed(
    p: AnonPages,
    pt: PtMap,
    page: usize,
    area_end: usize,
    stored: MappingFlags,
    limit: usize,
) -> AnonInstall {
    let start = AnonInstall {
        pt,
        mapped: p.mapped,
        handled: false,
        flushed: Seq::empty(),
        going: true,
    };
    if p.page == page {
        anon_install(start, p, 0, area_end, stored, limit)
    } else {
        start
    }
}

/// What a fault on anonymous memory led to.
pub struct AnonFault {
    /// Whether the access can be tried again.
    pub handled: bool,
    /// Pages whose old translation has to be dropped on this CPU.
    pub flushed: Vec<usize>,
}

impl AnonPagePrepared {
    pub closed spec fn view(&self) -> AnonPages {
        AnonPages { page: self.page, frames: self.frames@, mapped: self.mapped@ }
    }

    pub open spec fn wf(&self) -> bool {
        self@.wf()
    }

    /// Gives up the frames that no page table took over.
    pub fn release(self, frames: &mut Frames)
        requires
            self.wf(),
            old(frames).wf(),
            old(frames)@.releasable(self@.left_over()),
        ensures
            final(frames).wf(),
            final(frames).room() >= old(frames).room(),
            final(frames)@ == old(frames)@.dealloc_all(self@.left_over()),
    {
        let mut left: Vec<usize> = Vec::new();
        let mut i: usize = 0;
        while i < self.frames.len()
            invariant
                i <= self.frames@.len(),
                self.frames@.len() == self.mapped@.len(),
                left@ == anon_left_over(self.frames@.take(i as int), self.mapped@),
            decreases self.frames@.len() - i,
        {
            assert(self.frames@.take((i + 1) as int).drop_last() =~= self.frames@.take(i as int));
            if !self.mapped[i] {
                left.push(self.frames[i]);
            }
            i = i + 1;
        }
        assert(self.frames@.take(i as int) =~= self.frames@);
        frames.dealloc_frames(&left);
    }
}

/// How many pages in a row from `page` on, counting from the `k`-th, have no
/// frame yet: at most four, and none behind the area.
pub open spec fn unbacked_run(pt: PtMap, page: usize, area_end: usize, k: nat) -> nat
    decreases 4 - k,
{
    if k >= 4 || page + k * 0x1000 >= area_end || resident(pt, (page + k * 0x1000) as usize) {
        k
    } else {
        unbacked_run(pt, page, area_end, (k + 1) as nat)
    }
}

/// The frames that a fault at `vaddr` asks for.
pub open spec fn spec_alloc_request(
    backend: Backend,
    vaddr: usize,
    area_end: usize,
    pt: PtMap,
) -> Option<AnonPageLoad> {
    let n = unbacked_run(pt, page_of(vaddr), area_end, 0);
    if backend.bottom() matches Backend::Alloc { populate, .. } && !populate && n > 0 {
        Some(AnonPageLoad { page: page_of(vaddr), page_count: n as usize })
    } else {
        None
    }
}

/// What a fault leads to that the frames at hand have to answer at once.
pub open spec fn spec_fault_alloc(
    pt: PtMap,
    frames: FrameState,
    page: usize,
    area_end: usize,
    orig: MappingFlags,
    write_implies_read: bool,
    limit: usize,
    populate: bool,
) -> (bool, Seq<usize>, PtMap, FrameState) {
    let n = unbacked_run(pt, page, area_end, 0);
    let none = Seq::<usize>::empty();
    let stored = spec_effective_pte_flags(orig, write_implies_read);
    if !populate && n > 0 {
        let k = if n < frames.available.len() {
            n
        } else {
            frames.available.len()
        };
        if k == 0 {
            (false, none, pt, frames)
        } else {
            let p = AnonPages {
                page,
                frames: frames.next_frames(k),
                mapped: Seq::new(k, |i: int| false),
            };
            let a = anon_installed(p, pt, page, area_end, stored, limit);
            (
                a.handled,
                a.flushed,
                a.pt,
                frames.after_allocs(k).dealloc_all(anon_left_over(p.frames, a.mapped)),
            )
        }
    } else {
        match pte_at(pt, page) {
            Some(e) => if e.flags == MappingFlags::spec_empty() || !resident(pt, page) {
                if populate {
                    (false, none, pt, frames)
                } else {
                    match frames.next() {
                        Some(f) => (
                            true,
                            seq![page],
                            pt.insert(
                                lookup(pt, page)->0,
                                Pte { frame: f, flags: stored, size: e.size },
                            ),
                            frames.after_alloc(),
                        ),
                        None => (false, none, pt, frames),
                    }
                }
            } else if e.flags.joined(orig) == e.flags {
                (true, none, pt, frames)
            } else {
                (
                    true,
                    none,
                    repointed(
                        pt,
                        page,
                        spec_effective_pte_flags(e.flags.joined(orig), write_implies_read),
                    ),
                    frames,
                )
            },
            None => match frames.next() {
                None => (false, none, pt, frames),
                Some(f) => if pt.len() < limit {
                    (
                        true,
                        seq![page],
                        pt.insert(page, leaf(f, stored)),
                        frames.after_alloc(),
                    )
                } else {
                    (false, none, pt, frames.after_alloc().dealloc(f))
                },
            },
        }
    }
}

proof fn lemma_left_over_subset(frames: Seq<usize>, mapped: Seq<bool>, s: FrameState)
    requires
        frames.no_duplicates(),
        frames.len() <= mapped.len(),
        forall|i: int|
            0 <= i < frames.len() ==> (#[trigger] frames[i]) % 0x1000 == 0 && s.counts.releasable(
                frames[i],
            ),
    ensures
        anon_left_over(frames, mapped).no_duplicates(),
        forall|i: int|
            0 <= i < anon_left_over(frames, mapped).len() ==> frames.contains(
                #[trigger] anon_left_over(frames, mapped)[i],
            ) && anon_left_over(frames, mapped)[i] % 0x1000 == 0 && s.counts.releasable(
                anon_left_over(frames, mapped)[i],
            ),
    decreases frames.len(),
{
    if frames.len() > 0 {
        let rest = frames.drop_last();
        assert forall|i: int| 0 <= i < rest.len() implies (#[trigger] rest[i]) % 0x1000 == 0
            && s.counts.releasable(rest[i]) by {
            assert(rest[i] == frames[i]);
        }
        lemma_left_over_subset(rest, mapped, s);
        let before = anon_left_over(rest, mapped);
        let after = anon_left_over(frames, mapped);
        assert(frames[frames.len() - 1] == frames.last());
        assert forall|i: int| 0 <= i < after.len() implies frames.contains(#[trigger] after[i])
            && after[i] % 0x1000 == 0 && s.counts.releasable(after[i]) by {
            if i < before.len() {
                assert(after[i] == before[i]);
                assert(rest.contains(before[i]));
                let j = choose|j: int| 0 <= j < rest.len() && rest[j] == before[i];
                assert(frames[j] == after[i]);
            }
        }
        assert(after.no_duplicates()) by {
            assert forall|i: int, j: int|
                0 <= i < after.len() && 0 <= j < after.len() && i != j implies after[i]
                != after[j] by {
                if i == before.len() || j == before.len() {
                    let k = if i == before.len() {
                        j
                    } else {
                        i
                    };
                    assert(after[k] == before[k]);
                    assert(rest.contains(before[k]));
                    let l = choose|l: int| 0 <= l < rest.len() && rest[l] == before[k];
                    assert(frames[l] == before[k]);
                } else {
                    assert(after[i] == before[i] && after[j] == before[j]);
                }
            }
        }
    }
}

impl Backend {
    /// The frames that a fault at `vaddr` needs, if pages are missing that are
    /// brought in lazily.
    pub fn page_fault_alloc_request(&self, vaddr: usize, area_end: usize, pt: &PageTable) -> (r:
        Option<AnonPageLoad>)
        requires
            pt.wf(),
        ensures
            r == spec_alloc_request(*self, vaddr, area_end, pt@),
        decreases self,
    {
        match self {
            Backend::Alloc { populate, .. } => {
                if *populate {
                    return None;
                }
            },
            Backend::Cow(cow) => {
                return (&*cow.inner).page_fault_alloc_request(vaddr, area_end, pt);
            },
            _ => {
                return None;
            },
        }
        let page: usize = align_down_4k(vaddr);
        let mut page_count: usize = 0;
        while page_count < MAX_FAULT_BATCH_PAGES
            invariant
                pt.wf(),
                page_count <= 4,
                unbacked_run(pt@, page, area_end, 0) == unbacked_run(
                    pt@,
                    page,
                    area_end,
                    page_count as nat,
                ),
            ensures
                page_count as nat == unbacked_run(pt@, page, area_end, 0),
            decreases 4 - page_count,
        {
            let check_page: usize = match page.checked_add(page_count * PAGE_SIZE_4K) {
                Some(check_page) => check_page,
                None => {
                    break;
                },
            };
            if check_page >= area_end {
                break;
            }
            if let Some((frame, _, _)) = pt.query(check_page) {
                if frame != 0 {
                    break;
                }
            }
            page_count = page_count + 1;
        }
        if page_count == 0 {
            return None;
        }
        Some(AnonPageLoad { page, page_count })
    }

    /// Maps frames that were taken for a fault at `vaddr`.
    pub fn handle_prepared_page_fault_alloc(
        vaddr: usize,
        area_end: usize,
        orig_flags: MappingFlags,
        pt: &mut PageTable,
        prepared: &mut AnonPagePrepared,
    ) -> (r: AnonFault)
        requires
            old(pt).wf(),
            old(prepared).wf(),
        ensures
            final(pt).wf(),
            final(pt).same_kind(old(pt)),
            final(prepared).wf(),
            ({
                let a = anon_installed(
                    old(prepared)@,
                    old(pt)@,
                    page_of(vaddr),
                    area_end,
                    old(pt).stored(orig_flags),
                    old(pt).limit(),
                );
                &&& r.handled == a.handled
                &&& r.flushed@ == a.flushed
                &&& final(pt)@ == a.pt
                &&& final(prepared)@ == (AnonPages { mapped: a.mapped, ..old(prepared)@ })
            }),
    {
        let page: usize = align_down_4k(vaddr);
        if prepared.page != page {
            return AnonFault { handled: false, flushed: Vec::new() };
        }
        let ghost p = prepared@;
        let ghost stored = pt.stored(orig_flags);
        let ghost limit = pt.limit();
        let ghost start = AnonInstall {
            pt: pt@,
            mapped: p.mapped,
            handled: false,
            flushed: Seq::empty(),
            going: true,
        };
        let mut handled: bool = false;
        let mut flushed: Vec<usize> = Vec::new();
        let mut index: usize = 0;
        let mut going: bool = true;
        while index < prepared.frames.len() && going
            invariant
                index <= p.frames.len(),
                page == p.page,
                aligned_4k(page as int),
                p.wf(),
                pt.wf(),
                pt.same_kind(old(pt)),
                stored == old(pt).stored(orig_flags),
                limit == old(pt).limit(),
                prepared@ == (AnonPages { mapped: prepared@.mapped, ..p }),
                prepared.wf(),
                anon_install(start, p, 0, area_end, stored, limit) == anon_install(
                    AnonInstall {
                        pt: pt@,
                        mapped: prepared@.mapped,
                        handled,
                        flushed: flushed@,
                        going,
                    },
                    p,
                    index as int,
                    area_end,
                    stored,
                    limit,
                ),
            decreases p.frames.len() - index,
        {
            let frame: usize = prepared.frames[index];
            proof {
                assert(usable_frame(p.frames[index as int]));
                assert(base_of(frame, PageSize::Size4K) == frame);
            }
            let current: Option<usize> = page.checked_add(index * PAGE_SIZE_4K);
            if current.is_none() || current.unwrap() >= area_end {
                going = false;
            } else {
                let current_page: usize = current.unwrap();
                let entry: Option<(usize, MappingFlags, PageSize)> = pt.query(current_page);
                if entry.is_some() && entry.unwrap().0 != 0 {
                    if index == 0 {
                        handled = true;
                    }
                } else {
                    let ok: bool = if entry.is_some() {
                        pt.remap(current_page, frame, orig_flags)
                    } else {
                        map_page(pt, current_page, frame, orig_flags)
                    };
                    if ok {
                        handled = true;
                        flushed.push(current_page);
                        prepared.mapped.set(index, true);
                    } else {
                        going = false;
                    }
                }
            }
            index = index + 1;
        }
        AnonFault { handled, flushed }
    }

    /// Answers a fault on anonymous memory with the frames at hand.
    #[verifier::rlimit(60)]
    pub fn handle_page_fault_alloc(
        vaddr: usize,
        area_end: usize,
        orig_flags: MappingFlags,
        populate: bool,
        pt: &mut PageTable,
        frames: &mut Frames,
    ) -> (r: AnonFault)
        requires
            old(pt).wf(),
            repointable(old(pt)@, page_of(vaddr)),
            old(frames).wf(),
        ensures
            final(pt).wf(),
            final(pt).same_kind(old(pt)),
            final(frames).wf(),
            final(frames).room() >= old(frames).room(),
            (r.handled, r.flushed@, final(pt)@, final(frames)@) == spec_fault_alloc(
                old(pt)@,
                old(frames)@,
                page_of(vaddr),
                area_end,
                orig_flags,
                old(pt).wr(),
                old(pt).limit(),
                populate,
            ),
    {
        let page: usize = align_down_4k(vaddr);
        let lazy = Backend::Alloc { populate: false, grows_down: false };
        if !populate {
            if let Some(load) = lazy.page_fault_alloc_request(vaddr, area_end, pt) {
                let ghost st = frames@;
                proof {
                    frames.lemma_wf();
                    lemma_unbacked_run_bounds(pt@, page, area_end, 0);
                }
                let mut prepared: AnonPagePrepared = match load.prepare(frames) {
                    Ok(prepared) => prepared,
                    Err(_) => {
                        let r = AnonFault { handled: false, flushed: Vec::new() };
                        assert(r.flushed@ =~= Seq::<usize>::empty());
                        return r;
                    },
                };
                let ghost p = prepared@;
                let r = Self::handle_prepared_page_fault_alloc(
                    vaddr,
                    area_end,
                    orig_flags,
                    pt,
                    &mut prepared,
                );
                proof {
                    lemma_after_allocs(st, p.frames.len());
                    lemma_left_over_subset(p.frames, prepared@.mapped, frames@);
                    lemma_distinct_releasable(frames@, prepared@.left_over());
                }
                prepared.release(frames);
                return r;
            }
        }
        let mut flushed: Vec<usize> = Vec::new();
        assert(flushed@ =~= Seq::<usize>::empty());
        match pt.query(page) {
            Some((old_frame, old_flags, _)) => {
                if old_flags.is_empty() || old_frame == 0 {
                    if populate {
                        return AnonFault { handled: false, flushed };
                    }
                    match frames.alloc_frame() {
                        Some(frame) => {
                            let _ = pt.remap(page, frame, orig_flags);
                            flushed.push(page);
                            assert(flushed@ =~= seq![page]);
                            AnonFault { handled: true, flushed }
                        },
                        None => AnonFault { handled: false, flushed },
                    }
                } else {
                    let new_flags: MappingFlags = old_flags.union(orig_flags);
                    if new_flags != old_flags {
                        let _ = pt.remap(page, old_frame, new_flags);
                    }
                    AnonFault { handled: true, flushed }
                }
            },
            None => {
                match frames.alloc_frame() {
                    Some(frame) => {
                        assert(base_of(frame, PageSize::Size4K) == frame);
                        if map_page(pt, page, frame, orig_flags) {
                            flushed.push(page);
                            assert(flushed@ =~= seq![page]);
                            AnonFault { handled: true, flushed }
                        } else {
                            frames.dealloc_frame(frame);
                            AnonFault { handled: false, flushed }
                        }
                    },
                    None => AnonFault { handled: false, flushed },
                }
            },
        }
    }
}

/// Frames that answer nothing change nothing.
pub proof fn lemma_unhandled_changes_nothing(
    a: AnonInstall,
    p: AnonPages,
    i: int,
    area_end: usize,
    stored: MappingFlags,
    limit: usize,
)
    requires
        0 <= i <= p.frames.len(),
        !anon_install(a, p, i, area_end, stored, limit).handled,
    ensures
        anon_install(a, p, i, area_end, stored, limit).pt == a.pt,
        anon_install(a, p, i, area_end, stored, limit).mapped == a.mapped,
        !a.handled,
    decreases p.frames.len() - i,
{
    if i < p.frames.len() && a.going {
        let b = anon_install_one(a, p, i, area_end, stored, limit);
        lemma_unhandled_changes_nothing(b, p, i + 1, area_end, stored, limit);
    }
}

pub(crate) proof fn lemma_unbacked_run_bounds(pt: PtMap, page: usize, area_end: usize, k: nat)
    requires
        k <= 4,
    ensures
        k <= unbacked_run(pt, page, area_end, k) <= 4,
    decreases 4 - k,
{
    if k < 4 && page + k * 0x1000 < area_end && !resident(pt, (page + k * 0x1000) as usize) {
        lemma_unbacked_run_bounds(pt, page, area_end, (k + 1) as nat);
    }
}

} // verus!
