//! Page faults in an address space.
use vstd::prelude::*;

use crate::error::{AxError, AxResult};

use super::anon::{
    anon_installed, lemma_unhandled_changes_nothing, spec_alloc_request, AnonFault, AnonInstall,
    AnonPageLoad, AnonPagePrepared, AnonPages,
};
use super::area::{any_meets, entered, MemoryArea};
use super::aspace::{AddrSpace, Space};
use super::backend::Backend;
use super::fault::{fault_on, held_at, BackendFault, Fault, Memory};
use super::file_fault::{
    fault_site, file_faulted, install, lemma_install, lemma_install_frames, FileFault,
    FileFaultSite, Install,
};
use super::file_map::{
    page_after, size_of_file, FileMapping, FilePageLoad, FilePagePrepared, FileReadAheadState,
    FileSizes, PreparedPages,
};
use super::flags::MappingFlags;
use super::frame_table::{lemma_other_frame, usable_frame, FrameState, Frames};
use super::paging::{
    align_down_4k, aligned_4k, page_of, pt_wf, pte_at, resident, shown_frame, PageSize, PageTable,
    PtMap, PAGE_SIZE_4K,
};
use super::reclaim::{pages_of, DeferredReclaims, Reclaims};
use super::tlb::{FlushOutcome, TlbInvalidation, TlbShootdown};

verus! {

/// How a page fault was answered.
pub enum PageFaultResult {
    /// Without a change that other CPUs have to learn of.
    Handled(bool),
    /// With a change that other CPUs have to learn of.
    HandledWithShootdown { handled: bool, shootdown: TlbShootdown },
    /// The space has to be locked for writing: a stack may grow.
    NeedWriteLock,
    /// Pages of a file have to be loaded.
    NeedFilePage(FilePageLoad),
    /// Frames have to be allocated.
    NeedAnonPage(AnonPageLoad),
}

/// What is to be done about a page fault after the space was unlocked.
#[derive(Clone, Copy, Debug, PartialEq, Eq, Structural)]
pub enum PageFaultOutcome {
    Handled(bool),
    RetryWithWriteLock,
    LoadFilePage(FilePageLoad),
    PrepareAnonPage(AnonPageLoad),
}

/// What [`PageFaultResult`] says.
pub ghost enum FaultKind {
    Handled(bool),
    Shootdown(bool, Seq<(usize, TlbInvalidation)>, Reclaims),
    NeedWriteLock,
    NeedFile(FilePageLoad),
    NeedAnon(AnonPageLoad),
}

impl PageFaultResult {
    pub open spec fn kind(self) -> FaultKind {
        match self {
            PageFaultResult::Handled(b) => FaultKind::Handled(b),
            PageFaultResult::HandledWithShootdown { handled, shootdown } => FaultKind::Shootdown(
                handled,
                shootdown.list(),
                shootdown.reclaims(),
            ),
            PageFaultResult::NeedWriteLock => FaultKind::NeedWriteLock,
            PageFaultResult::NeedFilePage(load) => FaultKind::NeedFile(load),
            PageFaultResult::NeedAnonPage(load) => FaultKind::NeedAnon(load),
        }
    }

    /// Ends a shootdown, once the other CPUs have answered, and says what is
    /// left to do.
    pub fn complete_after_unlock(self, outcomes: &Vec<FlushOutcome>, frames: &mut Frames) -> (r:
        AxResult<PageFaultOutcome>)
        requires
            old(frames).wf(),
            self matches PageFaultResult::HandledWithShootdown { shootdown, .. } ==> old(
                frames,
            )@.releasable(shootdown.reclaims().frames),
        ensures
            final(frames).wf(),
            match self {
                PageFaultResult::Handled(b) => r == Ok::<PageFaultOutcome, AxError>(
                    PageFaultOutcome::Handled(b),
                ) && final(frames)@ == old(frames)@,
                PageFaultResult::HandledWithShootdown { handled, shootdown } => if super::tlb::lost(
                    outcomes@,
                ) {
                    r == Err::<PageFaultOutcome, AxError>(AxError::BadState) && final(frames)@
                        == old(frames)@
                } else {
                    r == Ok::<PageFaultOutcome, AxError>(PageFaultOutcome::Handled(handled))
                        && final(frames)@ == old(frames)@.dealloc_all(shootdown.reclaims().frames)
                },
                PageFaultResult::NeedWriteLock => r == Ok::<PageFaultOutcome, AxError>(
                    PageFaultOutcome::RetryWithWriteLock,
                ) && final(frames)@ == old(frames)@,
                PageFaultResult::NeedFilePage(load) => r == Ok::<PageFaultOutcome, AxError>(
                    PageFaultOutcome::LoadFilePage(load),
                ) && final(frames)@ == old(frames)@,
                PageFaultResult::NeedAnonPage(load) => r == Ok::<PageFaultOutcome, AxError>(
                    PageFaultOutcome::PrepareAnonPage(load),
                ) && final(frames)@ == old(frames)@,
            },
    {
        match self {
            PageFaultResult::Handled(b) => Ok(PageFaultOutcome::Handled(b)),
            PageFaultResult::HandledWithShootdown { handled, shootdown } => {
                match shootdown.complete_after_unlock(outcomes, frames) {
                    Ok(_) => Ok(PageFaultOutcome::Handled(handled)),
                    Err(e) => Err(e),
                }
            },
            PageFaultResult::NeedWriteLock => Ok(PageFaultOutcome::RetryWithWriteLock),
            PageFaultResult::NeedFilePage(load) => Ok(PageFaultOutcome::LoadFilePage(load)),
            PageFaultResult::NeedAnonPage(load) => Ok(PageFaultOutcome::PrepareAnonPage(load)),
        }
    }
}

/// The answer to a page fault and what this CPU has to do about it.
pub struct FaultReport {
    pub result: PageFaultResult,
    /// Pages whose old translation has to be dropped on this CPU.
    pub flushed: Vec<usize>,
    /// A frame to copy and the frame to copy it to.
    pub copied: Option<(usize, usize)>,
    pub sync_executable: bool,
}

/// What a page fault leads to.
pub ghost struct FaultEnd {
    pub kind: FaultKind,
    pub flushed: Seq<usize>,
    pub copied: Option<(usize, usize)>,
    pub sync_executable: bool,
    pub space: Space,
    pub frames: FrameState,
    pub read_ahead: FileReadAheadState,
}

/// An answer that changes nothing.
pub open spec fn only(
    kind: FaultKind,
    sp: Space,
    frames: FrameState,
    ra: FileReadAheadState,
) -> FaultEnd {
    FaultEnd {
        kind,
        flushed: Seq::empty(),
        copied: None,
        sync_executable: false,
        space: sp,
        frames,
        read_ahead: ra,
    }
}

/// What a page shows: the frame and the flags.
pub open spec fn shown(pt: PtMap, page: usize) -> Option<(usize, MappingFlags)> {
    match pte_at(pt, page) {
        Some(e) => Some((shown_frame(pt, page), e.flags)),
        None => None,
    }
}

/// The load that a fault in an area asks for.
pub open spec fn load_request(
    area: MemoryArea,
    vaddr: usize,
    pt: PtMap,
    sizes: Seq<(u64, usize)>,
    ra: FileReadAheadState,
) -> Option<FilePageLoad> {
    match area.backend.bottom() {
        Backend::File(m) => m.spec_load_request(
            vaddr,
            area.end,
            area.flags,
            pt,
            size_of_file(sizes, m.file),
            ra,
        ),
        _ => None,
    }
}

pub open spec fn planned(load: FilePageLoad) -> FileReadAheadState {
    FileReadAheadState { next_page: page_after(load.page_number, load.page_count) }
}

/// A fault in an area that allows the access.
pub open spec fn fault_in_area(
    sp: Space,
    area: MemoryArea,
    vaddr: usize,
    access: MappingFlags,
    frames: FrameState,
    sizes: Seq<(u64, usize)>,
    ra: FileReadAheadState,
) -> FaultEnd {
    let page = page_of(vaddr);
    match load_request(area, vaddr, sp.pt, sizes, ra) {
        Some(load) => only(FaultKind::NeedFile(load), sp, frames, planned(load)),
        None => match spec_alloc_request(area.backend, vaddr, area.end, sp.pt) {
            Some(load) => only(FaultKind::NeedAnon(load), sp, frames, ra),
            None => {
                let a = fault_on(
                    area.backend,
                    Fault {
                        page,
                        area_end: area.end,
                        orig: area.flags,
                        access,
                        write_implies_read: sp.write_implies_read,
                        limit: sp.limit,
                    },
                    Memory { pt: sp.pt, frames, reclaims: Reclaims::none() },
                    sizes,
                );
                let now = Space { pt: a.memory.pt, ..sp };
                let again = load_request(area, vaddr, now.pt, sizes, ra);
                if !a.handled && again is Some {
                    only(FaultKind::NeedFile(again->0), now, a.memory.frames, planned(again->0))
                } else {
                    let changed = resident(sp.pt, page) && shown(now.pt, page) != shown(
                        sp.pt,
                        page,
                    );
                    FaultEnd {
                        kind: if changed || !a.memory.reclaims.is_none() {
                            FaultKind::Shootdown(
                                a.handled,
                                seq![
                                    (
                                        sp.asid,
                                        TlbInvalidation::Range {
                                            start: page,
                                            end: (page + 0x1000) as usize,
                                            changed_pages: pages_of(0x1000),
                                        },
                                    ),
                                ],
                                a.memory.reclaims,
                            )
                        } else {
                            FaultKind::Handled(a.handled)
                        },
                        flushed: a.flushed,
                        copied: a.copied,
                        sync_executable: a.sync_executable,
                        space: now,
                        frames: a.memory.frames,
                        read_ahead: ra,
                    }
                }
            },
        },
    }
}

/// The first area that starts at `start`.
pub open spec fn first_at(s: Seq<MemoryArea>, start: int) -> Option<MemoryArea>
    decreases s.len(),
{
    if s.len() == 0 {
        None
    } else if s[0].start == start {
        Some(s[0])
    } else {
        first_at(s.skip(1), start)
    }
}

/// The flags of a stack that starts right behind `page`.
pub open spec fn stack_above(s: Seq<MemoryArea>, page: usize) -> Option<MappingFlags> {
    match first_at(s, page + 0x1000) {
        Some(a) => if a.backend.spec_grows_down() {
            Some(a.flags)
        } else {
            None
        },
        None => None,
    }
}

/// What a page fault at `vaddr` leads to.
pub open spec fn faulted(
    sp: Space,
    vaddr: usize,
    access: MappingFlags,
    frames: FrameState,
    sizes: Seq<(u64, usize)>,
    ra: FileReadAheadState,
) -> FaultEnd {
    let page = page_of(vaddr);
    if !(sp.base <= vaddr < sp.end) {
        only(FaultKind::Handled(false), sp, frames, ra)
    } else if resident(sp.pt, page) && (pte_at(sp.pt, page)->0).flags.has(access) {
        FaultEnd { flushed: seq![page], ..only(FaultKind::Handled(true), sp, frames, ra) }
    } else {
        match sp.area_at(vaddr as int) {
            Some(area) => if area.flags.has(access) {
                fault_in_area(sp, area, vaddr, access, frames, sizes, ra)
            } else {
                only(FaultKind::Handled(false), sp, frames, ra)
            },
            None => if stack_above(sp.areas, page) is Some {
                only(FaultKind::NeedWriteLock, sp, frames, ra)
            } else {
                only(FaultKind::Handled(false), sp, frames, ra)
            },
        }
    }
}

/// Whether a report and what it leaves is what `end` says.
pub open spec fn reports(
    r: FaultReport,
    space: Space,
    frames: FrameState,
    ra: FileReadAheadState,
    end: FaultEnd,
) -> bool {
    &&& r.result.kind() == end.kind
    &&& r.flushed@ == end.flushed
    &&& r.copied == end.copied
    &&& r.sync_executable == end.sync_executable
    &&& space == end.space
    &&& frames == end.frames
    &&& ra == end.read_ahead
}

impl Backend {
    /// The load from a file that a fault at `vaddr` asks for.
    pub fn page_fault_load_request(
        &self,
        vaddr: usize,
        area_end: usize,
        orig_flags: MappingFlags,
        pt: &PageTable,
        sizes: &FileSizes,
        read_ahead: &mut FileReadAheadState,
    ) -> (r: Option<FilePageLoad>)
        requires
            pt.wf(),
        ensures
            r == match self.bottom() {
                Backend::File(m) => m.spec_load_request(
                    vaddr,
                    area_end,
                    orig_flags,
                    pt@,
                    size_of_file(sizes@, m.file),
                    *old(read_ahead),
                ),
                _ => None,
            },
            *final(read_ahead) == match r {
                Some(load) => planned(load),
                None => *old(read_ahead),
            },
        decreases self,
    {
        match self {
            Backend::File(mapping) => {
                let size: usize = sizes.size(mapping.file);
                mapping.page_load_request(vaddr, area_end, orig_flags, pt, size, read_ahead)
            },
            Backend::Cow(cow) => (&*cow.inner).page_fault_load_request(
                vaddr,
                area_end,
                orig_flags,
                pt,
                sizes,
                read_ahead,
            ),
            _ => None,
        }
    }
}

fn report(result: PageFaultResult) -> (r: FaultReport)
    ensures
        r.result == result,
        r.flushed@ == Seq::<usize>::empty(),
        r.copied is None,
        !r.sync_executable,
{
    let flushed: Vec<usize> = Vec::new();
    assert(flushed@ =~= Seq::<usize>::empty());
    FaultReport { result, flushed, copied: None, sync_executable: false }
}

impl AddrSpace {
    /// Whether a stack starts right behind `page`, and with which flags.
    fn stack_above_page(&self, page: usize) -> (r: Option<MappingFlags>)
        requires
            page <= usize::MAX - 0x1000,
        ensures
            r == stack_above(self@.areas, page),
    {
        proof {
            self.lemma_parts();
        }
        let next_page: usize = page + PAGE_SIZE_4K;
        let ghost s = self.areas@;
        let mut i: usize = 0;
        assert(s.skip(0) =~= s);
        while i < self.areas.len()
            invariant
                i <= s.len(),
                s == self.areas@,
                s == self@.areas,
                next_page == page + 0x1000,
                first_at(s, next_page as int) == first_at(s.skip(i as int), next_page as int),
            decreases s.len() - i,
        {
            let area: &MemoryArea = self.areas.get(i);
            assert(s.skip(i as int)[0] == s[i as int]);
            assert(s.skip(i as int).skip(1) =~= s.skip(i + 1));
            if area.start == next_page {
                return if area.backend.is_grows_down() {
                    Some(area.flags)
                } else {
                    None
                };
            }
            i = i + 1;
        }
        None
    }

    /// Answers a fault in the `i`-th area, which allows the access.
    #[verifier::rlimit(60)]
    fn fault_in(
        &mut self,
        i: usize,
        vaddr: usize,
        access_flags: MappingFlags,
        sizes: &FileSizes,
        read_ahead: &mut FileReadAheadState,
        frames: &mut Frames,
    ) -> (r: FaultReport)
        requires
            old(self).wf(),
            old(frames).wf(),
            sizes.wf(),
            i < old(self)@.areas.len(),
            page_of(vaddr) <= usize::MAX - 0x1000,
            held_at(old(self)@.pt, old(frames)@, page_of(vaddr)),
        ensures
            final(self).wf(),
            final(frames).wf(),
            final(frames).room() >= old(frames).room(),
            reports(
                r,
                final(self)@,
                final(frames)@,
                *final(read_ahead),
                fault_in_area(
                    old(self)@,
                    old(self)@.areas[i as int],
                    vaddr,
                    access_flags,
                    old(frames)@,
                    sizes@,
                    *old(read_ahead),
                ),
            ),
    {
        proof {
            self.lemma_parts();
        }
        let ghost sp = self@;
        let page: usize = align_down_4k(vaddr);
        let area_end: usize = self.areas.get(i).end;
        let orig_flags: MappingFlags = self.areas.get(i).flags;
        let backend: Backend = self.areas.get(i).backend.clone();
        if let Some(load) = backend.page_fault_load_request(
            vaddr,
            area_end,
            orig_flags,
            &self.pt,
            sizes,
            read_ahead,
        ) {
            return report(PageFaultResult::NeedFilePage(load));
        }
        if let Some(load) = backend.page_fault_alloc_request(vaddr, area_end, &self.pt) {
            return report(PageFaultResult::NeedAnonPage(load));
        }
        let mut reclaim: DeferredReclaims = DeferredReclaims::default();
        let before: Option<(usize, MappingFlags, PageSize)> = self.pt.query(page);
        let was_resident: bool = match before {
            Some((frame, _, _)) => frame != 0,
            None => false,
        };
        let f: BackendFault = backend.handle_page_fault(
            vaddr,
            area_end,
            orig_flags,
            access_flags,
            sizes,
            &mut self.pt,
            frames,
            &mut reclaim,
        );
        proof {
            self.lemma_parts();
        }
        let after: Option<(usize, MappingFlags, PageSize)> = self.pt.query(page);
        if !f.handled {
            if let Some(load) = backend.page_fault_load_request(
                vaddr,
                area_end,
                orig_flags,
                &self.pt,
                sizes,
                read_ahead,
            ) {
                return report(PageFaultResult::NeedFilePage(load));
            }
        }
        let same: bool = match (before, after) {
            (Some((frame, flags, _)), Some((frame2, flags2, _))) => frame == frame2 && flags
                == flags2,
            (None, None) => true,
            _ => false,
        };
        assert(same == (shown(self@.pt, page) == shown(sp.pt, page)));
        let result: PageFaultResult = if (was_resident && !same) || !reclaim.is_empty() {
            PageFaultResult::HandledWithShootdown {
                handled: f.handled,
                shootdown: TlbShootdown::for_range(self.asid, page, PAGE_SIZE_4K, reclaim),
            }
        } else {
            PageFaultResult::Handled(f.handled)
        };
        FaultReport {
            result,
            flushed: f.flushed,
            copied: f.copied,
            sync_executable: f.sync_executable,
        }
    }

    /// Answers a page fault at `vaddr`.
    pub fn handle_page_fault(
        &mut self,
        vaddr: usize,
        access_flags: MappingFlags,
        sizes: &FileSizes,
        read_ahead: &mut FileReadAheadState,
        frames: &mut Frames,
    ) -> (r: FaultReport)
        requires
            old(self).wf(),
            old(frames).wf(),
            sizes.wf(),
            held_at(old(self)@.pt, old(frames)@, page_of(vaddr)),
        ensures
            final(self).wf(),
            final(frames).wf(),
            final(frames).room() >= old(frames).room(),
            reports(
                r,
                final(self)@,
                final(frames)@,
                *final(read_ahead),
                faulted(
                    old(self)@,
                    vaddr,
                    access_flags,
                    old(frames)@,
                    sizes@,
                    *old(read_ahead),
                ),
            ),
            ({
                let end = faulted(
                    old(self)@,
                    vaddr,
                    access_flags,
                    old(frames)@,
                    sizes@,
                    *old(read_ahead),
                );
                &&& r.result.kind() == end.kind
                &&& r.flushed@ == end.flushed
                &&& r.copied == end.copied
                &&& final(self)@ == end.space
                &&& final(frames)@ == end.frames
            }),
    {
        proof {
            self.lemma_parts();
        }
        let page: usize = align_down_4k(vaddr);
        if vaddr < self.base || vaddr >= self.end {
            return report(PageFaultResult::Handled(false));
        }
        if let Some((frame, flags, _)) = self.pt.query(page) {
            if frame != 0 && flags.contains(access_flags) {
                let mut r = report(PageFaultResult::Handled(true));
                r.flushed.push(page);
                assert(r.flushed@ =~= seq![page]);
                return r;
            }
        }
        match self.areas.find(vaddr) {
            Some(i) => {
                if self.areas.get(i).flags.contains(access_flags) {
                    self.fault_in(i, vaddr, access_flags, sizes, read_ahead, frames)
                } else {
                    report(PageFaultResult::Handled(false))
                }
            },
            None => {
                if self.stack_above_page(page).is_some() {
                    report(PageFaultResult::NeedWriteLock)
                } else {
                    report(PageFaultResult::Handled(false))
                }
            },
        }
    }
}

/// How far below a stack nothing else may be.
pub const STACK_GUARD_GAP: usize = 0x10_0000;

/// The gap below `page` that has to be free for a stack to grow onto it.
pub open spec fn guard_start(page: usize) -> usize {
    if page > STACK_GUARD_GAP {
        (page - STACK_GUARD_GAP) as usize
    } else {
        0
    }
}

/// What a fault leads to that may let a stack grow.
pub open spec fn faulted_write(
    sp: Space,
    vaddr: usize,
    access: MappingFlags,
    frames: FrameState,
    sizes: Seq<(u64, usize)>,
    ra: FileReadAheadState,
) -> FaultEnd {
    let page = page_of(vaddr);
    match stack_above(sp.areas, page) {
        None => only(FaultKind::Handled(false), sp, frames, ra),
        Some(flags) => {
            let area = MemoryArea {
                start: page,
                end: (page + 0x1000) as usize,
                flags,
                backend: Backend::Alloc { populate: false, grows_down: true },
            };
            let t = entered(sp.areas, area, sp.pt, frames, sp.stored(flags), sp.limit);
            if any_meets(sp.areas, guard_start(page) as int, page as int) || !sp.has_range(
                page,
                0x1000,
            ) || t.0 is Err {
                only(FaultKind::Handled(false), sp, frames, ra)
            } else {
                faulted(
                    Space { areas: t.1, pt: t.2, ..sp },
                    vaddr,
                    access,
                    t.3,
                    sizes,
                    ra,
                )
            }
        },
    }
}

impl AddrSpace {
    /// Answers a page fault with the space locked for writing: lets a stack
    /// grow by one page if nothing is close below.
    pub fn handle_page_fault_write(
        &mut self,
        vaddr: usize,
        access_flags: MappingFlags,
        sizes: &FileSizes,
        read_ahead: &mut FileReadAheadState,
        frames: &mut Frames,
    ) -> (r: FaultReport)
        requires
            old(self).wf(),
            old(frames).wf(),
            sizes.wf(),
            page_of(vaddr) <= usize::MAX - 0x1000,
            held_at(old(self)@.pt, old(frames)@, page_of(vaddr)),
        ensures
            final(self).wf(),
            final(frames).wf(),
            final(frames).room() >= old(frames).room(),
            reports(
                r,
                final(self)@,
                final(frames)@,
                *final(read_ahead),
                faulted_write(
                    old(self)@,
                    vaddr,
                    access_flags,
                    old(frames)@,
                    sizes@,
                    *old(read_ahead),
                ),
            ),
    {
        reveal(super::populate::mapped);
        proof {
            self.lemma_parts();
        }
        let page: usize = align_down_4k(vaddr);
        let flags: MappingFlags = match self.stack_above_page(page) {
            Some(flags) => flags,
            None => {
                return report(PageFaultResult::Handled(false));
            },
        };
        let guard: usize = if page > STACK_GUARD_GAP {
            page - STACK_GUARD_GAP
        } else {
            0
        };
        if self.has_overlap(guard, page - guard) {
            return report(PageFaultResult::Handled(false));
        }
        if !self.contains_range(page, PAGE_SIZE_4K) {
            return report(PageFaultResult::Handled(false));
        }
        let backend: Backend = Backend::new_alloc_grows_down(false, true);
        let area = MemoryArea { start: page, end: page + PAGE_SIZE_4K, flags, backend };
        let entered_ok: bool = self.areas.map(area, &mut self.pt, frames).is_ok();
        proof {
            self.lemma_parts();
        }
        if entered_ok {
            self.handle_page_fault(vaddr, access_flags, sizes, read_ahead, frames)
        } else {
            report(PageFaultResult::Handled(false))
        }
    }
}

/// What a fault leads to for which pages of a file were loaded.
pub open spec fn faulted_with_file(
    sp: Space,
    vaddr: usize,
    access: MappingFlags,
    p: PreparedPages,
    frames: FrameState,
    sizes: Seq<(u64, usize)>,
    ra: FileReadAheadState,
) -> (FaultEnd, PreparedPages, Option<(u32, usize)>) {
    let page = page_of(vaddr);
    if !(sp.base <= vaddr < sp.end) {
        (only(FaultKind::Handled(false), sp, frames, ra), p, None)
    } else if resident(sp.pt, page) {
        (faulted(sp, vaddr, access, frames, sizes, ra), p, None)
    } else {
        match sp.area_at(vaddr as int) {
            None => (faulted(sp, vaddr, access, frames, sizes, ra), p, None),
            Some(area) => if !area.flags.has(access) {
                (only(FaultKind::Handled(false), sp, frames, ra), p, None)
            } else {
                match area.backend.bottom() {
                    Backend::File(m) => {
                        let e = file_faulted(
                            fault_site(
                                m,
                                vaddr,
                                area.end,
                                area.flags,
                                access,
                                size_of_file(sizes, m.file),
                                sp.write_implies_read,
                                sp.limit,
                            ),
                            sp.pt,
                            p,
                            frames,
                        );
                        let now = Space { pt: e.pt, ..sp };
                        if e.handled {
                            (
                                FaultEnd {
                                    kind: FaultKind::Handled(true),
                                    flushed: e.flushed,
                                    copied: e.copied,
                                    sync_executable: e.sync_executable,
                                    space: now,
                                    frames: e.frames,
                                    read_ahead: ra,
                                },
                                e.prepared,
                                e.prefetch,
                            )
                        } else {
                            let f = faulted(now, vaddr, access, e.frames, sizes, ra);
                            (
                                FaultEnd {
                                    flushed: e.flushed + f.flushed,
                                    sync_executable: e.sync_executable || f.sync_executable,
                                    ..f
                                },
                                e.prepared,
                                None,
                            )
                        }
                    },
                    _ => (faulted(sp, vaddr, access, frames, sizes, ra), p, None),
                }
            },
        }
    }
}

/// What a fault leads to for which frames were taken.
pub open spec fn faulted_with_frames(
    sp: Space,
    vaddr: usize,
    access: MappingFlags,
    p: AnonPages,
    frames: FrameState,
    sizes: Seq<(u64, usize)>,
    ra: FileReadAheadState,
) -> (FaultEnd, AnonPages) {
    let page = page_of(vaddr);
    if !(sp.base <= vaddr < sp.end) {
        (only(FaultKind::Handled(false), sp, frames, ra), p)
    } else {
        match sp.area_at(vaddr as int) {
            None => (faulted(sp, vaddr, access, frames, sizes, ra), p),
            Some(area) => if !area.flags.has(access) {
                (only(FaultKind::Handled(false), sp, frames, ra), p)
            } else {
                let a = anon_installed(
                    p,
                    sp.pt,
                    page,
                    area.end,
                    sp.stored(area.flags),
                    sp.limit,
                );
                if area.backend.bottom() matches Backend::Alloc { populate, .. } && !populate
                    && a.handled {
                    (
                        FaultEnd {
                            flushed: a.flushed,
                            space: Space { pt: a.pt, ..sp },
                            ..only(FaultKind::Handled(true), sp, frames, ra)
                        },
                        AnonPages { mapped: a.mapped, ..p },
                    )
                } else {
                    (faulted(sp, vaddr, access, frames, sizes, ra), p)
                }
            },
        }
    }
}

/// What backs an area below any copy-on-write layers, as far as a fault can be
/// answered with prepared pages.
enum Bottom {
    File(FileMapping),
    Lazy,
    Other,
}

impl Backend {
    fn bottom_kind(&self) -> (r: Bottom)
        ensures
            match self.bottom() {
                Backend::File(m) => r == Bottom::File(m),
                Backend::Alloc { populate, .. } => r == if populate {
                    Bottom::Other
                } else {
                    Bottom::Lazy
                },
                _ => r == Bottom::Other,
            },
        decreases self,
    {
        match self {
            Backend::File(m) => Bottom::File(*m),
            Backend::Alloc { populate, .. } => if *populate {
                Bottom::Other
            } else {
                Bottom::Lazy
            },
            Backend::Cow(cow) => (&*cow.inner).bottom_kind(),
            _ => Bottom::Other,
        }
    }
}

/// The loaded frames are in use and not at hand for something else.
pub open spec fn loaded_frames_in_use(p: PreparedPages, frames: FrameState) -> bool {
    forall|i: int|
        0 <= i < p.pages.len() ==> (#[trigger] p.pages[i]).1 % 0x1000 == 0
            && frames.counts.releasable(p.pages[i].1) && !frames.available.contains(p.pages[i].1)
}

/// After loaded pages were made visible, the touched page can still be given up.
proof fn lemma_installed_page_is_held(
    site: FileFaultSite,
    pt: PtMap,
    p: PreparedPages,
    frames: FrameState,
)
    requires
        pt_wf(pt),
        p.wf(),
        frames.wf(),
        aligned_4k(site.page as int),
        !resident(pt, site.page),
        loaded_frames_in_use(p, frames),
    ensures
        ({
            let e = file_faulted(site, pt, p, frames);
            held_at(e.pt, e.frames, site.page)
        }),
{
    let e = file_faulted(site, pt, p, frames);
    if resident(e.pt, site.page) {
        let own = if site.private_write() {
            frames.next()
        } else {
            None
        };
        let s0 = Install {
            pt,
            mapped: p.mapped,
            private: own,
            handled: false,
            executable: false,
            flushed: Seq::empty(),
        };
        if own is Some {
            assert(usable_frame(frames.available[frames.available.len() - 1]));
        }
        lemma_install_frames(site, p, s0, site.candidates(p));
        lemma_install(site, p, s0, site.candidates(p), site.page);
        let t = install(site, p.pages, s0, site.candidates(p));
        let frame = (pte_at(t.pt, site.page)->0).frame;
        if t.private is None && own == Some(frame) {
            if frames.counts.has(frame) {
                assert(frames.counts.used(frame).has(frame));
            }
        } else {
            let k = choose|k: int| 0 <= k < p.pages.len() && (#[trigger] p.pages[k]).1 == frame;
            if own is Some {
                let f = own->0;
                assert(frames.available.contains(f)) by {
                    assert(frames.available[frames.available.len() - 1] == f);
                }
                assert(f != frame);
                lemma_other_frame(frames.counts, f, frame);
                lemma_other_frame(frames.counts.used(f), f, frame);
            }
        }
    }
}

impl AddrSpace {
    /// Makes pages of a file visible that were loaded for a fault.
    #[verifier::rlimit(60)]
    pub fn handle_prepared_file_page(
        &mut self,
        vaddr: usize,
        access_flags: MappingFlags,
        sizes: &FileSizes,
        read_ahead: &mut FileReadAheadState,
        frames: &mut Frames,
        prepared: &mut FilePagePrepared,
    ) -> (r: (FaultReport, Option<(u32, usize)>))
        requires
            old(self).wf(),
            old(frames).wf(),
            old(prepared).wf(),
            sizes.wf(),
            loaded_frames_in_use(old(prepared)@, old(frames)@),
            held_at(old(self)@.pt, old(frames)@, page_of(vaddr)),
        ensures
            final(self).wf(),
            final(frames).wf(),
            final(prepared).wf(),
            final(frames).room() >= old(frames).room(),
            ({
                let t = faulted_with_file(
                    old(self)@,
                    vaddr,
                    access_flags,
                    old(prepared)@,
                    old(frames)@,
                    sizes@,
                    *old(read_ahead),
                );
                &&& reports(r.0, final(self)@, final(frames)@, *final(read_ahead), t.0)
                &&& r.0.result.kind() == t.0.kind
                &&& r.0.copied == t.0.copied
                &&& final(self)@ == t.0.space
                &&& final(frames)@ == t.0.frames
                &&& final(prepared)@ == t.1
                &&& r.1 == t.2
            }),
    {
        proof {
            self.lemma_parts();
            frames.lemma_wf();
        }
        let ghost sp = self@;
        let page: usize = align_down_4k(vaddr);
        if vaddr < self.base || vaddr >= self.end {
            return (report(PageFaultResult::Handled(false)), None);
        }
        if let Some((frame, _, _)) = self.pt.query(page) {
            if frame != 0 {
                return (
                    self.handle_page_fault(vaddr, access_flags, sizes, read_ahead, frames),
                    None,
                );
            }
        }
        let i: usize = match self.areas.find(vaddr) {
            Some(i) => i,
            None => {
                return (
                    self.handle_page_fault(vaddr, access_flags, sizes, read_ahead, frames),
                    None,
                );
            },
        };
        let area: MemoryArea = self.areas.get(i).clone();
        if !area.flags.contains(access_flags) {
            return (report(PageFaultResult::Handled(false)), None);
        }
        match area.backend.bottom_kind() {
            Bottom::File(mapping) => {
                let size: usize = sizes.size(mapping.file);
                proof {
                    lemma_installed_page_is_held(
                        fault_site(
                            mapping,
                            vaddr,
                            area.end,
                            area.flags,
                            access_flags,
                            size,
                            sp.write_implies_read,
                            sp.limit,
                        ),
                        sp.pt,
                        prepared@,
                        frames@,
                    );
                }
                let f: FileFault = mapping.handle_prepared_page_fault_file(
                    vaddr,
                    area.end,
                    area.flags,
                    access_flags,
                    size,
                    &mut self.pt,
                    prepared,
                    frames,
                );
                proof {
                    self.lemma_parts();
                }
                if f.handled {
                    (
                        FaultReport {
                            result: PageFaultResult::Handled(true),
                            flushed: f.flushed,
                            copied: f.copied,
                            sync_executable: f.sync_executable,
                        },
                        f.prefetch,
                    )
                } else {
                    let mut again: FaultReport = self.handle_page_fault(
                        vaddr,
                        access_flags,
                        sizes,
                        read_ahead,
                        frames,
                    );
                    let mut flushed: Vec<usize> = f.flushed;
                    flushed.append(&mut again.flushed);
                    (
                        FaultReport {
                            result: again.result,
                            flushed,
                            copied: again.copied,
                            sync_executable: f.sync_executable || again.sync_executable,
                        },
                        None,
                    )
                }
            },
            _ => (self.handle_page_fault(vaddr, access_flags, sizes, read_ahead, frames), None),
        }
    }

    /// Maps frames that were taken for a fault.
    pub fn handle_prepared_anon_page(
        &mut self,
        vaddr: usize,
        access_flags: MappingFlags,
        sizes: &FileSizes,
        read_ahead: &mut FileReadAheadState,
        frames: &mut Frames,
        prepared: &mut AnonPagePrepared,
    ) -> (r: FaultReport)
        requires
            old(self).wf(),
            old(frames).wf(),
            old(prepared).wf(),
            sizes.wf(),
            held_at(old(self)@.pt, old(frames)@, page_of(vaddr)),
        ensures
            final(self).wf(),
            final(frames).wf(),
            final(prepared).wf(),
            final(frames).room() >= old(frames).room(),
            ({
                let t = faulted_with_frames(
                    old(self)@,
                    vaddr,
                    access_flags,
                    old(prepared)@,
                    old(frames)@,
                    sizes@,
                    *old(read_ahead),
                );
                &&& reports(r, final(self)@, final(frames)@, *final(read_ahead), t.0)
                &&& r.result.kind() == t.0.kind
                &&& final(self)@ == t.0.space
                &&& final(frames)@ == t.0.frames
                &&& final(prepared)@ == t.1
            }),
    {
        proof {
            self.lemma_parts();
        }
        let ghost sp = self@;
        if vaddr < self.base || vaddr >= self.end {
            return report(PageFaultResult::Handled(false));
        }
        let i: usize = match self.areas.find(vaddr) {
            Some(i) => i,
            None => {
                return self.handle_page_fault(vaddr, access_flags, sizes, read_ahead, frames);
            },
        };
        let area: MemoryArea = self.areas.get(i).clone();
        if !area.flags.contains(access_flags) {
            return report(PageFaultResult::Handled(false));
        }
        if let Bottom::Lazy = area.backend.bottom_kind() {
            let ghost p = prepared@;
            let f: AnonFault = Backend::handle_prepared_page_fault_alloc(
                vaddr,
                area.end,
                area.flags,
                &mut self.pt,
                prepared,
            );
            proof {
                self.lemma_parts();
            }
            if f.handled {
                return FaultReport {
                    result: PageFaultResult::Handled(true),
                    flushed: f.flushed,
                    copied: None,
                    sync_executable: false,
                };
            }
            proof {
                if p.page == page_of(vaddr) {
                    lemma_unhandled_changes_nothing(
                        AnonInstall {
                            pt: sp.pt,
                            mapped: p.mapped,
                            handled: false,
                            flushed: Seq::empty(),
                            going: true,
                        },
                        p,
                        0,
                        area.end,
                        sp.stored(area.flags),
                        sp.limit,
                    );
                }
            }
        }
        self.handle_page_fault(vaddr, access_flags, sizes, read_ahead, frames)
    }
}

} // verus!
