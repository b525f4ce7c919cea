//! How the backends answer page faults.
use vstd::prelude::*;

use super::anon::{spec_fault_alloc, AnonFault};
use super::backend::{Backend, CowMapping};
use super::file_map::{size_of_file, FileMapping, FileSizes};
use super::flags::{spec_effective_pte_flags, MappingFlags};
use super::frame_table::{lemma_counted_apart, usable_frame, FrameCounts, FrameState, Frames};
use super::paging::{
    align_down_4k, aligned_4k, lookup, page_of, pt_wf, pte_at, repointable, resident, round_up_4k,
    shown_frame, PageTable, Pte, PtMap,
};
use super::protect::{reframed, repointed};
use super::reclaim::{DeferredReclaims, Reclaims};

verus! {

/// What a fault led to.
pub struct BackendFault {
    /// Whether the access can be tried again.
    pub handled: bool,
    /// Pages whose old translation has to be dropped on this CPU.
    pub flushed: Vec<usize>,
    /// A frame to copy and the frame to copy it to.
    pub copied: Option<(usize, usize)>,
    /// Whether instructions fetched from now on may come from new pages.
    pub sync_executable: bool,
}

/// A page fault: where it happened and what the area allows.
pub ghost struct Fault {
    pub page: usize,
    pub area_end: usize,
    /// What the area allows.
    pub orig: MappingFlags,
    /// What was attempted.
    pub access: MappingFlags,
    pub write_implies_read: bool,
    pub limit: usize,
}

impl Fault {
    pub open spec fn stored(self, flags: MappingFlags) -> MappingFlags {
        spec_effective_pte_flags(flags, self.write_implies_read)
    }

    /// Whether the fault is a write that the area allows and the entry does not.
    pub open spec fn wants_copy(self, e: Pte) -> bool {
        self.orig.write && self.access.write && !e.flags.write
    }
}

/// The memory that a fault changes.
pub ghost struct Memory {
    pub pt: PtMap,
    pub frames: FrameState,
    pub reclaims: Reclaims,
}

/// What a fault leads to.
pub ghost struct Answer {
    pub handled: bool,
    pub flushed: Seq<usize>,
    pub copied: Option<(usize, usize)>,
    pub sync_executable: bool,
    pub memory: Memory,
}

/// The fault is left to somebody else.
pub open spec fn unanswered(m: Memory) -> Answer {
    Answer {
        handled: false,
        flushed: Seq::empty(),
        copied: None,
        sync_executable: false,
        memory: m,
    }
}

/// The frame that a page shows has a reference, and the entry of the page can be
/// pointed at it.
pub open spec fn held_at(pt: PtMap, frames: FrameState, page: usize) -> bool {
    &&& resident(pt, page) ==> frames.counts.releasable(shown_frame(pt, page))
    &&& repointable(pt, page)
}

/// A fault on a page of a file that is mapped already: a write to a private
/// page copies it, anything else adds permissions.
pub open spec fn fault_on_file(mapping: FileMapping, f: Fault, m: Memory, file_size: usize) -> Answer {
    let relative = if f.page >= mapping.start {
        f.page - mapping.start
    } else {
        0
    };
    if !mapping.spec_permits(f.orig) || relative >= round_up_4k(file_size as int) || !resident(
        m.pt,
        f.page,
    ) {
        unanswered(m)
    } else {
        let e = pte_at(m.pt, f.page)->0;
        if !mapping.shared && f.wants_copy(e) {
            match m.frames.next() {
                None => unanswered(m),
                Some(new_frame) => Answer {
                    handled: true,
                    flushed: Seq::empty(),
                    copied: Some((shown_frame(m.pt, f.page), new_frame)),
                    sync_executable: f.orig.execute,
                    memory: Memory {
                        pt: reframed(m.pt, f.page, new_frame, f.stored(f.orig)),
                        frames: m.frames.after_alloc(),
                        reclaims: m.reclaims.with_frame(shown_frame(m.pt, f.page)),
                    },
                },
            }
        } else {
            let joined = e.flags.joined(f.orig);
            let flags = if mapping.shared {
                joined
            } else {
                joined.with_write(false)
            };
            if e.flags.has(flags) {
                Answer { handled: true, ..unanswered(m) }
            } else {
                Answer {
                    handled: true,
                    sync_executable: flags.execute,
                    memory: Memory { pt: repointed(m.pt, f.page, f.stored(flags)), ..m },
                    ..unanswered(m)
                }
            }
        }
    }
}

/// A write to a page that is shared after a fork: the last user of the frame
/// keeps it, any other gets a copy.
pub open spec fn fault_on_shared_page(f: Fault, m: Memory) -> Answer {
    let e = pte_at(m.pt, f.page)->0;
    let flags = e.flags.with_write(true);
    let old_frame = shown_frame(m.pt, f.page);
    let only_user = m.frames.counts.has(old_frame) && m.frames.counts.count(old_frame) == 1;
    if only_user {
        Answer {
            handled: true,
            flushed: seq![f.page],
            sync_executable: flags.execute,
            memory: Memory { pt: repointed(m.pt, f.page, f.stored(flags)), ..m },
            ..unanswered(m)
        }
    } else {
        match m.frames.next() {
            None => unanswered(m),
            Some(new_frame) => Answer {
                handled: true,
                flushed: seq![f.page],
                copied: Some((old_frame, new_frame)),
                sync_executable: flags.execute,
                memory: Memory {
                    pt: reframed(m.pt, f.page, new_frame, f.stored(flags)),
                    frames: m.frames.after_alloc().dealloc(old_frame),
                    ..m
                },
            },
        }
    }
}

/// What a fault on a mapping of `backend` leads to.
pub open spec fn fault_on(
    backend: Backend,
    f: Fault,
    m: Memory,
    sizes: Seq<(u64, usize)>,
) -> Answer
    decreases backend,
{
    match backend {
        Backend::Shared { .. } | Backend::Linear { .. } => unanswered(m),
        Backend::Alloc { populate, .. } => {
            let t = spec_fault_alloc(
                m.pt,
                m.frames,
                f.page,
                f.area_end,
                f.orig,
                f.write_implies_read,
                f.limit,
                populate,
            );
            Answer {
                handled: t.0,
                flushed: t.1,
                memory: Memory { pt: t.2, frames: t.3, ..m },
                ..unanswered(m)
            }
        },
        Backend::File(mapping) => fault_on_file(mapping, f, m, size_of_file(sizes, mapping.file)),
        Backend::Cow(cow) => if resident(m.pt, f.page) && f.wants_copy(pte_at(m.pt, f.page)->0) {
            fault_on_shared_page(f, m)
        } else {
            fault_on(*cow.inner, f, m, sizes)
        },
    }
}

/// Using a frame takes no reference away.
proof fn lemma_used_keeps_references(c: FrameCounts, p: usize, q: usize)
    requires
        c.releasable(q),
    ensures
        c.used(p).releasable(q),
{
}

impl FileMapping {
    /// Answers a fault on a page that is mapped already. Pages that are not
    /// there are left to a load from the file.
    pub fn handle_page_fault_file(
        &self,
        vaddr: usize,
        area_end: usize,
        orig_flags: MappingFlags,
        access_flags: MappingFlags,
        file_size: usize,
        pt: &mut PageTable,
        frames: &mut Frames,
        reclaim: &mut DeferredReclaims,
    ) -> (r: BackendFault)
        requires
            old(pt).wf(),
            repointable(old(pt)@, page_of(vaddr)),
            old(frames).wf(),
            old(reclaim)@.has_room(1),
            file_size <= usize::MAX - 0xfff,
        ensures
            final(pt).wf(),
            final(pt).same_kind(old(pt)),
            final(frames).wf(),
            final(frames).room() >= old(frames).room(),
            answers(
                r,
                final(pt)@,
                final(frames)@,
                final(reclaim)@,
                fault_on_file(
                    *self,
                    Fault {
                        page: page_of(vaddr),
                        area_end,
                        orig: orig_flags,
                        access: access_flags,
                        write_implies_read: old(pt).wr(),
                        limit: old(pt).limit(),
                    },
                    Memory { pt: old(pt)@, frames: old(frames)@, reclaims: old(reclaim)@ },
                    file_size,
                ),
            ),
    {
        let none = BackendFault {
            handled: false,
            flushed: Vec::new(),
            copied: None,
            sync_executable: false,
        };
        assert(none.flushed@ =~= Seq::<usize>::empty());
        if !self.permits(orig_flags) {
            return none;
        }
        let page_addr: usize = align_down_4k(vaddr);
        let relative: usize = if page_addr >= self.start {
            page_addr - self.start
        } else {
            0
        };
        let limit: usize = super::paging::align_up_4k(file_size);
        if relative >= limit {
            return none;
        }
        let (old_frame, old_flags): (usize, MappingFlags) = match pt.query(page_addr) {
            Some((frame, flags, _)) => (frame, flags),
            None => {
                return none;
            },
        };
        if old_frame == 0 {
            return none;
        }
        if !self.shared && orig_flags.write && access_flags.write && !old_flags.write {
            let new_frame: usize = match frames.alloc_frame() {
                Some(frame) => frame,
                None => {
                    return none;
                },
            };
            let _ = pt.remap(page_addr, new_frame, orig_flags);
            reclaim.defer_frame(old_frame);
            return BackendFault {
                handled: true,
                flushed: none.flushed,
                copied: Some((old_frame, new_frame)),
                sync_executable: orig_flags.execute,
            };
        }
        let joined: MappingFlags = old_flags.union(orig_flags);
        let new_flags: MappingFlags = if self.shared {
            joined
        } else {
            joined.set_write(false)
        };
        if old_flags.contains(new_flags) {
            return BackendFault {
                handled: true,
                flushed: none.flushed,
                copied: None,
                sync_executable: false,
            };
        }
        let _ = pt.remap(page_addr, old_frame, new_flags);
        BackendFault {
            handled: true,
            flushed: none.flushed,
            copied: None,
            sync_executable: new_flags.execute,
        }
    }
}

/// Whether a result and the memory behind it are what `a` says.
pub open spec fn answers(
    r: BackendFault,
    pt: PtMap,
    frames: FrameState,
    reclaims: Reclaims,
    a: Answer,
) -> bool {
    &&& r.handled == a.handled
    &&& r.flushed@ == a.flushed
    &&& r.copied == a.copied
    &&& r.sync_executable == a.sync_executable
    &&& (Memory { pt, frames, reclaims }) == a.memory
}

impl CowMapping {
    /// Answers a fault on a mapping that shares its frames after a fork.
    pub fn handle_page_fault(
        &self,
        vaddr: usize,
        area_end: usize,
        orig_flags: MappingFlags,
        access_flags: MappingFlags,
        sizes: &FileSizes,
        pt: &mut PageTable,
        frames: &mut Frames,
        reclaim: &mut DeferredReclaims,
    ) -> (r: BackendFault)
        requires
            old(pt).wf(),
            old(frames).wf(),
            sizes.wf(),
            old(reclaim)@.has_room(1),
            held_at(old(pt)@, old(frames)@, page_of(vaddr)),
        ensures
            final(pt).wf(),
            final(pt).same_kind(old(pt)),
            final(frames).wf(),
            final(frames).room() >= old(frames).room(),
            answers(
                r,
                final(pt)@,
                final(frames)@,
                final(reclaim)@,
                fault_on(
                    Backend::Cow(*self),
                    Fault {
                        page: page_of(vaddr),
                        area_end,
                        orig: orig_flags,
                        access: access_flags,
                        write_implies_read: old(pt).wr(),
                        limit: old(pt).limit(),
                    },
                    Memory { pt: old(pt)@, frames: old(frames)@, reclaims: old(reclaim)@ },
                    sizes@,
                ),
            ),
        decreases self,
    {
        let page: usize = align_down_4k(vaddr);
        if let Some((old_frame, old_flags, _)) = pt.query(page) {
            if old_frame != 0 && orig_flags.write && access_flags.write && !old_flags.write {
                let mut flushed: Vec<usize> = Vec::new();
                assert(flushed@ =~= Seq::<usize>::empty());
                let new_flags: MappingFlags = old_flags.set_write(true);
                if frames.sharers(old_frame) == 1 {
                    let _ = pt.remap(page, old_frame, new_flags);
                    flushed.push(page);
                    assert(flushed@ =~= seq![page]);
                    return BackendFault {
                        handled: true,
                        flushed,
                        copied: None,
                        sync_executable: new_flags.execute,
                    };
                }
                proof {
                    if frames@.available.len() > 0 {
                        lemma_used_keeps_references(
                            frames@.counts,
                            frames@.available.last(),
                            old_frame,
                        );
                    }
                }
                let new_frame: usize = match frames.alloc_frame() {
                    Some(frame) => frame,
                    None => {
                        return BackendFault {
                            handled: false,
                            flushed,
                            copied: None,
                            sync_executable: false,
                        };
                    },
                };
                let _ = pt.remap(page, new_frame, new_flags);
                frames.dealloc_frame(old_frame);
                flushed.push(page);
                assert(flushed@ =~= seq![page]);
                return BackendFault {
                    handled: true,
                    flushed,
                    copied: Some((old_frame, new_frame)),
                    sync_executable: new_flags.execute,
                };
            }
        }
        (&*self.inner).handle_page_fault(
            vaddr,
            area_end,
            orig_flags,
            access_flags,
            sizes,
            pt,
            frames,
            reclaim,
        )
    }
}

impl Backend {
    /// Answers a page fault with the frames at hand.
    pub fn handle_page_fault(
        &self,
        vaddr: usize,
        area_end: usize,
        orig_flags: MappingFlags,
        access_flags: MappingFlags,
        sizes: &FileSizes,
        pt: &mut PageTable,
        frames: &mut Frames,
        reclaim: &mut DeferredReclaims,
    ) -> (r: BackendFault)
        requires
            old(pt).wf(),
            old(frames).wf(),
            sizes.wf(),
            old(reclaim)@.has_room(1),
            held_at(old(pt)@, old(frames)@, page_of(vaddr)),
        ensures
            final(pt).wf(),
            final(pt).same_kind(old(pt)),
            final(frames).wf(),
            final(frames).room() >= old(frames).room(),
            answers(
                r,
                final(pt)@,
                final(frames)@,
                final(reclaim)@,
                fault_on(
                    *self,
                    Fault {
                        page: page_of(vaddr),
                        area_end,
                        orig: orig_flags,
                        access: access_flags,
                        write_implies_read: old(pt).wr(),
                        limit: old(pt).limit(),
                    },
                    Memory { pt: old(pt)@, frames: old(frames)@, reclaims: old(reclaim)@ },
                    sizes@,
                ),
            ),
        decreases self,
    {
        match self {
            Backend::Shared { .. } | Backend::Linear { .. } => {
                let flushed: Vec<usize> = Vec::new();
                assert(flushed@ =~= Seq::<usize>::empty());
                BackendFault { handled: false, flushed, copied: None, sync_executable: false }
            },
            Backend::Alloc { populate, .. } => {
                let r: AnonFault = Backend::handle_page_fault_alloc(
                    vaddr,
                    area_end,
                    orig_flags,
                    *populate,
                    pt,
                    frames,
                );
                BackendFault {
                    handled: r.handled,
                    flushed: r.flushed,
                    copied: None,
                    sync_executable: false,
                }
            },
            Backend::File(mapping) => {
                let size: usize = sizes.size(mapping.file);
                mapping.handle_page_fault_file(
                    vaddr,
                    area_end,
                    orig_flags,
                    access_flags,
                    size,
                    pt,
                    frames,
                    reclaim,
                )
            },
            Backend::Cow(cow) => cow.handle_page_fault(
                vaddr,
                area_end,
                orig_flags,
                access_flags,
                sizes,
                pt,
                frames,
                reclaim,
            ),
        }
    }
}

/// A write to a page shared since a fork, once it is answered, makes the page
/// writable. Only its sole user keeps the frame. Any other gets a frame that
/// was at hand, to which the old one is copied, and gives the old one up; no
/// other page changes.
pub proof fn lemma_shared_page_becomes_private(
    cow: CowMapping,
    f: Fault,
    m: Memory,
    sizes: Seq<(u64, usize)>,
)
    requires
        pt_wf(m.pt),
        m.frames.wf(),
        aligned_4k(f.page as int),
        pte_at(m.pt, f.page) is Some,
        shown_frame(m.pt, f.page) != 0,
        shown_frame(m.pt, f.page) % 0x1000 == 0,
        !m.frames.available.contains(shown_frame(m.pt, f.page)),
        m.frames.counts.releasable(shown_frame(m.pt, f.page)),
        f.orig.write,
        f.access.write,
        !(pte_at(m.pt, f.page)->0).flags.write,
        fault_on(Backend::Cow(cow), f, m, sizes).handled,
    ensures
        ({
            let a = fault_on(Backend::Cow(cow), f, m, sizes);
            let old_frame = shown_frame(m.pt, f.page);
            let counts = m.frames.counts;
            let sole = counts.has(old_frame) && counts.refs[(old_frame - counts.base) / 0x1000]
                == 1;
            &&& pte_at(a.memory.pt, f.page) matches Some(e) && e.flags.write && e.size == (pte_at(
                m.pt,
                f.page,
            )->0).size && if sole {
                &&& e.frame == old_frame
                &&& a.copied is None
                &&& a.memory.frames == m.frames
            } else {
                &&& a.copied == Some((old_frame, e.frame))
                &&& e.frame != old_frame
                &&& m.frames.available.contains(e.frame)
                &&& !a.memory.frames.available.contains(e.frame)
                &&& counts.has(old_frame) ==> a.memory.frames.counts.refs[(old_frame - counts.base)
                    / 0x1000] == counts.refs[(old_frame - counts.base) / 0x1000] - 1
                &&& a.memory.frames.released == m.frames.released
            }
            &&& a.flushed.contains(f.page)
            &&& forall|q: usize|
                lookup(m.pt, q) != lookup(m.pt, f.page) ==> #[trigger] pte_at(a.memory.pt, q)
                    == pte_at(m.pt, q)
        }),
{
    super::paging::lemma_lookup_finds(m.pt, f.page);
    let b = lookup(m.pt, f.page)->0;
    let e = m.pt[b];
    let a = fault_on(Backend::Cow(cow), f, m, sizes);
    let old_frame = shown_frame(m.pt, f.page);
    assert(resident(m.pt, f.page));
    let n = a.memory.pt[b];
    assert(a.memory.pt =~= m.pt.insert(b, n));
    super::paging::lemma_changed_entry(m.pt, b, n, f.page);
    assert forall|q: usize| lookup(m.pt, q) != lookup(m.pt, f.page) implies #[trigger] pte_at(
        a.memory.pt,
        q,
    ) == pte_at(m.pt, q) by {
        super::paging::lemma_changed_entry(m.pt, b, n, q);
    }
    assert(a.flushed[0] == f.page);
    if a.copied is Some {
        let s = m.frames.available;
        let new_frame = s.last();
        assert(s[s.len() - 1] == new_frame);
        assert(s.contains(new_frame));
        assert(usable_frame(new_frame));
        assert(!s.drop_last().contains(new_frame)) by {
            if s.drop_last().contains(new_frame) {
                let i = choose|i: int| 0 <= i < s.drop_last().len() && s.drop_last()[i] == new_frame;
                assert(s[i] == new_frame);
            }
        }
        if m.frames.counts.has(old_frame) {
            if m.frames.counts.has(new_frame) {
                lemma_counted_apart(m.frames.counts, new_frame, old_frame);
            }
        }
    }
}

/// A write to a page shared since a fork is answered if its sole user makes it or a
/// frame is at hand, and only then. The page is then writable, with the frame that
/// it had or the one that was next at hand.
pub proof fn lemma_write_to_shared_page_is_answered(
    cow: CowMapping,
    f: Fault,
    m: Memory,
    sizes: Seq<(u64, usize)>,
)
    requires
        resident(m.pt, f.page),
        f.orig.write,
        f.access.write,
        !(pte_at(m.pt, f.page)->0).flags.write,
    ensures
        ({
            let a = fault_on(Backend::Cow(cow), f, m, sizes);
            let old_frame = shown_frame(m.pt, f.page);
            let counts = m.frames.counts;
            let sole = counts.has(old_frame) && counts.refs[(old_frame - counts.base) / 0x1000]
                == 1;
            &&& a.handled <==> sole || m.frames.available.len() > 0
            &&& a.handled ==> (pte_at(a.memory.pt, f.page) matches Some(e) && e.flags.write && (
            e.frame == old_frame || e.frame == m.frames.available.last()))
            &&& !a.handled ==> a.memory == m && a.copied is None
        }),
{
    super::paging::lemma_lookup_finds(m.pt, f.page);
    let b = lookup(m.pt, f.page)->0;
    let e = m.pt[b];
    super::paging::lemma_changed_entry(
        m.pt,
        b,
        Pte {
            frame: shown_frame(m.pt, f.page),
            flags: f.stored(e.flags.with_write(true)),
            size: e.size,
        },
        f.page,
    );
    super::paging::lemma_changed_entry(
        m.pt,
        b,
        Pte {
            frame: m.frames.available.last(),
            flags: f.stored(e.flags.with_write(true)),
            size: e.size,
        },
        f.page,
    );
}

} // verus!
