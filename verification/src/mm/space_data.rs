//! Copying to and from a space, writing files back, and taking a space down.
use vstd::prelude::*;

use crate::error::{AxError, AxResult};

use super::area::{areas_wf, lemma_area_wf, max_of, min_of, MemoryArea};
use super::aspace::{AddrSpace, Space};
use super::backend::Backend;
use super::file_map::{size_of_file, FileMapping, FileSizes};
use super::flags::MappingFlags;
use super::frame_table::{FrameState, Frames};
use super::paging::{
    align_down_4k, aligned_4k, is_aligned_4k, lemma_page_in_entry, offset_in, page_of, pt_wf, pte_at,
    shown_frame, PageTable, PtMap, PAGE_SIZE_4K,
};
use super::reclaim::{FileWriteback, FileWritebacks, Writeback};
use super::space_ops::{accessible, covers_from, good_range, lemma_accessible_means_covered};

verus! {

/// The physical address that `va` is translated to.
pub open spec fn translated(pt: PtMap, va: usize) -> Option<(usize, MappingFlags)> {
    match pte_at(pt, va) {
        Some(e) => Some(((e.frame + offset_in(va, e.size)) as usize, e.flags)),
        None => None,
    }
}

/// A run of bytes in one page: where it is in memory, where in the buffer.
#[derive(Clone, Copy, Debug, PartialEq, Eq, Structural)]
pub struct CopyChunk {
    pub paddr: usize,
    pub offset: usize,
    pub size: usize,
}

/// The chunks to copy, in order, and how the copy ends.
pub struct CopyPlan {
    pub chunks: Vec<CopyChunk>,
    pub result: AxResult<()>,
}

/// How many of the bytes that are left lie in the page at `page`.
pub open spec fn chunk_size(start: usize, size: usize, page: int, done: int) -> int {
    let room = if page == page_of(start) {
        0x1000 - start % 0x1000
    } else {
        0x1000
    };
    if size - done < room {
        size - done
    } else {
        room
    }
}

/// The chunks of `[start, start + size)` from `page` on, of which `done` bytes
/// are taken care of. A page that is not there ends it.
pub open spec fn chunks_from(
    pt: PtMap,
    start: usize,
    size: usize,
    page: int,
    done: int,
    chunks: Seq<CopyChunk>,
) -> (AxResult<()>, Seq<CopyChunk>)
    decreases (if page < start + size {
            start + size - page
        } else {
            0
        }),
{
    if page >= start + size {
        (Ok(()), chunks)
    } else {
        match translated(pt, page as usize) {
            None => (Err(AxError::BadAddress), chunks),
            Some((paddr, _)) => if paddr == 0 {
                (Err(AxError::BadAddress), chunks)
            } else if size == done {
                (Ok(()), chunks)
            } else {
                let n = chunk_size(start, size, page, done);
                let skip = if page == page_of(start) {
                    (start % 0x1000) as int
                } else {
                    0
                };
                chunks_from(
                    pt,
                    start,
                    size,
                    page + 0x1000,
                    done + n,
                    chunks.push(
                        CopyChunk {
                            paddr: (paddr + skip) as usize,
                            offset: done as usize,
                            size: n as usize,
                        },
                    ),
                )
            },
        }
    }
}

/// The plan for `[start, start + size)`.
pub open spec fn copy_plan(sp: Space, start: usize, size: usize) -> (
    AxResult<()>,
    Seq<CopyChunk>,
) {
    if !sp.has_range(start, size) {
        (Err(AxError::InvalidInput), Seq::empty())
    } else {
        chunks_from(sp.pt, start, size, page_of(start) as int, 0, Seq::empty())
    }
}

/// The bytes that chunks hold.
pub open spec fn bytes_in(chunks: Seq<CopyChunk>) -> int
    decreases chunks.len(),
{
    if chunks.len() == 0 {
        0
    } else {
        bytes_in(chunks.drop_last()) + chunks.last().size
    }
}

proof fn lemma_chunks_cover_all(
    pt: PtMap,
    start: usize,
    size: usize,
    page: int,
    done: int,
    chunks: Seq<CopyChunk>,
)
    requires
        start + size <= usize::MAX,
        page % 0x1000 == 0,
        bytes_in(chunks) == done,
        0 <= done <= size,
        page == page_of(start) ==> done == 0,
        page > page_of(start) ==> (done == size || start + done == page),
        page >= page_of(start),
    ensures
        ({
            let r = chunks_from(pt, start, size, page, done, chunks);
            r.0 is Ok ==> bytes_in(r.1) == size
        }),
    decreases (if page < start + size {
            start + size - page
        } else {
            0
        }),
{
    if page < start + size {
        match translated(pt, page as usize) {
            Some((paddr, _)) if paddr != 0 && size != done => {
                let n = chunk_size(start, size, page, done);
                let skip = if page == page_of(start) {
                    (start % 0x1000) as int
                } else {
                    0
                };
                let c = CopyChunk {
                    paddr: (paddr + skip) as usize,
                    offset: done as usize,
                    size: n as usize,
                };
                assert(chunks.push(c).drop_last() =~= chunks);
                lemma_chunks_cover_all(pt, start, size, page + 0x1000, done + n, chunks.push(c));
            },
            _ => {},
        }
    }
}

/// A plan that does not fail moves every byte of the range.
pub proof fn lemma_plan_moves_every_byte(sp: Space, start: usize, size: usize)
    requires
        start + size <= usize::MAX,
    ensures
        copy_plan(sp, start, size).0 is Ok ==> bytes_in(copy_plan(sp, start, size).1) == size,
{
    if sp.has_range(start, size) {
        lemma_chunks_cover_all(
            sp.pt,
            start,
            size,
            page_of(start) as int,
            0,
            Seq::empty(),
        );
    }
}

/// Whether every page of `[page, end)` can be written by the user.
pub open spec fn all_writable(pt: PtMap, page: int, end: int) -> bool
    decreases (if page < end {
            end - page
        } else {
            0
        }),
{
    page >= end || {
        &&& translated(pt, page as usize) matches Some((paddr, flags)) && paddr != 0 && flags.write
            && flags.user
        &&& all_writable(pt, page + 0x1000, end)
    }
}

/// Read and user, the permissions of a read on behalf of the user.
pub open spec fn user_read() -> MappingFlags {
    MappingFlags { read: true, user: true, ..MappingFlags::spec_empty() }
}

/// Write and user, the permissions of a write on behalf of the user.
pub open spec fn user_write() -> MappingFlags {
    MappingFlags { write: true, user: true, ..MappingFlags::spec_empty() }
}

/// A range that can be accessed does not end in the last page.
proof fn lemma_accessible_end(s: Seq<MemoryArea>, start: usize, size: usize, access: MappingFlags)
    requires
        areas_wf(s),
        size > 0,
        start + size <= usize::MAX,
        covers_from(s, 0, start as int, start + size, start as int, access),
    ensures
        start + size <= usize::MAX - 0xfff,
{
    let last = start + size - 1;
    lemma_accessible_means_covered(
        s,
        0,
        start as int,
        start + size,
        start as int,
        access,
        last,
    );
    let k = choose|k: int|
        0 <= k < s.len() && (#[trigger] s[k]).has(last) && s[k].flags.has(access);
    lemma_area_wf(s, k);
    assert(s[k].end % 0x1000 == 0);
    assert(usize::MAX % 0x1000 == 0xfff) by {
        assert(usize::MAX == 0xffff_ffff || usize::MAX == 0xffff_ffff_ffff_ffff);
    }
}

impl AddrSpace {
    /// The chunks of `[start, start + size)`, page by page.
    pub fn process_area_data(&self, start: usize, size: usize) -> (r: CopyPlan)
        requires
            self.wf(),
        ensures
            (r.result, r.chunks@) == copy_plan(self@, start, size),
    {
        proof {
            self.lemma_parts();
        }
        let mut chunks: Vec<CopyChunk> = Vec::new();
        if !self.contains_range(start, size) {
            return CopyPlan { chunks, result: Err(AxError::InvalidInput) };
        }
        let first: usize = align_down_4k(start);
        let end: usize = start + size;
        let mut page: usize = first;
        let mut done: usize = 0;
        while page < end
            invariant
                self.wf(),
                self.pt.wf(),
                self.pt@ == self@.pt,
                self@.has_range(start, size),
                first == page_of(start),
                end == start + size,
                end <= usize::MAX - 0xfff,
                first <= page,
                aligned_4k(page as int),
                done <= size,
                page == first ==> done == 0,
                page > first ==> (done == size || start + done == page),
                copy_plan(self@, start, size) == chunks_from(
                    self@.pt,
                    start,
                    size,
                    page as int,
                    done as int,
                    chunks@,
                ),
            decreases end + 0xfff - page,
        {
            let paddr: usize = match self.pt.query(page) {
                Some((paddr, _, _)) => paddr,
                None => {
                    return CopyPlan { chunks, result: Err(AxError::BadAddress) };
                },
            };
            if paddr == 0 {
                return CopyPlan { chunks, result: Err(AxError::BadAddress) };
            }
            if size == done {
                return CopyPlan { chunks, result: Ok(()) };
            }
            let skip: usize = if page == first {
                start % PAGE_SIZE_4K
            } else {
                0
            };
            let room: usize = PAGE_SIZE_4K - skip;
            let n: usize = if size - done < room {
                size - done
            } else {
                room
            };
            proof {
                lemma_page_in_entry(self@.pt, page);
            }
            chunks.push(CopyChunk { paddr: paddr + skip, offset: done, size: n });
            done = done + n;
            page = page + PAGE_SIZE_4K;
        }
        CopyPlan { chunks, result: Ok(()) }
    }

    /// What a read of `len` bytes at `start` copies.
    pub fn read(&self, start: usize, len: usize) -> (r: CopyPlan)
        requires
            self.wf(),
        ensures
            (r.result, r.chunks@) == if len == 0 {
                (Ok(()), Seq::empty())
            } else if !accessible(self@, start, len, user_read()) {
                (Err(AxError::BadAddress), Seq::empty())
            } else {
                copy_plan(self@, start, len)
            },
    {
        if len == 0 {
            return CopyPlan { chunks: Vec::new(), result: Ok(()) };
        }
        let mut access: MappingFlags = MappingFlags::empty();
        access.read = true;
        access.user = true;
        if !self.can_access_range(start, len, access) {
            return CopyPlan { chunks: Vec::new(), result: Err(AxError::BadAddress) };
        }
        self.process_area_data(start, len)
    }

    /// What a write of `len` bytes at `start` copies. A page that is not there
    /// yet, or that must not be written before it is copied, ends it before
    /// anything is written.
    pub fn write(&self, start: usize, len: usize) -> (r: CopyPlan)
        requires
            self.wf(),
        ensures
            (r.result, r.chunks@) == if len == 0 {
                (Ok(()), Seq::empty())
            } else if !accessible(self@, start, len, user_write()) || !all_writable(
                self@.pt,
                page_of(start) as int,
                start + len,
            ) {
                (Err(AxError::BadAddress), Seq::empty())
            } else {
                copy_plan(self@, start, len)
            },
    {
        if len == 0 {
            return CopyPlan { chunks: Vec::new(), result: Ok(()) };
        }
        let mut access: MappingFlags = MappingFlags::empty();
        access.write = true;
        access.user = true;
        if !self.can_access_range(start, len, access) {
            return CopyPlan { chunks: Vec::new(), result: Err(AxError::BadAddress) };
        }
        proof {
            self.lemma_parts();
            lemma_accessible_end(self.areas@, start, len, user_write());
        }
        let end: usize = start + len;
        let mut page: usize = align_down_4k(start);
        while page < end
            invariant
                self.wf(),
                self.pt.wf(),
                self.pt@ == self@.pt,
                end == start + len,
                len != 0,
                end <= usize::MAX - 0xfff,
                aligned_4k(page as int),
                all_writable(self@.pt, page_of(start) as int, start + len) == all_writable(
                    self@.pt,
                    page as int,
                    end as int,
                ),
            decreases end + 0xfff - page,
        {
            let good: bool = match self.pt.query(page) {
                Some((paddr, flags, _)) => paddr != 0 && flags.write && flags.user,
                None => false,
            };
            if !good {
                return CopyPlan { chunks: Vec::new(), result: Err(AxError::BadAddress) };
            }
            page = page + PAGE_SIZE_4K;
        }
        self.process_area_data(start, len)
    }

    /// The frame behind a user page, which is kept from being freed.
    pub fn pin_user_frame(&self, vaddr: usize, required_flags: MappingFlags, frames: &mut Frames) -> (r:
        AxResult<usize>)
        requires
            self.wf(),
            old(frames).wf(),
            old(frames).room() > 0,
        ensures
            final(frames).wf(),
            match translated(self@.pt, vaddr) {
                Some((paddr, flags)) if paddr != 0 && flags.user && flags.has(required_flags) => {
                    &&& r == Ok::<usize, AxError>(paddr)
                    &&& final(frames)@ == (FrameState {
                        counts: old(frames)@.counts.inc(paddr),
                        ..old(frames)@
                    })
                },
                _ => {
                    &&& r == Err::<usize, AxError>(AxError::BadAddress)
                    &&& final(frames)@ == old(frames)@
                },
            },
    {
        proof {
            self.lemma_parts();
        }
        match self.pt.query(vaddr) {
            None => Err(AxError::BadAddress),
            Some((paddr, flags, _)) => {
                if paddr == 0 || !flags.user || !flags.contains(required_flags) {
                    return Err(AxError::BadAddress);
                }
                frames.cow_inc_frame_ref(paddr);
                Ok(paddr)
            },
        }
    }
}

/// The page of a file that backs the page at `page_addr`: the file and the
/// number of the page in it.
pub open spec fn file_page(backend: Backend, page_addr: usize, sizes: Seq<(u64, usize)>) -> Option<
    (u64, u32),
> {
    match backend.bottom() {
        Backend::File(m) => match m.window(page_addr as int, size_of_file(sizes, m.file)) {
            Some(w) => if w.0 / 0x1000 <= u32::MAX {
                Some((m.file, (w.0 / 0x1000) as u32))
            } else {
                None
            },
            None => None,
        },
        _ => None,
    }
}

/// The pages of a shared file mapping in `[page, end)` that may have been
/// written, by their numbers in the file.
pub open spec fn written_pages(
    pt: PtMap,
    m: FileMapping,
    file_size: usize,
    page: int,
    end: int,
    found: Seq<u32>,
) -> Seq<u32>
    decreases (if page < end {
            end - page
        } else {
            0
        }),
{
    if page >= end {
        found
    } else {
        written_pages(
            pt,
            m,
            file_size,
            page + 0x1000,
            end,
            match (translated(pt, page as usize), m.window(page, file_size)) {
                (Some((paddr, flags)), Some(w)) => if flags.write && paddr != 0 {
                    found.push((w.0 / 0x1000) as u32)
                } else {
                    found
                },
                _ => found,
            },
        )
    }
}

/// The writebacks after those of `[start, end)` in a mapping of `backend`:
/// only a shared mapping of a file has any.
pub open spec fn with_written(
    backend: Backend,
    pt: PtMap,
    start: usize,
    end: int,
    sync: bool,
    sizes: Seq<(u64, usize)>,
    w: Seq<Writeback>,
) -> Seq<Writeback> {
    match backend.bottom() {
        Backend::File(m) => if m.shared && start < end {
            w.push(
                Writeback {
                    file: m.file,
                    pages: written_pages(
                        pt,
                        m,
                        size_of_file(sizes, m.file),
                        start as int,
                        end,
                        Seq::empty(),
                    ),
                    sync,
                },
            )
        } else {
            w
        },
        _ => w,
    }
}

/// The writebacks of the areas in `[lo, hi)` from the `i`-th on.
pub open spec fn written_areas(
    s: Seq<MemoryArea>,
    i: int,
    pt: PtMap,
    lo: usize,
    hi: usize,
    sync: bool,
    sizes: Seq<(u64, usize)>,
    w: Seq<Writeback>,
) -> Seq<Writeback>
    decreases s.len() - i,
{
    if i >= s.len() {
        w
    } else {
        written_areas(
            s,
            i + 1,
            pt,
            lo,
            hi,
            sync,
            sizes,
            if s[i].meets(lo as int, hi as int) {
                with_written(
                    s[i].backend,
                    pt,
                    max_of(s[i].start, lo),
                    min_of(s[i].end, hi) as int,
                    sync,
                    sizes,
                    w,
                )
            } else {
                w
            },
        )
    }
}

impl FileMapping {
    pub fn is_shared(&self) -> (r: bool)
        ensures
            r == self.shared,
    {
        self.shared
    }

    pub fn file_offset(&self) -> (r: usize)
        ensures
            r == self.file_offset,
    {
        self.file_offset
    }

    /// The file.
    pub fn file(&self) -> (r: u64)
        ensures
            r == self.file,
    {
        self.file
    }

    /// How long the file is now.
    pub fn file_bytes(&self, sizes: &FileSizes) -> (r: usize)
        ensures
            r == size_of_file(sizes@, self.file),
    {
        sizes.size(self.file)
    }

    fn list_written(&self, start: usize, end: usize, file_size: usize, pt: &PageTable) -> (r: Vec<
        u32,
    >)
        requires
            pt.wf(),
            start <= end,
            aligned_4k(start as int),
            aligned_4k(end as int),
        ensures
            r@ == written_pages(pt@, *self, file_size, start as int, end as int, Seq::empty()),
    {
        let mut found: Vec<u32> = Vec::new();
        let mut page: usize = start;
        while page < end
            invariant
                pt.wf(),
                start <= page <= end,
                aligned_4k(page as int),
                aligned_4k(end as int),
                written_pages(pt@, *self, file_size, start as int, end as int, Seq::empty())
                    == written_pages(pt@, *self, file_size, page as int, end as int, found@),
            decreases end - page,
        {
            if let Some((paddr, flags, _)) = pt.query(page) {
                if flags.write && paddr != 0 {
                    if let Some((offset, _)) = self.page_read_window_at_size(page, file_size) {
                        found.push((offset / 0x1000) as u32);
                    }
                }
            }
            page = page + PAGE_SIZE_4K;
        }
        found
    }
}

impl Backend {
    /// The page of a file whose presence in the file's cache makes the page at
    /// `page_addr` resident.
    pub fn is_file_page_cached(&self, page_addr: usize, sizes: &FileSizes) -> (r: Option<
        (u64, u32),
    >)
        ensures
            r == file_page(*self, page_addr, sizes@),
        decreases self,
    {
        match self {
            Backend::File(m) => {
                match m.page_read_window_at_size(page_addr, sizes.size(m.file)) {
                    Some((offset, _)) => {
                        let number: u64 = offset / 0x1000;
                        if number <= u32::MAX as u64 {
                            Some((m.file, number as u32))
                        } else {
                            None
                        }
                    },
                    None => None,
                }
            },
            Backend::Cow(cow) => (&*cow.inner).is_file_page_cached(page_addr, sizes),
            _ => None,
        }
    }

    /// Adds the written pages of `[start, start + size)` to `writebacks`.
    /// Fails where the range does not start and end at page boundaries.
    pub fn prepare_file_writeback_range(
        &self,
        start: usize,
        size: usize,
        sync: bool,
        sizes: &FileSizes,
        pt: &PageTable,
        writebacks: &mut FileWritebacks,
    ) -> (r: bool)
        requires
            pt.wf(),
            start + size <= usize::MAX,
        ensures
            ({
                let bad = size != 0 && (self.bottom() matches Backend::File(m) && m.shared) && !(
                aligned_4k(start as int) && aligned_4k(start + size));
                &&& r == !bad
                &&& final(writebacks)@ == if bad {
                    old(writebacks)@
                } else {
                    with_written(*self, pt@, start, start + size, sync, sizes@, old(writebacks)@)
                }
            }),
        decreases self,
    {
        match self {
            Backend::File(m) => {
                if !m.shared || size == 0 {
                    return true;
                }
                let end: usize = start + size;
                if !is_aligned_4k(start) || !is_aligned_4k(end) {
                    return false;
                }
                let page_numbers: Vec<u32> = m.list_written(start, end, sizes.size(m.file), pt);
                writebacks.push(FileWriteback { file: m.file, page_numbers, sync });
                true
            },
            Backend::Cow(cow) => (&*cow.inner).prepare_file_writeback_range(
                start,
                size,
                sync,
                sizes,
                pt,
                writebacks,
            ),
            _ => true,
        }
    }
}

fn lists_page(cached: &Vec<(u64, u32)>, file: u64, page: u32) -> (r: bool)
    ensures
        r == cached@.contains((file, page)),
{
    let mut i: usize = 0;
    while i < cached.len()
        invariant
            i <= cached@.len(),
            forall|k: int| 0 <= k < i ==> cached@[k] != (file, page),
        decreases cached@.len() - i,
    {
        if cached[i].0 == file && cached[i].1 == page {
            assert(cached@[i as int] == (file, page));
            return true;
        }
        i = i + 1;
    }
    false
}

impl AddrSpace {
    /// The page of a file that can make `vaddr` resident though it is not in
    /// the page table.
    pub fn file_page_at(&self, vaddr: usize, sizes: &FileSizes) -> (r: Option<(u64, u32)>)
        ensures
            r == match self@.area_at(vaddr as int) {
                Some(a) => file_page(a.backend, vaddr, sizes@),
                None => None,
            },
    {
        proof {
            self.lemma_parts();
        }
        match self.areas.find(vaddr) {
            Some(i) => self.areas.get(i).backend.is_file_page_cached(vaddr, sizes),
            None => None,
        }
    }

    /// Whether a page is mapped or in the cache of the file behind it, where
    /// `cached` says which pages of files are in a cache.
    pub fn page_is_resident(&self, vaddr: usize, sizes: &FileSizes, cached: &Vec<(u64, u32)>) -> (r:
        bool)
        requires
            self.wf(),
        ensures
            r == ((translated(self@.pt, vaddr) matches Some((paddr, _)) && paddr != 0) || (
            self@.area_at(vaddr as int) matches Some(a) && file_page(
                a.backend,
                vaddr,
                sizes@,
            ) matches Some(page) && cached@.contains(page))),
    {
        proof {
            self.lemma_parts();
        }
        if let Some((paddr, _, _)) = self.pt.query(vaddr) {
            if paddr != 0 {
                return true;
            }
        }
        match self.file_page_at(vaddr, sizes) {
            None => false,
            Some((file, page)) => lists_page(cached, file, page),
        }
    }

    /// The writebacks of the shared file mappings in a range.
    pub fn prepare_file_writeback_range(
        &self,
        start: usize,
        size: usize,
        sync: bool,
        sizes: &FileSizes,
    ) -> (r: AxResult<FileWritebacks>)
        requires
            self.wf(),
        ensures
            match r {
                Ok(w) => (size == 0 || good_range(self@, start, size)) && w@ == if size == 0 {
                    Seq::empty()
                } else {
                    written_areas(
                        self@.areas,
                        0,
                        self@.pt,
                        start,
                        (start + size) as usize,
                        sync,
                        sizes@,
                        Seq::empty(),
                    )
                },
                Err(e) => e == AxError::InvalidInput && size != 0 && !good_range(
                    self@,
                    start,
                    size,
                ),
            },
    {
        proof {
            self.lemma_parts();
        }
        if size == 0 {
            return Ok(FileWritebacks::default());
        }
        if !self.contains_range(start, size) || !is_aligned_4k(start) || !is_aligned_4k(size) {
            return Err(AxError::InvalidInput);
        }
        let lo: usize = start;
        let hi: usize = start + size;
        let ghost s = self.areas@;
        let mut writebacks: FileWritebacks = FileWritebacks::default();
        let mut i: usize = 0;
        while i < self.areas.len()
            invariant
                i <= s.len(),
                s == self.areas@,
                areas_wf(s),
                lo < hi,
                aligned_4k(lo as int),
                aligned_4k(hi as int),
                self.pt.wf(),
                written_areas(s, 0, self.pt@, lo, hi, sync, sizes@, Seq::empty()) == written_areas(
                    s,
                    i as int,
                    self.pt@,
                    lo,
                    hi,
                    sync,
                    sizes@,
                    writebacks@,
                ),
            decreases s.len() - i,
        {
            proof {
                lemma_area_wf(s, i as int);
            }
            let area: &MemoryArea = self.areas.get(i);
            if area.start < hi && lo < area.end {
                let from: usize = if area.start > lo {
                    area.start
                } else {
                    lo
                };
                let to: usize = if area.end < hi {
                    area.end
                } else {
                    hi
                };
                let ok: bool = area.backend.prepare_file_writeback_range(
                    from,
                    to - from,
                    sync,
                    sizes,
                    &self.pt,
                    &mut writebacks,
                );
                assert(ok);
            }
            i = i + 1;
        }
        Ok(writebacks)
    }

    /// The areas in order.
    pub fn for_each_area_with_backend(&self) -> (r: Vec<MemoryArea>)
        ensures
            r@ == self@.areas,
    {
        proof {
            self.lemma_parts();
        }
        let mut r: Vec<MemoryArea> = Vec::new();
        let mut i: usize = 0;
        while i < self.areas.len()
            invariant
                i <= self.areas@.len(),
                r@ == self.areas@.take(i as int),
            decreases self.areas@.len() - i,
        {
            r.push(self.areas.get(i).clone());
            i = i + 1;
            assert(r@ =~= self.areas@.take(i as int));
        }
        assert(self.areas@.take(i as int) =~= self.areas@);
        r
    }

    /// Where the areas start and end, and their permissions, in order.
    pub fn for_each_area(&self) -> (r: Vec<(usize, usize, MappingFlags)>)
        ensures
            r@ == self@.areas.map_values(|a: MemoryArea| (a.start, a.end, a.flags)),
    {
        proof {
            self.lemma_parts();
        }
        let mut r: Vec<(usize, usize, MappingFlags)> = Vec::new();
        let mut i: usize = 0;
        while i < self.areas.len()
            invariant
                i <= self.areas@.len(),
                r@.len() == i,
                forall|k: int|
                    0 <= k < i ==> r@[k] == (
                        self.areas@[k].start,
                        self.areas@[k].end,
                        self.areas@[k].flags,
                    ),
            decreases self.areas@.len() - i,
        {
            let a: &MemoryArea = self.areas.get(i);
            r.push((a.start, a.end, a.flags));
            i = i + 1;
        }
        assert(r@ =~= self@.areas.map_values(|a: MemoryArea| (a.start, a.end, a.flags)));
        r
    }

    /// The range whose upper-level entries this space takes over from `other`:
    /// all of `other`, which must not meet this space.
    pub fn copy_mappings_from(&self, other: &AddrSpace) -> (r: AxResult<(usize, usize)>)
        requires
            other.wf(),
        ensures
            r == if self@.base < other@.end && other@.base < self@.end {
                Err::<(usize, usize), AxError>(AxError::InvalidInput)
            } else {
                Ok((other@.base, (other@.end - other@.base) as usize))
            },
    {
        proof {
            self.lemma_parts();
            other.lemma_parts();
        }
        if self.base < other.end && other.base < self.end {
            return Err(AxError::InvalidInput);
        }
        Ok((other.base, other.end - other.base))
    }
}

/// Whether chunks follow each other from the start of the buffer up to `done`,
/// each within one page and at the place in memory that its addresses are
/// translated to.
#[verifier::opaque]
pub open spec fn chunks_fit(pt: PtMap, start: usize, chunks: Seq<CopyChunk>, done: int) -> bool {
    &&& chunks.len() == 0 ==> done == 0
    &&& chunks.len() > 0 ==> chunks[0].offset == 0 && chunks.last().offset + chunks.last().size
        == done
    &&& forall|i: int|
        0 <= i < chunks.len() ==> {
            let c = #[trigger] chunks[i];
            let at = start + c.offset;
            let page = (at - at % 0x1000) as usize;
            &&& c.size > 0
            &&& at % 0x1000 + c.size <= 0x1000
            &&& pte_at(pt, page) is Some
            &&& shown_frame(pt, page) != 0
            &&& c.paddr == shown_frame(pt, page) + at % 0x1000
        }
    &&& forall|i: int|
        0 < i < chunks.len() ==> (#[trigger] chunks[i]).offset == chunks[i - 1].offset + chunks[i
            - 1].size
}

#[verifier::rlimit(40)]
#[verifier::spinoff_prover]
proof fn lemma_chunks_fit(
    pt: PtMap,
    start: usize,
    size: usize,
    page: int,
    done: int,
    chunks: Seq<CopyChunk>,
)
    requires
        pt_wf(pt),
        start + size <= usize::MAX,
        page % 0x1000 == 0,
        chunks_fit(pt, start, chunks, done),
        0 <= done <= size,
        page == page_of(start) ==> done == 0,
        page > page_of(start) ==> (done == size || start + done == page),
        page >= page_of(start),
    ensures
        ({
            let r = chunks_from(pt, start, size, page, done, chunks);
            r.0 is Ok ==> chunks_fit(pt, start, r.1, size as int)
        }),
    decreases (if page < start + size {
            start + size - page
        } else {
            0
        }),
{
    reveal(chunks_fit);
    if page < start + size {
        match translated(pt, page as usize) {
            Some((paddr, _)) => if paddr != 0 && size != done {
                let n = chunk_size(start, size, page, done);
                let skip = if page == page_of(start) {
                    (start % 0x1000) as int
                } else {
                    0
                };
                let c = CopyChunk {
                    paddr: (paddr + skip) as usize,
                    offset: done as usize,
                    size: n as usize,
                };
                let at = start + done;
                assert(at - at % 0x1000 == page && at % 0x1000 == skip);
                lemma_page_in_entry(pt, page as usize);
                let more = chunks.push(c);
                assert(more.last() == c);
                assert forall|i: int| 0 < i < more.len() implies (#[trigger] more[i]).offset
                    == more[i - 1].offset + more[i - 1].size by {
                    if i < chunks.len() {
                        assert(more[i] == chunks[i] && more[i - 1] == chunks[i - 1]);
                    } else {
                        assert(more[i - 1] == chunks.last());
                    }
                }
                assert(chunks_fit(pt, start, more, done + n)) by {
                    assert forall|i: int| 0 <= i < more.len() implies {
                        let c = #[trigger] more[i];
                        let at = start + c.offset;
                        let page = (at - at % 0x1000) as usize;
                        &&& c.size > 0
                        &&& at % 0x1000 + c.size <= 0x1000
                        &&& pte_at(pt, page) is Some
                        &&& shown_frame(pt, page) != 0
                        &&& c.paddr == shown_frame(pt, page) + at % 0x1000
                    } by {
                        if i < chunks.len() {
                            assert(more[i] == chunks[i]);
                        }
                    }
                }
                lemma_chunks_fit(pt, start, size, page + 0x1000, done + n, more);
            },
            None => {},
        }
    }
}

/// A copy that does not fail moves each byte between its place in the buffer and
/// the memory that its address is translated to, without a gap and in order.
#[verifier::rlimit(40)]
#[verifier::spinoff_prover]
pub proof fn lemma_plan_follows_the_translation(sp: Space, start: usize, size: usize)
    requires
        pt_wf(sp.pt),
        start + size <= usize::MAX,
        copy_plan(sp, start, size).0 is Ok,
        size > 0,
    ensures
        sp.base <= start && start + size <= sp.end,
        chunks_fit(sp.pt, start, copy_plan(sp, start, size).1, size as int),
{
    assert(chunks_fit(sp.pt, start, Seq::empty(), 0)) by {
        reveal(chunks_fit);
    }
    lemma_chunks_fit(sp.pt, start, size, page_of(start) as int, 0, Seq::empty());
}

/// The pages of a shared file that are written back are those that have a frame
/// and can be written, each under its number in the file.
pub proof fn lemma_written_pages(
    pt: PtMap,
    m: FileMapping,
    file_size: usize,
    page: int,
    end: int,
    found: Seq<u32>,
    q: int,
)
    requires
        0 <= page,
        page % 0x1000 == 0,
        q % 0x1000 == 0,
        page <= q < end <= usize::MAX,
    ensures
        ({
            let all = written_pages(pt, m, file_size, page, end, found);
            &&& forall|n: u32| #[trigger] found.contains(n) ==> all.contains(n)
            &&& pte_at(pt, q as usize) is Some && shown_frame(pt, q as usize) != 0 && (pte_at(
                pt,
                q as usize,
            )->0).flags.write && m.start <= q && q - m.start < m.file_bytes && m.file_offset
                + m.file_bytes <= usize::MAX && m.file_offset + (q - m.start) < file_size
                ==> all.contains(((m.file_offset + (q - m.start)) / 0x1000) as u32)
        }),
    decreases q - page,
{
    let all = written_pages(pt, m, file_size, page, end, found);
    let next = match (translated(pt, page as usize), m.window(page, file_size)) {
        (Some((paddr, flags)), Some(w)) => if flags.write && paddr != 0 {
            found.push((w.0 / 0x1000) as u32)
        } else {
            found
        },
        _ => found,
    };
    assert(all == written_pages(pt, m, file_size, page + 0x1000, end, next));
    assert forall|n: u32| #[trigger] found.contains(n) implies next.contains(n) by {
        let i = choose|i: int| 0 <= i < found.len() && found[i] == n;
        assert(next[i] == n);
    }
    lemma_written_pages_keep(pt, m, file_size, page + 0x1000, end, next);
    if q == page {
        if next != found {
            assert(next[found.len() as int] == next.last());
            assert(next.contains(next.last()));
        }
    } else {
        lemma_written_pages(pt, m, file_size, page + 0x1000, end, next, q);
    }
}

proof fn lemma_written_pages_keep(
    pt: PtMap,
    m: FileMapping,
    file_size: usize,
    page: int,
    end: int,
    found: Seq<u32>,
)
    ensures
        forall|n: u32| #[trigger]
            found.contains(n) ==> written_pages(pt, m, file_size, page, end, found).contains(n),
    decreases (if page < end {
            end - page
        } else {
            0
        }),
{
    if page < end {
        let next = match (translated(pt, page as usize), m.window(page, file_size)) {
            (Some((paddr, flags)), Some(w)) => if flags.write && paddr != 0 {
                found.push((w.0 / 0x1000) as u32)
            } else {
                found
            },
            _ => found,
        };
        assert forall|n: u32| #[trigger] found.contains(n) implies next.contains(n) by {
            let i = choose|i: int| 0 <= i < found.len() && found[i] == n;
            assert(next[i] == n);
        }
        lemma_written_pages_keep(pt, m, file_size, page + 0x1000, end, next);
    }
}

/// Where a range counts as writable for the user, each of its pages has a frame
/// and allows the user to write.
pub proof fn lemma_writable_range(pt: PtMap, page: int, end: int, q: int)
    requires
        0 <= page,
        page % 0x1000 == 0,
        q % 0x1000 == 0,
        page <= q < end <= usize::MAX,
        all_writable(pt, page, end),
    ensures
        pte_at(pt, q as usize) is Some,
        shown_frame(pt, q as usize) != 0,
        (pte_at(pt, q as usize)->0).flags.write,
        (pte_at(pt, q as usize)->0).flags.user,
    decreases q - page,
{
    if page < q {
        lemma_writable_range(pt, page + 0x1000, end, q);
    }
}

} // verus!
