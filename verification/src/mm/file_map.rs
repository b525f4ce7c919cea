//! File-backed mappings: which part of a file a page shows, how far a fault
//! reads ahead, and how loaded pages become visible in the page table.
use vstd::prelude::*;

use crate::error::{AxError, AxResult};

use super::flags::{FileFlags, MappingFlags};
use super::frame_table::frame_in_range;
use super::paging::{align_down_4k, page_of, resident, PageTable, PtMap, PAGE_SIZE_4K};

verus! {

/// How many pages a sequential fault brings in.
pub const FILE_FAULT_AROUND_PAGES: usize = 16;

/// How many pages a fault brings in that does not follow an earlier one.
pub const COLD_FILE_FAULT_AROUND_PAGES: usize = 4;

/// The bytes of the file that the page at `page_addr` shows: their offset and
/// how many there are. `None` for a page outside the mapping or the file.
pub open spec fn read_window(
    mapping_start: usize,
    file_offset: usize,
    mapped_bytes: usize,
    file_size: usize,
    page_addr: int,
) -> Option<(u64, usize)> {
    let limit = if file_offset + mapped_bytes < file_size {
        file_offset + mapped_bytes
    } else {
        file_size as int
    };
    let at = file_offset + (page_addr - mapping_start);
    if page_addr < mapping_start || file_offset + mapped_bytes > usize::MAX || at >= limit {
        None
    } else {
        Some(
            (
                at as u64,
                if limit - at < 0x1000 {
                    (limit - at) as usize
                } else {
                    0x1000
                },
            ),
        )
    }
}

pub fn file_page_read_window(
    mapping_start: usize,
    file_offset: usize,
    mapped_bytes: usize,
    file_size: usize,
    page_addr: usize,
) -> (r: Option<(u64, usize)>)
    ensures
        r == read_window(mapping_start, file_offset, mapped_bytes, file_size, page_addr as int),
        r matches Some(w) ==> {
            &&& mapping_start <= page_addr
            &&& w.0 == file_offset + (page_addr - mapping_start)
            &&& 1 <= w.1 <= 0x1000
            &&& w.0 + w.1 <= file_size
            &&& w.0 + w.1 <= file_offset + mapped_bytes
            &&& w.1 < 0x1000 ==> w.0 + w.1 == file_size || w.0 + w.1 == file_offset + mapped_bytes
        },
        r is None ==> page_addr < mapping_start || file_offset + mapped_bytes > usize::MAX
            || file_offset + (page_addr - mapping_start) >= file_size || page_addr - mapping_start
            >= mapped_bytes,
{
    if page_addr < mapping_start {
        return None;
    }
    let relative: usize = page_addr - mapping_start;
    let mapping_end: usize = match file_offset.checked_add(mapped_bytes) {
        Some(end) => end,
        None => {
            return None;
        },
    };
    let limit_offset: usize = if mapping_end < file_size {
        mapping_end
    } else {
        file_size
    };
    let at: usize = match file_offset.checked_add(relative) {
        Some(at) => at,
        None => {
            return None;
        },
    };
    if at >= limit_offset {
        return None;
    }
    let rest: usize = limit_offset - at;
    let read_len: usize = if rest < PAGE_SIZE_4K {
        rest
    } else {
        PAGE_SIZE_4K
    };
    Some((at as u64, read_len))
}

/// A window stays inside the mapping and inside the file.
pub proof fn lemma_window_bounds(
    mapping_start: usize,
    file_offset: usize,
    mapped_bytes: usize,
    file_size: usize,
    page_addr: int,
)
    ensures
        read_window(mapping_start, file_offset, mapped_bytes, file_size, page_addr) matches Some(w)
            ==> {
            &&& 0 < w.1 <= 0x1000
            &&& w.0 + w.1 <= file_size
            &&& file_offset <= w.0
            &&& w.0 + w.1 <= file_offset + mapped_bytes
        },
{
}

/// Whether the page at `addr` belongs to the area and shows a part of the file.
pub open spec fn shows_file(
    mapping_start: usize,
    file_offset: usize,
    mapped_bytes: usize,
    file_size: usize,
    addr: int,
    area_end: usize,
) -> bool {
    addr < area_end && read_window(mapping_start, file_offset, mapped_bytes, file_size, addr)
        is Some
}

/// How many pages in a row from `first` on show the file, counting from the
/// `k`-th, up to the fault-around limit.
pub open spec fn pages_in_a_row(
    mapping_start: usize,
    file_offset: usize,
    mapped_bytes: usize,
    file_size: usize,
    first: int,
    area_end: usize,
    k: nat,
) -> nat
    decreases 16 - k,
{
    if k >= 16 || !shows_file(
        mapping_start,
        file_offset,
        mapped_bytes,
        file_size,
        first + k * 0x1000,
        area_end,
    ) {
        k
    } else {
        pages_in_a_row(
            mapping_start,
            file_offset,
            mapped_bytes,
            file_size,
            first,
            area_end,
            (k + 1) as nat,
        )
    }
}

/// How many pages a fault at `first` can bring in. `None` when the search runs
/// past the last address.
pub open spec fn fault_around(
    mapping_start: usize,
    file_offset: usize,
    mapped_bytes: usize,
    file_size: usize,
    first: usize,
    area_end: usize,
) -> Option<nat> {
    let n = pages_in_a_row(
        mapping_start,
        file_offset,
        mapped_bytes,
        file_size,
        first as int,
        area_end,
        0,
    );
    if n < 16 && first + n * 0x1000 > usize::MAX {
        None
    } else {
        Some(n)
    }
}

pub(crate) proof fn lemma_pages_in_a_row_bounds(
    mapping_start: usize,
    file_offset: usize,
    mapped_bytes: usize,
    file_size: usize,
    first: int,
    area_end: usize,
    k: nat,
)
    requires
        k <= 16,
    ensures
        k <= pages_in_a_row(
            mapping_start,
            file_offset,
            mapped_bytes,
            file_size,
            first,
            area_end,
            k,
        ) <= 16,
        forall|j: nat|
            k <= j < pages_in_a_row(
                mapping_start,
                file_offset,
                mapped_bytes,
                file_size,
                first,
                area_end,
                k,
            ) ==> #[trigger] shows_file(
                mapping_start,
                file_offset,
                mapped_bytes,
                file_size,
                first + j * 0x1000,
                area_end,
            ),
    decreases 16 - k,
{
    if k < 16 && shows_file(
        mapping_start,
        file_offset,
        mapped_bytes,
        file_size,
        first + k * 0x1000,
        area_end,
    ) {
        lemma_pages_in_a_row_bounds(
            mapping_start,
            file_offset,
            mapped_bytes,
            file_size,
            first,
            area_end,
            (k + 1) as nat,
        );
    }
}

fn count_fault_around(
    mapping_start: usize,
    file_offset: usize,
    mapped_bytes: usize,
    file_size: usize,
    first: usize,
    area_end: usize,
) -> (r: Option<usize>)
    ensures
        match r {
            Some(n) => fault_around(
                mapping_start,
                file_offset,
                mapped_bytes,
                file_size,
                first,
                area_end,
            ) == Some(n as nat) && n <= 16,
            None => fault_around(
                mapping_start,
                file_offset,
                mapped_bytes,
                file_size,
                first,
                area_end,
            ) is None,
        },
{
    let mut n: usize = 0;
    while n < FILE_FAULT_AROUND_PAGES
        invariant
            n <= 16,
            pages_in_a_row(
                mapping_start,
                file_offset,
                mapped_bytes,
                file_size,
                first as int,
                area_end,
                0,
            ) == pages_in_a_row(
                mapping_start,
                file_offset,
                mapped_bytes,
                file_size,
                first as int,
                area_end,
                n as nat,
            ),
        decreases 16 - n,
    {
        let candidate: usize = match first.checked_add(n * PAGE_SIZE_4K) {
            Some(candidate) => candidate,
            None => {
                return None;
            },
        };
        if candidate >= area_end || file_page_read_window(
            mapping_start,
            file_offset,
            mapped_bytes,
            file_size,
            candidate,
        ).is_none() {
            return Some(n);
        }
        n = n + 1;
    }
    Some(n)
}

/// The pages that a read-ahead behind `first_page` asks for: the number of the
/// first one in the file and how many there are.
pub open spec fn spec_prefetch_range(
    mapping_start: usize,
    file_offset: usize,
    mapped_bytes: usize,
    file_size: usize,
    first_page: usize,
    area_end: usize,
) -> Option<(u32, usize)> {
    match (
        read_window(mapping_start, file_offset, mapped_bytes, file_size, first_page as int),
        fault_around(mapping_start, file_offset, mapped_bytes, file_size, first_page, area_end),
    ) {
        (Some(w), Some(n)) => if w.0 / 0x1000 <= u32::MAX && n != 0 {
            Some(((w.0 / 0x1000) as u32, n as usize))
        } else {
            None
        },
        _ => None,
    }
}

pub fn file_prefetch_range(
    mapping_start: usize,
    file_offset: usize,
    mapped_bytes: usize,
    file_size: usize,
    first_page: usize,
    area_end: usize,
) -> (r: Option<(u32, usize)>)
    ensures
        r == spec_prefetch_range(
            mapping_start,
            file_offset,
            mapped_bytes,
            file_size,
            first_page,
            area_end,
        ),
{
    match file_page_read_window(mapping_start, file_offset, mapped_bytes, file_size, first_page) {
        None => None,
        Some((first_offset, _)) => {
            let number: u64 = first_offset / 0x1000;
            if number > u32::MAX as u64 {
                return None;
            }
            match count_fault_around(
                mapping_start,
                file_offset,
                mapped_bytes,
                file_size,
                first_page,
                area_end,
            ) {
                None => None,
                Some(n) => {
                    if n != 0 {
                        Some((number as u32, n))
                    } else {
                        None
                    }
                },
            }
        },
    }
}

/// The page `count` pages behind `page_number`, if it has a number.
pub open spec fn page_after(page_number: u32, count: usize) -> Option<u32> {
    if page_number + count <= u32::MAX {
        Some((page_number + count) as u32)
    } else {
        None
    }
}

fn advance(page_number: u32, count: usize) -> (r: Option<u32>)
    ensures
        r == page_after(page_number, count),
{
    if count > u32::MAX as usize {
        None
    } else {
        page_number.checked_add(count as u32)
    }
}

/// Where the next fault has to be to count as sequential.
#[derive(Clone, Copy, Debug, PartialEq, Eq, Structural)]
pub struct FileReadAheadState {
    pub next_page: Option<u32>,
}

impl Default for FileReadAheadState {
    fn default() -> (r: Self)
        ensures
            r.next_page is None,
    {
        FileReadAheadState { next_page: None }
    }
}

impl FileReadAheadState {
    pub open spec fn follows(self, page_number: u32) -> bool {
        self.next_page == Some(page_number)
    }

    /// How many pages a fault on `page_number` brings in when `max_pages` are there.
    pub open spec fn planned(self, page_number: u32, max_pages: usize) -> usize {
        let most = if max_pages < 1 {
            1
        } else {
            max_pages
        };
        if self.follows(page_number) || most < COLD_FILE_FAULT_AROUND_PAGES {
            most
        } else {
            COLD_FILE_FAULT_AROUND_PAGES
        }
    }

    pub fn is_sequential(&self, page_number: u32) -> (r: bool)
        ensures
            r == self.follows(page_number),
    {
        match self.next_page {
            Some(next) => next == page_number,
            None => false,
        }
    }

    pub fn plan(&mut self, page_number: u32, max_pages: usize) -> (page_count: usize)
        ensures
            page_count == old(self).planned(page_number, max_pages),
            max_pages >= 1 && old(self).next_page == Some(page_number) ==> page_count == max_pages,
            old(self).next_page != Some(page_number) ==> 1 <= page_count <= 4 && (page_count
                == 4 || page_count == max_pages || max_pages == 0),
            max_pages == 0 ==> page_count == 1,
            final(self).next_page == page_after(page_number, page_count),
    {
        let most: usize = if max_pages < 1 {
            1
        } else {
            max_pages
        };
        let sequential: bool = self.is_sequential(page_number);
        let page_count: usize = if sequential || most < COLD_FILE_FAULT_AROUND_PAGES {
            most
        } else {
            COLD_FILE_FAULT_AROUND_PAGES
        };
        self.next_page = advance(page_number, page_count);
        page_count
    }

    /// Moves the expectation back to what was really brought in, unless
    /// another fault has moved it meanwhile.
    pub fn finish(&mut self, page_number: u32, requested: usize, actual: usize)
        ensures
            final(self).next_page == if old(self).next_page == page_after(page_number, requested) {
                page_after(page_number, actual)
            } else {
                old(self).next_page
            },
    {
        let requested_end: Option<u32> = advance(page_number, requested);
        if self.next_page == requested_end {
            self.next_page = advance(page_number, actual);
        }
    }
}

/// A fault that starts where the last plan ended is sequential and may use the
/// whole window.
pub proof fn lemma_read_ahead_continues(
    first: FileReadAheadState,
    second: FileReadAheadState,
    page: u32,
    max_pages: usize,
    next_max: usize,
)
    requires
        second.next_page == page_after(page, first.planned(page, max_pages)),
        page + first.planned(page, max_pages) <= u32::MAX,
        next_max >= 1,
    ensures
        second.planned((page + first.planned(page, max_pages)) as u32, next_max) == next_max,
{
}

/// A mapping of a part of a file.
#[derive(Clone, Copy, Debug, PartialEq, Eq, Structural)]
pub struct FileMapping {
    pub start: usize,
    /// Which page cache the file's pages are in.
    pub file: u64,
    pub file_flags: FileFlags,
    pub file_offset: usize,
    pub file_bytes: usize,
    pub shared: bool,
}

/// The sizes of the files that are mapped, as they are at the moment.
pub struct FileSizes {
    sizes: Vec<(u64, usize)>,
}

/// The size that was given last for `file`, or zero if none was given.
pub open spec fn size_of_file(sizes: Seq<(u64, usize)>, file: u64) -> usize
    decreases sizes.len(),
{
    if sizes.len() == 0 {
        0
    } else if sizes.last().0 == file {
        sizes.last().1
    } else {
        size_of_file(sizes.drop_last(), file)
    }
}

impl FileSizes {
    pub closed spec fn view(&self) -> Seq<(u64, usize)> {
        self.sizes@
    }

    /// No file reaches the last page of the address range.
    pub open spec fn wf(&self) -> bool {
        forall|i: int| 0 <= i < self@.len() ==> (#[trigger] self@[i]).1 <= usize::MAX - 0xfff
    }

    pub fn new(sizes: Vec<(u64, usize)>) -> (r: Self)
        requires
            forall|i: int| 0 <= i < sizes@.len() ==> (#[trigger] sizes@[i]).1 <= usize::MAX - 0xfff,
        ensures
            r@ == sizes@,
            r.wf(),
    {
        FileSizes { sizes }
    }

    pub fn size(&self, file: u64) -> (r: usize)
        ensures
            r == size_of_file(self@, file),
            self.wf() ==> r <= usize::MAX - 0xfff,
    {
        let mut i: usize = self.sizes.len();
        assert(self.sizes@.take(i as int) =~= self.sizes@);
        while i > 0
            invariant
                i <= self.sizes@.len(),
                size_of_file(self.sizes@, file) == size_of_file(self.sizes@.take(i as int), file),
            decreases i,
        {
            i = i - 1;
            assert(self.sizes@.take((i + 1) as int).drop_last() =~= self.sizes@.take(i as int));
            assert(self.sizes@.take((i + 1) as int).last() == self.sizes@[i as int]);
            assert(self@[i as int] == self.sizes@[i as int]);
            if self.sizes[i].0 == file {
                return self.sizes[i].1;
            }
        }
        0
    }
}

/// A request to bring pages of a file into memory.
#[derive(Clone, Copy, Debug, PartialEq, Eq, Structural)]
pub struct FilePageLoad {
    pub file: u64,
    pub page_number: u32,
    pub page_count: usize,
    pub sequential: bool,
    pub may_write: bool,
}

/// Pages of a file that are in memory and wait to be mapped.
pub struct FilePagePrepared {
    file: u64,
    requested_page: u32,
    sequential: bool,
    pages: Vec<(u32, usize)>,
    mapped: Vec<bool>,
}

/// What [`FilePagePrepared`] holds.
pub ghost struct PreparedPages {
    pub file: u64,
    pub requested_page: u32,
    pub sequential: bool,
    /// Number and frame of each page.
    pub pages: Seq<(u32, usize)>,
    /// Which pages were taken over by a page table.
    pub mapped: Seq<bool>,
}

impl PreparedPages {
    /// The `i`-th page, while it waits. At most sixteen pages are looked at.
    pub open spec fn waiting(self, i: int) -> bool {
        0 <= i < self.pages.len() && i < 16 && !self.mapped[i]
    }

    /// Each page is marked or not, and each frame can be mapped.
    pub open spec fn wf(self) -> bool {
        &&& self.mapped.len() == self.pages.len()
        &&& forall|i: int| 0 <= i < self.pages.len() ==> frame_in_range((#[trigger] self.pages[i]).1)
    }
}

/// The frames of `pages` that are not marked in `mapped`, in order.
pub open spec fn left_over(pages: Seq<(u32, usize)>, mapped: Seq<bool>) -> Seq<usize>
    decreases pages.len(),
{
    if pages.len() == 0 {
        Seq::empty()
    } else {
        let before = left_over(pages.drop_last(), mapped);
        if mapped[pages.len() - 1] {
            before
        } else {
            before.push(pages.last().1)
        }
    }
}

impl FilePagePrepared {
    pub closed spec fn view(&self) -> PreparedPages {
        PreparedPages {
            file: self.file,
            requested_page: self.requested_page,
            sequential: self.sequential,
            pages: self.pages@,
            mapped: self.mapped@,
        }
    }

    pub open spec fn wf(&self) -> bool {
        self@.wf()
    }

    /// How many pages were loaded.
    pub fn page_count(&self) -> (r: usize)
        ensures
            r == self@.pages.len(),
    {
        self.pages.len()
    }

    pub fn is_sequential(&self) -> (r: bool)
        ensures
            r == self@.sequential,
    {
        self.sequential
    }

    pub fn matches(&self, file: u64, page_number: u32) -> (r: bool)
        ensures
            r == (self@.requested_page == page_number && self@.file == file),
    {
        self.requested_page == page_number && self.file == file
    }

    pub fn page(&self, index: usize) -> (r: Option<(u32, usize)>)
        requires
            self.wf(),
        ensures
            r == if self@.waiting(index as int) {
                Some(self@.pages[index as int])
            } else {
                None
            },
            r matches Some(p) ==> frame_in_range(p.1),
    {
        if index < self.pages.len() && index < FILE_FAULT_AROUND_PAGES && !self.mapped[index] {
            Some(self.pages[index])
        } else {
            None
        }
    }

    /// Hands the frame of a waiting page over.
    pub fn take_frame(&mut self, index: usize) -> (r: Option<usize>)
        requires
            old(self).wf(),
        ensures
            final(self).wf(),
            r == if old(self)@.waiting(index as int) {
                Some(old(self)@.pages[index as int].1)
            } else {
                None
            },
            final(self)@ == if old(self)@.waiting(index as int) {
                PreparedPages { mapped: old(self)@.mapped.update(index as int, true), ..old(self)@ }
            } else {
                old(self)@
            },
    {
        if index < self.pages.len() && index < FILE_FAULT_AROUND_PAGES && !self.mapped[index] {
            self.mapped.set(index, true);
            Some(self.pages[index].1)
        } else {
            None
        }
    }

    /// The frames that no page table took over.
    pub fn into_left_over(self) -> (r: Vec<usize>)
        requires
            self.wf(),
        ensures
            r@ == left_over(self@.pages, self@.mapped),
    {
        let mut r: Vec<usize> = Vec::new();
        let mut i: usize = 0;
        while i < self.pages.len()
            invariant
                self.mapped@.len() == self.pages@.len(),
                i <= self.pages@.len(),
                r@ == left_over(self.pages@.take(i as int), self.mapped@),
            decreases self.pages@.len() - i,
        {
            assert(self.pages@.take((i + 1) as int).drop_last() =~= self.pages@.take(i as int));
            if !self.mapped[i] {
                r.push(self.pages[i].1);
            }
            i = i + 1;
        }
        assert(self.pages@.take(i as int) =~= self.pages@);
        r
    }
}

impl FilePageLoad {
    /// Takes over what the page cache loaded for this request.
    pub fn prepare(
        self,
        loaded: AxResult<Vec<(u32, usize)>>,
        read_ahead: &mut FileReadAheadState,
    ) -> (r: AxResult<FilePagePrepared>)
        requires
            loaded matches Ok(pages) ==> forall|i: int|
                0 <= i < pages@.len() ==> frame_in_range((#[trigger] pages@[i]).1),
        ensures
            match loaded {
                Err(e) => r == Err::<FilePagePrepared, AxError>(e) && *final(read_ahead) == *old(
                    read_ahead,
                ),
                Ok(pages) => {
                    &&& r matches Ok(p) && p.wf() && p@ == (PreparedPages {
                        file: self.file,
                        requested_page: self.page_number,
                        sequential: self.sequential,
                        pages: pages@,
                        mapped: Seq::new(pages@.len(), |i: int| false),
                    })
                    &&& final(read_ahead).next_page == if old(read_ahead).next_page == page_after(
                        self.page_number,
                        self.page_count,
                    ) {
                        page_after(self.page_number, pages@.len() as usize)
                    } else {
                        old(read_ahead).next_page
                    }
                },
            },
    {
        let pages: Vec<(u32, usize)> = match loaded {
            Ok(pages) => pages,
            Err(e) => {
                return Err(e);
            },
        };
        let mut mapped: Vec<bool> = Vec::new();
        while mapped.len() < pages.len()
            invariant
                mapped@.len() <= pages@.len(),
                forall|j: int| 0 <= j < mapped@.len() ==> !mapped@[j],
            decreases pages@.len() - mapped@.len(),
        {
            mapped.push(false);
        }
        read_ahead.finish(self.page_number, self.page_count, pages.len());
        assert(mapped@ =~= Seq::new(pages@.len(), |i: int| false));
        Ok(
            FilePagePrepared {
                file: self.file,
                requested_page: self.page_number,
                sequential: self.sequential,
                pages,
                mapped,
            },
        )
    }
}

impl FileMapping {
    pub open spec fn spec_permits(self, flags: MappingFlags) -> bool {
        &&& flags.read ==> self.file_flags.read
        &&& flags.write && self.shared ==> self.file_flags.write
        &&& flags.write && !self.shared ==> self.file_flags.read
        &&& flags.execute ==> self.file_flags.read
    }

    /// Whether the file was opened in a way that allows a mapping with `flags`.
    pub fn permits(&self, flags: MappingFlags) -> (r: bool)
        ensures
            r == self.spec_permits(flags),
            r ==> (flags.read || flags.execute ==> self.file_flags.read) && (flags.write
                ==> if self.shared {
                self.file_flags.write
            } else {
                self.file_flags.read
            }),
            !r ==> (!self.file_flags.read && (flags.read || flags.execute || (flags.write
                && !self.shared))) || (!self.file_flags.write && flags.write && self.shared),
    {
        if flags.read && !self.file_flags.read {
            return false;
        }
        if flags.write {
            if self.shared {
                if !self.file_flags.write {
                    return false;
                }
            } else {
                if !self.file_flags.read {
                    return false;
                }
            }
        }
        if flags.execute && !self.file_flags.read {
            return false;
        }
        true
    }

    pub fn update_address(&mut self, new_start: usize, new_size: usize)
        ensures
            *final(self) == (FileMapping { start: new_start, file_bytes: new_size, ..*old(self) }),
    {
        self.start = new_start;
        self.file_bytes = new_size;
    }

    pub open spec fn window(self, page_addr: int, file_size: usize) -> Option<(u64, usize)> {
        read_window(self.start, self.file_offset, self.file_bytes, file_size, page_addr)
    }

    pub fn page_read_window_at_size(&self, page_addr: usize, file_size: usize) -> (r: Option<
        (u64, usize),
    >)
        ensures
            r == self.window(page_addr as int, file_size),
    {
        file_page_read_window(self.start, self.file_offset, self.file_bytes, file_size, page_addr)
    }

    /// The request that a fault at `vaddr` makes, if the page has to come from
    /// the file and is not in the page table yet.
    pub open spec fn spec_load_request(
        self,
        vaddr: usize,
        area_end: usize,
        orig_flags: MappingFlags,
        pt: PtMap,
        file_size: usize,
        ra: FileReadAheadState,
    ) -> Option<FilePageLoad> {
        let page = page_of(vaddr);
        match (
            self.window(page as int, file_size),
            fault_around(
                self.start,
                self.file_offset,
                self.file_bytes,
                file_size,
                page,
                area_end,
            ),
        ) {
            (Some(w), Some(n)) => if self.spec_permits(orig_flags) && !resident(pt, page) && w.0
                / 0x1000 <= u32::MAX {
                let number = (w.0 / 0x1000) as u32;
                Some(
                    FilePageLoad {
                        file: self.file,
                        page_number: number,
                        page_count: ra.planned(number, n as usize),
                        sequential: ra.follows(number),
                        may_write: self.shared && self.file_flags.write,
                    },
                )
            } else {
                None
            },
            _ => None,
        }
    }

    pub fn page_load_request(
        &self,
        vaddr: usize,
        area_end: usize,
        orig_flags: MappingFlags,
        pt: &PageTable,
        file_size: usize,
        read_ahead: &mut FileReadAheadState,
    ) -> (r: Option<FilePageLoad>)
        requires
            pt.wf(),
        ensures
            r == self.spec_load_request(
                vaddr,
                area_end,
                orig_flags,
                pt@,
                file_size,
                *old(read_ahead),
            ),
            match r {
                Some(load) => final(read_ahead).next_page == page_after(
                    load.page_number,
                    load.page_count,
                ),
                None => *final(read_ahead) == *old(read_ahead),
            },
    {
        if !self.permits(orig_flags) {
            return None;
        }
        let page_addr: usize = align_down_4k(vaddr);
        let file_offset: u64 = match self.page_read_window_at_size(page_addr, file_size) {
            Some((offset, _)) => offset,
            None => {
                return None;
            },
        };
        if let Some((frame, _, _)) = pt.query(page_addr) {
            if frame != 0 {
                return None;
            }
        }
        let number: u64 = file_offset / 0x1000;
        if number > u32::MAX as u64 {
            return None;
        }
        let page_number: u32 = number as u32;
        let max_pages: usize = match count_fault_around(
            self.start,
            self.file_offset,
            self.file_bytes,
            file_size,
            page_addr,
            area_end,
        ) {
            Some(n) => n,
            None => {
                return None;
            },
        };
        let sequential: bool = read_ahead.is_sequential(page_number);
        let page_count: usize = read_ahead.plan(page_number, max_pages);
        Some(
            FilePageLoad {
                file: self.file,
                page_number,
                page_count,
                sequential,
                may_write: self.shared && self.file_flags.write,
            },
        )
    }
}

/// The size of a file is the last that was given for it, and none for a file that
/// is not known.
pub proof fn lemma_latest_size_counts(sizes: Seq<(u64, usize)>, file: u64)
    ensures
        (forall|i: int| 0 <= i < sizes.len() ==> (#[trigger] sizes[i]).0 != file) ==> size_of_file(
            sizes,
            file,
        ) == 0,
        forall|i: int|
            0 <= i < sizes.len() && (#[trigger] sizes[i]).0 == file && (forall|j: int|
                i < j < sizes.len() ==> (#[trigger] sizes[j]).0 != file) ==> size_of_file(
                sizes,
                file,
            ) == sizes[i].1,
    decreases sizes.len(),
{
    if sizes.len() > 0 {
        let rest = sizes.drop_last();
        lemma_latest_size_counts(rest, file);
        if sizes.last().0 != file {
            if forall|i: int| 0 <= i < sizes.len() ==> (#[trigger] sizes[i]).0 != file {
                assert forall|i: int| 0 <= i < rest.len() implies (#[trigger] rest[i]).0 != file by {
                    assert(rest[i] == sizes[i]);
                }
            }
            assert forall|i: int|
                0 <= i < sizes.len() && (#[trigger] sizes[i]).0 == file && (forall|j: int|
                    i < j < sizes.len() ==> (#[trigger] sizes[j]).0 != file) implies size_of_file(
                sizes,
                file,
            ) == sizes[i].1 by {
                assert(rest[i] == sizes[i]);
                assert forall|j: int| i < j < rest.len() implies (#[trigger] rest[j]).0 != file by {
                    assert(rest[j] == sizes[j]);
                }
            }
        }
    }
}

/// Reading ahead asks for pages that the area has and the file shows, in a row,
/// at least one and at most sixteen, beginning with the page it was asked for.
pub proof fn lemma_prefetched_pages_are_in_the_file(
    m: FileMapping,
    file_size: usize,
    first_page: usize,
    area_end: usize,
    j: nat,
)
    requires
        spec_prefetch_range(
            m.start,
            m.file_offset,
            m.file_bytes,
            file_size,
            first_page,
            area_end,
        ) is Some,
        j < (spec_prefetch_range(
            m.start,
            m.file_offset,
            m.file_bytes,
            file_size,
            first_page,
            area_end,
        )->0).1,
    ensures
        ({
            let r = spec_prefetch_range(
                m.start,
                m.file_offset,
                m.file_bytes,
                file_size,
                first_page,
                area_end,
            )->0;
            &&& r.0 == (m.file_offset + (first_page - m.start)) / 0x1000
            &&& 1 <= r.1 <= 16
            &&& first_page + j * 0x1000 < area_end
            &&& m.file_offset + (first_page + j * 0x1000 - m.start) < file_size
            &&& first_page + j * 0x1000 - m.start < m.file_bytes
        }),
{
    lemma_pages_in_a_row_bounds(
        m.start,
        m.file_offset,
        m.file_bytes,
        file_size,
        first_page as int,
        area_end,
        0,
    );
    assert(shows_file(
        m.start,
        m.file_offset,
        m.file_bytes,
        file_size,
        first_page + j * 0x1000,
        area_end,
    ));
}

/// Frames of loaded pages are left over exactly if no page table took them.
pub proof fn lemma_left_over_was_not_mapped(
    pages: Seq<(u32, usize)>,
    mapped: Seq<bool>,
    i: int,
)
    requires
        mapped.len() >= pages.len(),
        0 <= i < pages.len(),
    ensures
        !mapped[i] ==> left_over(pages, mapped).contains(pages[i].1),
        (forall|k: int| 0 <= k < pages.len() ==> #[trigger] mapped[k]) ==> left_over(
            pages,
            mapped,
        ).len() == 0,
    decreases pages.len(),
{
    let rest = pages.drop_last();
    let before = left_over(rest, mapped);
    let all = left_over(pages, mapped);
    if i < rest.len() {
        lemma_left_over_was_not_mapped(rest, mapped, i);
        assert(rest[i] == pages[i]);
        if before.contains(pages[i].1) {
            let k = choose|k: int| 0 <= k < before.len() && before[k] == pages[i].1;
            assert(all[k] == pages[i].1);
        }
    } else {
        if rest.len() > 0 {
            lemma_left_over_was_not_mapped(rest, mapped, 0);
        }
        if !mapped[i] {
            assert(all == before.push(pages[i].1));
            assert(all[before.len() as int] == pages[i].1);
        }
    }
}

} // verus!
