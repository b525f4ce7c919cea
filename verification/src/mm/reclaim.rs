//! What has to wait until no CPU uses an old translation any more.
use vstd::prelude::*;

use super::backend::Backend;
use super::frame_table::Frames;
use super::paging::PAGE_SIZE_4K;

verus! {

/// The page-table entries that one operation on an address space changed.
#[derive(Clone, Copy, Debug, PartialEq, Eq, Structural)]
pub struct TlbInvalidationTracker {
    pub start: Option<usize>,
    pub end: Option<usize>,
    pub changed_pages: usize,
}

impl Default for TlbInvalidationTracker {
    fn default() -> (r: Self)
        ensures
            r == Self::nothing(),
    {
        TlbInvalidationTracker { start: None, end: None, changed_pages: 0 }
    }
}

/// How many pages `size` bytes take up, as far as it can be counted.
pub open spec fn pages_of(size: usize) -> usize {
    if size + 0xfff <= usize::MAX {
        ((size + 0xfff) / 0x1000) as usize
    } else {
        (usize::MAX / 0x1000) as usize
    }
}

pub fn page_count(size: usize) -> (r: usize)
    ensures
        r == pages_of(size),
        size <= usize::MAX - 0xfff ==> size <= r * 0x1000 < size + 0x1000,
{
    size.saturating_add(PAGE_SIZE_4K - 1) / PAGE_SIZE_4K
}

pub open spec fn saturating_sum(a: usize, b: usize) -> usize {
    if a + b <= usize::MAX {
        (a + b) as usize
    } else {
        usize::MAX
    }
}

impl TlbInvalidationTracker {
    pub open spec fn nothing() -> Self {
        TlbInvalidationTracker { start: None, end: None, changed_pages: 0 }
    }

    /// The tracker after a change in `[start, start + size)`.
    pub open spec fn recorded(self, start: usize, size: usize) -> Self {
        if size == 0 || start + size > usize::MAX {
            self
        } else {
            TlbInvalidationTracker {
                start: match self.start {
                    Some(s) if s <= start => Some(s),
                    _ => Some(start),
                },
                end: match self.end {
                    Some(e) if e >= start + size => Some(e),
                    _ => Some((start + size) as usize),
                },
                changed_pages: saturating_sum(self.changed_pages, pages_of(size)),
            }
        }
    }

    /// Both ends are known or neither is, and the count says which.
    pub open spec fn wf(self) -> bool {
        &&& self.start is Some <==> self.end is Some
        &&& self.start is Some <==> self.changed_pages > 0
        &&& self.start is Some ==> self.start->0 < self.end->0
    }

    /// Whether `a` lies in the range of changes.
    pub open spec fn covers(self, a: int) -> bool {
        self.start is Some && self.end is Some && self.start->0 <= a < self.end->0
    }

    pub fn is_empty(&self) -> (r: bool)
        ensures
            r == (self.changed_pages == 0),
    {
        self.changed_pages == 0
    }

    pub fn record(&mut self, start: usize, size: usize)
        ensures
            *final(self) == old(self).recorded(start, size),
    {
        if size == 0 {
            return;
        }
        let end: usize = match start.checked_add(size) {
            Some(end) => end,
            None => {
                return;
            },
        };
        self.start = match self.start {
            Some(s) => if s <= start {
                Some(s)
            } else {
                Some(start)
            },
            None => Some(start),
        };
        self.end = match self.end {
            Some(e) => if e >= end {
                Some(e)
            } else {
                Some(end)
            },
            None => Some(end),
        };
        self.changed_pages = self.changed_pages.saturating_add(page_count(size));
    }
}

/// A recorded change is covered from then on, and nothing that was covered is
/// forgotten.
pub proof fn lemma_record_covers(t: TlbInvalidationTracker, start: usize, size: usize, a: int)
    requires
        t.wf(),
        start + size <= usize::MAX,
    ensures
        t.recorded(start, size).wf(),
        t.covers(a) ==> t.recorded(start, size).covers(a),
        start <= a < start + size ==> t.recorded(start, size).covers(a),
{
}

/// Pages of one file that go back to it.
pub struct FileWriteback {
    pub file: u64,
    pub page_numbers: Vec<u32>,
    pub sync: bool,
}

/// What [`FileWriteback`] holds.
pub ghost struct Writeback {
    pub file: u64,
    pub pages: Seq<u32>,
    pub sync: bool,
}

impl FileWriteback {
    pub open spec fn view(&self) -> Writeback {
        Writeback { file: self.file, pages: self.page_numbers@, sync: self.sync }
    }

    pub fn for_unmap(file: u64) -> (r: Self)
        ensures
            r@ == (Writeback { file, pages: Seq::empty(), sync: false }),
    {
        FileWriteback { file, page_numbers: Vec::new(), sync: false }
    }

    pub fn push_page(&mut self, page_number: u32)
        ensures
            final(self)@ == (Writeback { pages: old(self)@.pages.push(page_number), ..old(self)@ }),
    {
        self.page_numbers.push(page_number);
    }

    pub fn is_empty(&self) -> (r: bool)
        ensures
            r == (self@.pages.len() == 0),
    {
        self.page_numbers.len() == 0
    }
}

/// One thing to do with a file.
#[derive(Clone, Copy, Debug, PartialEq, Eq, Structural)]
pub enum WritebackStep {
    /// Mark a page of the file dirty.
    MarkDirty { file: u64, page: u32 },
    /// Write the file out.
    Sync { file: u64 },
}

/// The steps of one writeback: first the pages, then the file.
pub open spec fn steps_of(w: Writeback) -> Seq<WritebackStep> {
    let dirty = w.pages.map_values(
        |page: u32| WritebackStep::MarkDirty { file: w.file, page },
    );
    if w.sync {
        dirty.push(WritebackStep::Sync { file: w.file })
    } else {
        dirty
    }
}

pub open spec fn all_steps(s: Seq<Writeback>) -> Seq<WritebackStep>
    decreases s.len(),
{
    if s.len() == 0 {
        Seq::empty()
    } else {
        all_steps(s.drop_last()) + steps_of(s.last())
    }
}

/// Writebacks of several files, in order.
pub struct FileWritebacks(Vec<FileWriteback>);

impl Default for FileWritebacks {
    fn default() -> (r: Self)
        ensures
            r@ == Seq::<Writeback>::empty(),
    {
        let r = FileWritebacks(Vec::new());
        assert(r@ =~= Seq::<Writeback>::empty());
        r
    }
}

impl FileWritebacks {
    pub closed spec fn view(&self) -> Seq<Writeback> {
        Seq::new(self.0@.len(), |i: int| self.0@[i]@)
    }

    pub fn push(&mut self, writeback: FileWriteback)
        ensures
            final(self)@ == old(self)@.push(writeback@),
    {
        self.0.push(writeback);
        assert(self@ =~= old(self)@.push(writeback@));
    }

    pub fn is_empty(&self) -> (r: bool)
        ensures
            r == (self@.len() == 0),
    {
        self.0.len() == 0
    }

    pub fn append(&mut self, other: Self)
        ensures
            final(self)@ == old(self)@ + other@,
    {
        let ghost theirs = other@;
        let mut other = other;
        self.0.append(&mut other.0);
        assert(self@ =~= old(self)@ + theirs);
    }

    /// What is to be done with the files, in order. The first step that fails
    /// ends the writeback with an I/O error.
    pub fn complete(&self) -> (r: Vec<WritebackStep>)
        ensures
            r@ == all_steps(self@),
    {
        let mut r: Vec<WritebackStep> = Vec::new();
        let mut i: usize = 0;
        while i < self.0.len()
            invariant
                i <= self.0@.len(),
                r@ == all_steps(self@.take(i as int)),
            decreases self.0@.len() - i,
        {
            let ghost before = r@;
            let w: &FileWriteback = &self.0[i];
            let mut j: usize = 0;
            while j < w.page_numbers.len()
                invariant
                    j <= w.page_numbers@.len(),
                    r@ == before + w.page_numbers@.take(j as int).map_values(
                        |page: u32| WritebackStep::MarkDirty { file: w.file, page },
                    ),
                decreases w.page_numbers@.len() - j,
            {
                r.push(WritebackStep::MarkDirty { file: w.file, page: w.page_numbers[j] });
                j = j + 1;
                assert(r@ =~= before + w.page_numbers@.take(j as int).map_values(
                    |page: u32| WritebackStep::MarkDirty { file: w.file, page },
                ));
            }
            assert(w.page_numbers@.take(j as int) =~= w.page_numbers@);
            if w.sync {
                r.push(WritebackStep::Sync { file: w.file });
            }
            proof {
                assert(self@.take((i + 1) as int).drop_last() =~= self@.take(i as int));
                assert(self@.take((i + 1) as int).last() == w@);
                assert(r@ =~= before + steps_of(w@));
            }
            i = i + 1;
        }
        assert(self@.take(i as int) =~= self@);
        r
    }
}

/// How many frames the buffer for a retiring address space holds.
pub const RETIREMENT_RECLAIM_CAPACITY: usize = 4096;

/// What [`DeferredReclaims`] holds.
pub ghost struct Reclaims {
    pub frames: Seq<usize>,
    /// The CPU whose retirement buffer holds the frames.
    pub retirement: Option<usize>,
    pub backends: Seq<Backend>,
    pub writebacks: Seq<Writeback>,
}

impl Reclaims {
    pub open spec fn none() -> Self {
        Reclaims {
            frames: Seq::empty(),
            retirement: None,
            backends: Seq::empty(),
            writebacks: Seq::empty(),
        }
    }

    pub open spec fn is_none(self) -> bool {
        self.frames.len() == 0 && self.backends.len() == 0 && self.writebacks.len() == 0
    }

    /// How many frames can still be added.
    pub open spec fn has_room(self, n: int) -> bool {
        self.retirement is Some ==> self.frames.len() + n <= RETIREMENT_RECLAIM_CAPACITY
    }

    /// With one more frame; the null frame is never deferred.
    pub open spec fn with_frame(self, frame: usize) -> Self {
        if frame == 0 {
            self
        } else {
            Reclaims { frames: self.frames.push(frame), ..self }
        }
    }

    pub open spec fn with_backend(self, backend: Backend) -> Self {
        Reclaims { backends: self.backends.push(backend), ..self }
    }

    pub open spec fn with_writeback(self, w: Writeback) -> Self {
        Reclaims { writebacks: self.writebacks.push(w), ..self }
    }

    /// With everything that waits in `other`.
    pub open spec fn joined(self, other: Self) -> Self {
        Reclaims {
            frames: self.frames + other.frames,
            backends: self.backends + other.backends,
            writebacks: self.writebacks + other.writebacks,
            ..self
        }
    }
}

/// References that stay alive until every CPU has dropped its translations.
pub struct DeferredReclaims {
    frames: Vec<usize>,
    retirement: Option<usize>,
    backends: Vec<Backend>,
    file_writebacks: FileWritebacks,
}

impl Default for DeferredReclaims {
    fn default() -> (r: Self)
        ensures
            r@ == Reclaims::none(),
    {
        DeferredReclaims {
            frames: Vec::new(),
            retirement: None,
            backends: Vec::new(),
            file_writebacks: FileWritebacks::default(),
        }
    }
}

impl DeferredReclaims {
    pub closed spec fn view(&self) -> Reclaims {
        Reclaims {
            frames: self.frames@,
            retirement: self.retirement,
            backends: self.backends@,
            writebacks: self.file_writebacks@,
        }
    }

    /// Empty, with room for `capacity` frames before memory is needed.
    pub fn with_capacity(capacity: usize) -> (r: Self)
        ensures
            r@ == Reclaims::none(),
    {
        DeferredReclaims {
            frames: Vec::with_capacity(capacity),
            retirement: None,
            backends: Vec::new(),
            file_writebacks: FileWritebacks::default(),
        }
    }

    /// Empty, with the retirement buffer of `cpu_id` for its frames.
    pub fn for_retirement(cpu_id: usize) -> (r: Self)
        ensures
            r@ == (Reclaims { retirement: Some(cpu_id), ..Reclaims::none() }),
    {
        DeferredReclaims {
            frames: Vec::new(),
            retirement: Some(cpu_id),
            backends: Vec::new(),
            file_writebacks: FileWritebacks::default(),
        }
    }

    pub fn retirement_capacity() -> (r: usize)
        ensures
            r == RETIREMENT_RECLAIM_CAPACITY,
    {
        RETIREMENT_RECLAIM_CAPACITY
    }

    pub fn defer_frame(&mut self, frame: usize)
        requires
            old(self)@.has_room(1),
        ensures
            final(self)@ == old(self)@.with_frame(frame),
    {
        if frame == 0 {
            return;
        }
        self.frames.push(frame);
    }

    pub fn defer_backend(&mut self, backend: Backend)
        ensures
            final(self)@ == old(self)@.with_backend(backend),
    {
        self.backends.push(backend);
    }

    pub fn defer_file_writeback(&mut self, writeback: FileWriteback)
        ensures
            final(self)@ == old(self)@.with_writeback(writeback@),
    {
        self.file_writebacks.push(writeback);
    }

    pub fn is_empty(&self) -> (r: bool)
        ensures
            r == self@.is_none(),
    {
        self.frames.len() == 0 && self.backends.len() == 0 && self.file_writebacks.is_empty()
    }

    /// Takes over what waits in `other`.
    pub fn append(&mut self, other: Self)
        requires
            old(self)@.has_room(other@.frames.len() as int),
        ensures
            final(self)@ == old(self)@.joined(other@),
    {
        let mut other = other;
        let ghost theirs = other@;
        self.frames.append(&mut other.frames);
        self.backends.append(&mut other.backends);
        self.file_writebacks.append(other.file_writebacks);
        assert(self@ == old(self)@.joined(theirs));
    }

    /// Gives the frames up, now that nothing refers to them, and returns the
    /// writebacks, which come first.
    pub fn reclaim(self, frames: &mut Frames) -> (r: FileWritebacks)
        requires
            old(frames).wf(),
            old(frames)@.releasable(self@.frames),
        ensures
            r@ == self@.writebacks,
            final(frames).wf(),
            final(frames).room() >= old(frames).room(),
            final(frames)@ == old(frames)@.dealloc_all(self@.frames),
    {
        frames.dealloc_frames(&self.frames);
        self.file_writebacks
    }

    /// How many references are lost when a shootdown fails: the frames, the
    /// backends, and one for the writebacks.
    pub fn leaked(&self) -> (r: usize)
        requires
            self@.frames.len() + self@.backends.len() + 1 <= usize::MAX,
        ensures
            r == self@.frames.len() + self@.backends.len() + if self@.writebacks.len() > 0 {
                1int
            } else {
                0
            },
    {
        let n: usize = self.frames.len() + self.backends.len();
        if self.file_writebacks.is_empty() {
            n
        } else {
            n + 1
        }
    }
}

/// A writeback marks each of its pages dirty, in order, and writes the file out at
/// the end if it was asked to.
pub proof fn lemma_steps_of_a_writeback(w: Writeback, i: int)
    requires
        0 <= i < w.pages.len(),
    ensures
        steps_of(w)[i] == (WritebackStep::MarkDirty { file: w.file, page: w.pages[i] }),
        w.sync ==> steps_of(w).len() == w.pages.len() + 1 && steps_of(w).last() == (
        WritebackStep::Sync { file: w.file }),
        !w.sync ==> steps_of(w).len() == w.pages.len(),
{
}

/// The steps of several writebacks are those of each of them, one after another.
pub proof fn lemma_all_writebacks_are_done(s: Seq<Writeback>, k: int, step: WritebackStep)
    requires
        0 <= k < s.len(),
        steps_of(s[k]).contains(step),
    ensures
        all_steps(s).contains(step),
    decreases s.len(),
{
    let before = all_steps(s.drop_last());
    let last = steps_of(s.last());
    let all = all_steps(s);
    assert(all == before + last);
    if k < s.len() - 1 {
        assert(s.drop_last()[k] == s[k]);
        lemma_all_writebacks_are_done(s.drop_last(), k, step);
        let j = choose|j: int| 0 <= j < before.len() && before[j] == step;
        assert(all[j] == step);
    } else {
        let j = choose|j: int| 0 <= j < last.len() && last[j] == step;
        assert(all[before.len() + j] == step);
    }
}

} // verus!
