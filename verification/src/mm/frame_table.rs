//! Reference counts of physical frames and the frames handed in and out.
use vstd::prelude::*;

use super::paging::{PAGE_SIZE_1G, PAGE_SIZE_4K};

verus! {

/// The sum of a sequence of counts.
pub open spec fn sum_of(s: Seq<usize>) -> int
    decreases s.len(),
{
    if s.len() == 0 {
        0
    } else {
        sum_of(s.drop_last()) + s.last()
    }
}

proof fn lemma_sum_update(s: Seq<usize>, i: int, v: usize)
    requires
        0 <= i < s.len(),
    ensures
        sum_of(s.update(i, v)) == sum_of(s) - s[i] + v,
    decreases s.len(),
{
    if i == s.len() - 1 {
        assert(s.update(i, v).drop_last() =~= s.drop_last());
    } else {
        assert(s.update(i, v).drop_last() =~= s.drop_last().update(i, v));
        lemma_sum_update(s.drop_last(), i, v);
    }
}

proof fn lemma_sum_bounds(s: Seq<usize>, i: int)
    requires
        0 <= i < s.len(),
    ensures
        s[i] <= sum_of(s),
        0 <= sum_of(s),
    decreases s.len(),
{
    if s.len() > 1 {
        lemma_sum_bounds(s.drop_last(), if i == s.len() - 1 { 0 } else { i });
    } else {
        assert(sum_of(s.drop_last()) == 0);
    }
}

proof fn lemma_sum_zeros(s: Seq<usize>)
    requires
        forall|i: int| 0 <= i < s.len() ==> s[i] == 0,
    ensures
        sum_of(s) == 0,
    decreases s.len(),
{
    if s.len() > 0 {
        lemma_sum_zeros(s.drop_last());
    }
}

/// How often one frame is in use.
#[derive(Clone, Copy, Debug)]
pub struct FrameInfo {
    ref_count: usize,
}

impl FrameInfo {
    pub closed spec fn refs(&self) -> usize {
        self.ref_count
    }
}

impl Default for FrameInfo {
    fn default() -> (r: Self)
        ensures
            r.refs() == 0,
    {
        FrameInfo { ref_count: 0 }
    }
}

/// What a frame table records: the first frame and the count of each frame.
pub ghost struct FrameCounts {
    pub base: usize,
    pub refs: Seq<usize>,
}

impl FrameCounts {
    /// Whether the frame at `paddr` is counted.
    pub open spec fn has(self, paddr: usize) -> bool {
        self.base <= paddr < self.base + self.refs.len() * 0x1000
    }

    pub open spec fn index(self, paddr: usize) -> int {
        (paddr - self.base) / 0x1000
    }

    /// The count of the frame at `paddr`.
    pub open spec fn count(self, paddr: usize) -> usize {
        self.refs[self.index(paddr)]
    }

    pub open spec fn set(self, paddr: usize, n: usize) -> Self {
        FrameCounts { refs: self.refs.update(self.index(paddr), n), ..self }
    }

    /// One more reference to a counted frame; others are not counted.
    pub open spec fn inc(self, paddr: usize) -> Self {
        if self.has(paddr) {
            self.set(paddr, (self.count(paddr) + 1) as usize)
        } else {
            self
        }
    }

    /// One reference less.
    pub open spec fn dec(self, paddr: usize) -> Self {
        if self.has(paddr) {
            self.set(paddr, (self.count(paddr) - 1) as usize)
        } else {
            self
        }
    }

    /// A frame fresh from the allocator has at least one reference.
    pub open spec fn used(self, paddr: usize) -> Self {
        if self.has(paddr) && self.count(paddr) == 0 {
            self.set(paddr, 1)
        } else {
            self
        }
    }

    /// Whether a reference to `paddr` can be given back.
    pub open spec fn releasable(self, paddr: usize) -> bool {
        self.has(paddr) ==> self.count(paddr) > 0
    }

    /// Whether giving back a reference to `paddr` frees the frame.
    pub open spec fn last_ref(self, paddr: usize) -> bool {
        self.has(paddr) && self.count(paddr) == 1
    }
}

/// Reference counts for the frames of one contiguous physical range.
pub struct FrameTable {
    base_paddr: usize,
    data: Vec<FrameInfo>,
    total_refs: usize,
}

impl FrameTable {
    pub closed spec fn view(&self) -> FrameCounts {
        FrameCounts {
            base: self.base_paddr,
            refs: Seq::new(self.data@.len(), |i: int| self.data@[i].ref_count),
        }
    }

    /// The number of references to all frames together.
    pub closed spec fn total(&self) -> usize {
        self.total_refs
    }

    /// The total is the sum of the counts, and the range ends in the address space.
    pub open spec fn wf(&self) -> bool {
        &&& self.total() == sum_of(self@.refs)
        &&& self@.base + self@.refs.len() * 0x1000 <= usize::MAX
    }

    /// A table in which no frame of `[base_paddr, base_paddr + total_memory_size)` is in use.
    pub fn new(base_paddr: usize, total_memory_size: usize) -> (r: Self)
        requires
            base_paddr + total_memory_size <= usize::MAX,
        ensures
            r.wf(),
            r@.base == base_paddr,
            r@.refs.len() == total_memory_size / 0x1000,
            forall|i: int| 0 <= i < r@.refs.len() ==> r@.refs[i] == 0,
            r.total() == 0,
    {
        let num_frames: usize = total_memory_size / PAGE_SIZE_4K;
        let mut data: Vec<FrameInfo> = Vec::new();
        while data.len() < num_frames
            invariant
                data@.len() <= num_frames,
                forall|i: int| 0 <= i < data@.len() ==> data@[i].ref_count == 0,
            decreases num_frames - data@.len(),
        {
            data.push(FrameInfo { ref_count: 0 });
        }
        let r = FrameTable { base_paddr, data, total_refs: 0 };
        proof {
            lemma_sum_zeros(r@.refs);
        }
        r
    }

    /// Whether `paddr` lies in a counted frame.
    pub fn contains(&self, paddr: usize) -> (r: bool)
        requires
            self.wf(),
        ensures
            r == self@.has(paddr),
    {
        paddr >= self.base_paddr && paddr < self.base_paddr + self.data.len() * PAGE_SIZE_4K
    }

    fn info(&self, paddr: usize) -> (r: usize)
        requires
            self.wf(),
            self@.has(paddr),
        ensures
            r == self@.index(paddr),
            r < self.data@.len(),
    {
        (paddr - self.base_paddr) / PAGE_SIZE_4K
    }

    /// Adds a reference.
    pub fn inc_ref(&mut self, paddr: usize)
        requires
            old(self).wf(),
            old(self)@.has(paddr),
            old(self).total() < usize::MAX,
        ensures
            final(self).wf(),
            final(self)@ == old(self)@.inc(paddr),
            final(self).total() == old(self).total() + 1,
    {
        let i: usize = self.info(paddr);
        proof {
            lemma_sum_bounds(self@.refs, i as int);
            lemma_sum_update(self@.refs, i as int, (self@.refs[i as int] + 1) as usize);
        }
        let n: usize = self.data[i].ref_count + 1;
        self.data.set(i, FrameInfo { ref_count: n });
        self.total_refs = self.total_refs + 1;
        assert(self@.refs =~= old(self)@.inc(paddr).refs);
    }

    /// Drops a reference and returns how many are left.
    pub fn dec_ref(&mut self, paddr: usize) -> (r: usize)
        requires
            old(self).wf(),
            old(self)@.has(paddr),
            old(self)@.count(paddr) > 0,
        ensures
            final(self).wf(),
            final(self)@ == old(self)@.dec(paddr),
            final(self).total() == old(self).total() - 1,
            r == final(self)@.count(paddr),
            r == old(self)@.count(paddr) - 1,
    {
        let i: usize = self.info(paddr);
        proof {
            lemma_sum_bounds(self@.refs, i as int);
            lemma_sum_update(self@.refs, i as int, (self@.refs[i as int] - 1) as usize);
        }
        let n: usize = self.data[i].ref_count - 1;
        self.data.set(i, FrameInfo { ref_count: n });
        self.total_refs = self.total_refs - 1;
        assert(self@.refs =~= old(self)@.dec(paddr).refs);
        n
    }

    /// Records that a frame came from the allocator.
    pub fn mark_used(&mut self, paddr: usize)
        requires
            old(self).wf(),
            old(self)@.has(paddr),
            old(self).total() < usize::MAX,
        ensures
            final(self).wf(),
            final(self)@ == old(self)@.used(paddr),
            final(self).total() <= old(self).total() + 1,
    {
        let i: usize = self.info(paddr);
        if self.data[i].ref_count == 0 {
            proof {
                lemma_sum_update(self@.refs, i as int, 1);
            }
            self.data.set(i, FrameInfo { ref_count: 1 });
            self.total_refs = self.total_refs + 1;
            assert(self@.refs =~= old(self)@.used(paddr).refs);
        }
    }

    pub fn get_ref(&self, paddr: usize) -> (r: usize)
        requires
            self.wf(),
            self@.has(paddr),
        ensures
            r == self@.count(paddr),
    {
        let i: usize = self.info(paddr);
        self.data[i].ref_count
    }

    pub fn total_refs(&self) -> (r: usize)
        ensures
            r == self.total(),
    {
        self.total_refs
    }
}

/// Dropping a reference that was just added restores the counts.
pub proof fn lemma_inc_dec(c: FrameCounts, paddr: usize)
    requires
        c.has(paddr) ==> c.count(paddr) < usize::MAX,
    ensures
        c.inc(paddr).dec(paddr) == c,
        c.inc(paddr).releasable(paddr),
{
    assert(c.inc(paddr).dec(paddr).refs =~= c.refs);
}

/// A reference to one frame does not touch the count of another.
pub proof fn lemma_inc_frame(c: FrameCounts, p: usize, q: usize)
    requires
        c.has(p),
        c.has(q),
        c.index(p) != c.index(q),
    ensures
        c.inc(p).count(q) == c.count(q),
        c.dec(p).count(q) == c.count(q),
{
}

/// Sixteen raw bits for each frame of a fixed physical range.
pub struct FrameRefTable {
    base: usize,
    data: Vec<u16>,
}

pub const COW_FLAG_OWNED: u16 = 0x8000;

pub const COW_REF_MASK: u16 = 0x7FFF;

impl FrameRefTable {
    pub closed spec fn base(&self) -> usize {
        self.base
    }

    pub closed spec fn raw(&self) -> Seq<u16> {
        self.data@
    }

    pub open spec fn wf(&self) -> bool {
        self.base() + self.raw().len() * 0x1000 <= usize::MAX
    }

    pub open spec fn has(&self, paddr: usize) -> bool {
        self.base() <= paddr < self.base() + self.raw().len() * 0x1000
    }

    pub open spec fn spec_index(&self, paddr: usize) -> int {
        (paddr - self.base()) / 0x1000
    }

    pub fn new(base: usize, frames: usize) -> (r: Self)
        requires
            base + frames * 0x1000 <= usize::MAX,
        ensures
            r.wf(),
            r.base() == base,
            r.raw() == Seq::new(frames as nat, |i: int| 0u16),
    {
        let mut data: Vec<u16> = Vec::new();
        while data.len() < frames
            invariant
                data@.len() <= frames,
                forall|i: int| 0 <= i < data@.len() ==> data@[i] == 0,
            decreases frames - data@.len(),
        {
            data.push(0);
        }
        assert(data@ =~= Seq::new(frames as nat, |i: int| 0u16));
        FrameRefTable { base, data }
    }

    fn index(&self, paddr: usize) -> (r: usize)
        requires
            self.has(paddr),
        ensures
            r == self.spec_index(paddr),
            r < self.raw().len(),
    {
        (paddr - self.base) / PAGE_SIZE_4K
    }

    pub fn get_raw(&self, paddr: usize) -> (r: u16)
        requires
            self.has(paddr),
        ensures
            r == self.raw()[self.spec_index(paddr)],
    {
        let i: usize = self.index(paddr);
        self.data[i]
    }

    pub fn set_raw(&mut self, paddr: usize, val: u16)
        requires
            old(self).has(paddr),
        ensures
            final(self).base() == old(self).base(),
            final(self).raw() == old(self).raw().update(old(self).spec_index(paddr), val),
    {
        let i: usize = self.index(paddr);
        self.data.set(i, val);
    }

    /// Stores `new` if the entry holds `current`; returns what it held.
    pub fn compare_exchange(&mut self, paddr: usize, current: u16, new: u16) -> (r: Result<u16, u16>)
        requires
            old(self).has(paddr),
        ensures
            final(self).base() == old(self).base(),
            ({
                let i = old(self).spec_index(paddr);
                let held = old(self).raw()[i];
                if held == current {
                    r == Ok::<u16, u16>(held) && final(self).raw() == old(self).raw().update(i, new)
                } else {
                    r == Err::<u16, u16>(held) && final(self).raw() == old(self).raw()
                }
            }),
    {
        let i: usize = self.index(paddr);
        let held: u16 = self.data[i];
        if held == current {
            self.data.set(i, new);
            Ok(held)
        } else {
            Err(held)
        }
    }
}

/// A physical frame that leaves room for the largest page behind it.
pub open spec fn frame_in_range(frame: usize) -> bool {
    frame + PAGE_SIZE_1G <= usize::MAX
}

/// A frame that can back a page.
pub open spec fn usable_frame(frame: usize) -> bool {
    frame != 0 && frame % 0x1000 == 0 && frame_in_range(frame)
}

/// Frames that the allocator put at hand, the last one first, and frames that
/// go back to it, in the order in which they were given up. A frame at hand
/// holds zeroes: only a copy is written to a frame before a page shows it.
pub struct FramePool {
    available: Vec<usize>,
    released: Vec<usize>,
}

/// What a pool and a frame table hold.
pub ghost struct FrameState {
    pub available: Seq<usize>,
    pub released: Seq<usize>,
    pub counts: FrameCounts,
}

impl FrameState {
    /// The frames at hand can be mapped, and none of them is there twice.
    pub open spec fn wf(self) -> bool {
        &&& forall|i: int| 0 <= i < self.available.len() ==> usable_frame(#[trigger] self.available[i])
        &&& self.available.no_duplicates()
    }

    /// The frame that the next allocation gives.
    pub open spec fn next(self) -> Option<usize> {
        if self.available.len() == 0 {
            None
        } else {
            Some(self.available.last())
        }
    }

    /// The state after an allocation.
    pub open spec fn after_alloc(self) -> Self {
        if self.available.len() == 0 {
            self
        } else {
            FrameState {
                available: self.available.drop_last(),
                counts: self.counts.used(self.available.last()),
                ..self
            }
        }
    }

    /// The state after one reference to `frame` was given up: the frame goes
    /// back to the allocator with its last reference.
    pub open spec fn dealloc(self, frame: usize) -> Self {
        FrameState {
            released: if self.counts.last_ref(frame) {
                self.released.push(frame)
            } else {
                self.released
            },
            counts: self.counts.dec(frame),
            ..self
        }
    }

    /// Whether references to all of `frames` can be given up one after another.
    pub open spec fn releasable(self, frames: Seq<usize>) -> bool
        decreases frames.len(),
    {
        frames.len() == 0 || (self.releasable(frames.drop_last()) && self.dealloc_all(
            frames.drop_last(),
        ).counts.releasable(frames.last()))
    }

    pub open spec fn dealloc_all(self, frames: Seq<usize>) -> Self
        decreases frames.len(),
    {
        if frames.len() == 0 {
            self
        } else {
            self.dealloc_all(frames.drop_last()).dealloc(frames.last())
        }
    }
}

/// Giving a reference up takes one from the count of the frame. The frame goes
/// back to the allocator with the last reference to it, and not before; no other
/// frame is touched.
pub proof fn lemma_frame_goes_back_with_its_last_reference(s: FrameState, f: usize, g: usize)
    requires
        s.counts.base <= f < s.counts.base + s.counts.refs.len() * 0x1000,
        s.counts.refs[(f - s.counts.base) / 0x1000] > 0,
        s.counts.base <= g < s.counts.base + s.counts.refs.len() * 0x1000,
        (g - s.counts.base) / 0x1000 != (f - s.counts.base) / 0x1000,
    ensures
        ({
            let t = s.dealloc(f);
            let n = (f - s.counts.base) / 0x1000;
            let m = (g - s.counts.base) / 0x1000;
            &&& t.counts.refs[n] == s.counts.refs[n] - 1
            &&& t.counts.refs[m] == s.counts.refs[m]
            &&& t.released == if s.counts.refs[n] == 1 {
                s.released.push(f)
            } else {
                s.released
            }
            &&& t.available == s.available
        }),
{
}

/// A frame that the allocator gives is no longer at hand and has a reference.
pub proof fn lemma_given_frame_is_used(s: FrameState)
    requires
        s.wf(),
        s.available.len() > 0,
    ensures
        ({
            let f = s.available.last();
            let t = s.after_alloc();
            let n = (f - s.counts.base) / 0x1000;
            &&& s.next() == Some(f)
            &&& t.available == s.available.drop_last()
            &&& t.released == s.released
            &&& s.counts.base <= f < s.counts.base + s.counts.refs.len() * 0x1000 ==> {
                &&& t.counts.refs[n] >= 1
                &&& s.counts.refs[n] > 0 ==> t.counts == s.counts
                &&& s.counts.refs[n] == 0 ==> t.counts.refs[n] == 1
            }
        }),
{
}

/// The frames that were taken from those at hand and that no copy goes to: the
/// frames that have to hold zeroes.
pub open spec fn fresh_frames(
    before: FrameState,
    after: FrameState,
    copied: Option<(usize, usize)>,
) -> Set<usize> {
    Set::new(
        |f: usize|
            before.available.contains(f) && !after.available.contains(f) && !(copied is Some
                && (copied->0).1 == f),
    )
}

/// The frames and their counts.
pub struct Frames {
    pub table: FrameTable,
    pub pool: FramePool,
}

impl Frames {
    pub closed spec fn view(&self) -> FrameState {
        FrameState {
            available: self.pool.available@,
            released: self.pool.released@,
            counts: self.table@,
        }
    }

    /// The counts add up, every frame at hand is a frame that can be mapped,
    /// and each of them can get its first reference.
    pub closed spec fn wf(&self) -> bool {
        &&& self.table.wf()
        &&& self.table.total() + self.pool.available@.len() < usize::MAX
        &&& self@.wf()
    }

    /// How many references there can still be.
    pub closed spec fn room(&self) -> int {
        usize::MAX - 1 - self.table.total() - self.pool.available@.len()
    }

    /// What is needed to know of the frames at hand.
    pub(crate) proof fn lemma_wf(&self)
        requires
            self.wf(),
        ensures
            self@.wf(),
    {
    }

    /// Where there is room for `n` references, each frame can take all of them.
    pub(crate) proof fn lemma_room(&self, n: int)
        requires
            self.wf(),
            n <= self.room(),
        ensures
            forall|i: int|
                0 <= i < self@.counts.refs.len() ==> (#[trigger] self@.counts.refs[i]) + n
                    <= usize::MAX,
    {
        assert forall|i: int| 0 <= i < self@.counts.refs.len() implies (
        #[trigger] self@.counts.refs[i]) + n <= usize::MAX by {
            lemma_sum_bounds(self@.counts.refs, i);
        }
    }

    /// Frames from `available`, taken from its end, with `table` counting them.
    /// Frames that cannot be mapped, or are there twice, are not taken over.
    pub fn new(table: FrameTable, available: Vec<usize>) -> (r: Option<Self>)
        requires
            table.wf(),
        ensures
            r is Some <==> table.total() + available@.len() < usize::MAX && (FrameState {
                available: available@,
                released: Seq::empty(),
                counts: table@,
            }).wf(),
            r matches Some(f) ==> f.wf() && f@ == (FrameState {
                available: available@,
                released: Seq::empty(),
                counts: table@,
            }),
    {
        if table.total_refs >= usize::MAX - available.len() {
            return None;
        }
        let mut i: usize = 0;
        while i < available.len()
            invariant
                i <= available@.len(),
                forall|j: int|
                    0 <= j < i ==> usable_frame(#[trigger] available@[j]),
                forall|j: int, k: int| 0 <= j < k < i ==> available@[j] != available@[k],
            decreases available@.len() - i,
        {
            if available[i] == 0 || available[i] % PAGE_SIZE_4K != 0 || available[i] > usize::MAX
                - PAGE_SIZE_1G {
                assert(!usable_frame(available@[i as int]));
                return None;
            }
            let mut j: usize = 0;
            while j < i
                invariant
                    j <= i < available@.len(),
                    forall|k: int| 0 <= k < j ==> available@[k] != available@[i as int],
                decreases i - j,
            {
                if available[j] == available[i] {
                    assert(!available@.no_duplicates());
                    return None;
                }
                j = j + 1;
            }
            i = i + 1;
        }
        Some(Frames { table, pool: FramePool { available, released: Vec::new() } })
    }

    /// How many references there can still be.
    pub fn references_left(&self) -> (r: usize)
        requires
            self.wf(),
        ensures
            r == self.room(),
    {
        usize::MAX - 1 - self.table.total_refs - self.pool.available.len()
    }

    /// How many frames are at hand.
    pub fn at_hand(&self) -> (r: usize)
        ensures
            r == self@.available.len(),
    {
        self.pool.available.len()
    }

    /// Puts a frame at hand, if it can be mapped, is not there already, and
    /// there can be a reference to it.
    pub fn provide(&mut self, frame: usize) -> (taken: bool)
        requires
            old(self).wf(),
        ensures
            final(self).wf(),
            taken == (usable_frame(frame) && !old(self)@.available.contains(frame) && old(
                self,
            ).room() > 0),
            final(self)@ == if taken {
                FrameState { available: old(self)@.available.push(frame), ..old(self)@ }
            } else {
                old(self)@
            },
            final(self).room() == old(self).room() - if taken {
                1int
            } else {
                0
            },
    {
        if frame == 0 || frame % PAGE_SIZE_4K != 0 || frame > usize::MAX - PAGE_SIZE_1G {
            return false;
        }
        let mut i: usize = 0;
        while i < self.pool.available.len()
            invariant
                self.wf(),
                *self == *old(self),
                i <= self.pool.available@.len(),
                forall|k: int| 0 <= k < i ==> self.pool.available@[k] != frame,
            decreases self.pool.available@.len() - i,
        {
            if self.pool.available[i] == frame {
                assert(self@.available[i as int] == frame);
                return false;
            }
            i = i + 1;
        }
        if self.references_left() == 0 {
            return false;
        }
        self.pool.available.push(frame);
        true
    }

    /// Takes the frames that go back to the allocator.
    pub fn take_released(&mut self) -> (r: Vec<usize>)
        requires
            old(self).wf(),
        ensures
            r@ == old(self)@.released,
            final(self).wf(),
            final(self)@ == (FrameState { released: Seq::empty(), ..old(self)@ }),
    {
        let mut released: Vec<usize> = Vec::new();
        std::mem::swap(&mut released, &mut self.pool.released);
        released
    }

    /// A new frame with one reference, if the allocator has one.
    pub fn alloc_frame(&mut self) -> (r: Option<usize>)
        requires
            old(self).wf(),
        ensures
            final(self).wf(),
            final(self)@ == old(self)@.after_alloc(),
            final(self).room() >= old(self).room(),
            r == old(self)@.next(),
            r matches Some(f) ==> usable_frame(f) && final(self)@.counts.releasable(f),
    {
        match self.pool.available.pop() {
            None => None,
            Some(frame) => {
                assert(old(self)@.available[old(self)@.available.len() - 1] == frame);
                assert forall|i: int| 0 <= i < self.pool.available@.len() implies usable_frame(
                    #[trigger] self.pool.available@[i],
                ) by {
                    assert(self.pool.available@[i] == old(self)@.available[i]);
                }
                self.cow_mark_frame_used(frame);
                Some(frame)
            },
        }
    }

    fn cow_mark_frame_used(&mut self, frame: usize)
        requires
            old(self).table.wf(),
            old(self).table.total() < usize::MAX,
        ensures
            final(self).table.wf(),
            final(self).table@ == old(self).table@.used(frame),
            final(self).table.total() <= old(self).table.total() + 1,
            final(self).pool == old(self).pool,
    {
        if self.table.contains(frame) {
            self.table.mark_used(frame);
        }
    }

    /// Adds a reference to a counted frame.
    pub fn cow_inc_frame_ref(&mut self, frame: usize)
        requires
            old(self).wf(),
            old(self).room() > 0,
        ensures
            final(self).wf(),
            final(self).room() >= old(self).room() - 1,
            final(self)@ == (FrameState { counts: old(self)@.counts.inc(frame), ..old(self)@ }),
    {
        if self.table.contains(frame) {
            self.table.inc_ref(frame);
        }
    }

    /// Drops a reference to a counted frame; true if it was the last one.
    pub fn cow_dec_frame_ref(&mut self, frame: usize) -> (r: bool)
        requires
            old(self).wf(),
            old(self)@.counts.releasable(frame),
        ensures
            final(self).wf(),
            final(self).room() >= old(self).room(),
            r == old(self)@.counts.last_ref(frame),
            final(self)@ == (FrameState { counts: old(self)@.counts.dec(frame), ..old(self)@ }),
    {
        if self.table.contains(frame) {
            self.table.dec_ref(frame) == 0
        } else {
            false
        }
    }

    /// The count of a frame, or two for a frame that is not counted.
    pub fn sharers(&self, frame: usize) -> (r: usize)
        requires
            self.wf(),
        ensures
            r == if self@.counts.has(frame) {
                self@.counts.count(frame)
            } else {
                2
            },
    {
        if self.table.contains(frame) {
            self.table.get_ref(frame)
        } else {
            2
        }
    }

    /// Gives up a reference; the frame goes back with its last one.
    pub fn dealloc_frame(&mut self, frame: usize)
        requires
            old(self).wf(),
            old(self)@.counts.releasable(frame),
        ensures
            final(self).wf(),
            final(self).room() >= old(self).room(),
            final(self)@ == old(self)@.dealloc(frame),
    {
        if !self.cow_dec_frame_ref(frame) {
            return;
        }
        self.pool.released.push(frame);
    }

    /// Gives up one reference to each of `frames`.
    pub fn dealloc_frames(&mut self, frames: &Vec<usize>)
        requires
            old(self).wf(),
            old(self)@.releasable(frames@),
        ensures
            final(self).wf(),
            final(self).room() >= old(self).room(),
            final(self)@ == old(self)@.dealloc_all(frames@),
    {
        let mut i: usize = 0;
        while i < frames.len()
            invariant
                i <= frames@.len(),
                self.wf(),
                self.room() >= old(self).room(),
                old(self)@.releasable(frames@),
                self@ == old(self)@.dealloc_all(frames@.take(i as int)),
            decreases frames@.len() - i,
        {
            proof {
                lemma_releasable_prefix(old(self)@, frames@, (i + 1) as int);
                assert(frames@.take((i + 1) as int).drop_last() =~= frames@.take(i as int));
            }
            self.dealloc_frame(frames[i]);
            i = i + 1;
        }
        assert(frames@.take(i as int) =~= frames@);
    }
}

/// Frames at different page boundaries are counted apart.
pub(crate) proof fn lemma_counted_apart(c: FrameCounts, p: usize, q: usize)
    requires
        p % 0x1000 == 0,
        q % 0x1000 == 0,
        p != q,
        c.has(p),
        c.has(q),
    ensures
        c.index(p) != c.index(q),
        0 <= c.index(p) < c.refs.len(),
        0 <= c.index(q) < c.refs.len(),
{
}

/// What happens to one frame leaves the others alone.
pub(crate) proof fn lemma_other_frame(c: FrameCounts, p: usize, q: usize)
    requires
        p % 0x1000 == 0,
        q % 0x1000 == 0,
        p != q,
        c.releasable(q),
    ensures
        c.used(p).releasable(q),
        c.dec(p).releasable(q),
{
    if c.has(p) && c.has(q) {
        lemma_counted_apart(c, p, q);
    }
}

/// Different frames with references can be given up one after another.
pub(crate) proof fn lemma_distinct_releasable(s: FrameState, frames: Seq<usize>)
    requires
        frames.no_duplicates(),
        forall|i: int|
            0 <= i < frames.len() ==> (#[trigger] frames[i]) % 0x1000 == 0 && s.counts.releasable(
                frames[i],
            ),
    ensures
        s.releasable(frames),
        forall|f: usize|
            #![trigger s.dealloc_all(frames).counts.releasable(f)]
            f % 0x1000 == 0 && !frames.contains(f) && s.counts.releasable(f) ==> s.dealloc_all(
                frames,
            ).counts.releasable(f),
    decreases frames.len(),
{
    if frames.len() > 0 {
        let rest = frames.drop_last();
        let last = frames.last();
        assert forall|i: int| 0 <= i < rest.len() implies (#[trigger] rest[i]) % 0x1000 == 0
            && s.counts.releasable(rest[i]) by {
            assert(rest[i] == frames[i]);
        }
        lemma_distinct_releasable(s, rest);
        assert(frames[frames.len() - 1] == last);
        assert(!rest.contains(last));
        let t = s.dealloc_all(rest);
        assert(t.counts.releasable(last));
        assert forall|f: usize|
            #![trigger s.dealloc_all(frames).counts.releasable(f)]
            f % 0x1000 == 0 && !frames.contains(f) && s.counts.releasable(f) implies s.dealloc_all(
            frames,
        ).counts.releasable(f) by {
            assert(!rest.contains(f)) by {
                if rest.contains(f) {
                    let i = choose|i: int| 0 <= i < rest.len() && rest[i] == f;
                    assert(frames[i] == f);
                }
            }
            assert(t.counts.releasable(f));
            lemma_other_frame(t.counts, last, f);
        }
    }
}

/// How often a frame occurs in a list, by its place in the table.
pub open spec fn times_in(c: FrameCounts, frames: Seq<usize>, f: usize) -> int
    decreases frames.len(),
{
    if frames.len() == 0 {
        0
    } else {
        times_in(c, frames.drop_last(), f) + if c.has(frames.last()) && c.index(frames.last())
            == c.index(f) {
            1int
        } else {
            0
        }
    }
}

/// A frame in a list occurs in it.
pub(crate) proof fn lemma_listed_occurs(c: FrameCounts, frames: Seq<usize>, f: usize)
    requires
        c.has(f),
        frames.contains(f),
    ensures
        times_in(c, frames, f) >= 1,
    decreases frames.len(),
{
    lemma_times_same_table(c, c, frames.drop_last(), f);
    if frames.last() != f {
        let i = choose|i: int| 0 <= i < frames.len() && frames[i] == f;
        assert(frames.drop_last()[i] == f);
        lemma_listed_occurs(c, frames.drop_last(), f);
    }
}

/// The counts after a reference to each of `frames` was added.
pub open spec fn inc_all(c: FrameCounts, frames: Seq<usize>) -> FrameCounts
    decreases frames.len(),
{
    if frames.len() == 0 {
        c
    } else {
        inc_all(c, frames.drop_last()).inc(frames.last())
    }
}

proof fn lemma_times_same_table(c: FrameCounts, d: FrameCounts, frames: Seq<usize>, f: usize)
    requires
        c.base == d.base,
        c.refs.len() == d.refs.len(),
    ensures
        times_in(c, frames, f) == times_in(d, frames, f),
        times_in(c, frames, f) >= 0,
    decreases frames.len(),
{
    if frames.len() > 0 {
        lemma_times_same_table(c, d, frames.drop_last(), f);
    }
}

/// Frames that occur no more often than they are counted can be given up.
pub(crate) proof fn lemma_counted_releasable(s: FrameState, frames: Seq<usize>)
    requires
        forall|f: usize|
            #![trigger times_in(s.counts, frames, f)]
            s.counts.has(f) ==> s.counts.count(f) >= times_in(s.counts, frames, f),
    ensures
        s.releasable(frames),
        s.dealloc_all(frames).counts.base == s.counts.base,
        s.dealloc_all(frames).counts.refs.len() == s.counts.refs.len(),
        forall|f: usize|
            #![trigger s.dealloc_all(frames).counts.count(f)]
            s.counts.has(f) ==> s.dealloc_all(frames).counts.count(f) == s.counts.count(f)
                - times_in(s.counts, frames, f),
    decreases frames.len(),
{
    if frames.len() > 0 {
        let rest = frames.drop_last();
        let last = frames.last();
        assert forall|f: usize|
            #![trigger times_in(s.counts, rest, f)]
            s.counts.has(f) implies s.counts.count(f) >= times_in(s.counts, rest, f) by {
            assert(times_in(s.counts, frames, f) >= times_in(s.counts, rest, f));
        }
        lemma_counted_releasable(s, rest);
        let t = s.dealloc_all(rest);
        if s.counts.has(last) {
            assert(t.counts.count(last) == s.counts.count(last) - times_in(s.counts, rest, last));
            assert(times_in(s.counts, frames, last) == times_in(s.counts, rest, last) + 1);
        }
        assert(t.counts.releasable(last));
        assert forall|f: usize|
            #![trigger s.dealloc_all(frames).counts.count(f)]
            s.counts.has(f) implies s.dealloc_all(frames).counts.count(f) == s.counts.count(f)
            - times_in(s.counts, frames, f) by {
            assert(t.counts.count(f) == s.counts.count(f) - times_in(s.counts, rest, f));
        }
    }
}

/// References that were just added can be given up again.
pub(crate) proof fn lemma_added_references_releasable(c: FrameCounts, frames: Seq<usize>, s: FrameState)
    requires
        s.counts == inc_all(c, frames),
        forall|i: int| 0 <= i < c.refs.len() ==> (#[trigger] c.refs[i]) + frames.len() <= usize::MAX,
    ensures
        s.releasable(frames),
{
    lemma_inc_all_counts(c, frames, 0);
    assert forall|f: usize|
        #![trigger times_in(s.counts, frames, f)]
        s.counts.has(f) implies s.counts.count(f) >= times_in(s.counts, frames, f) by {
        lemma_inc_all_counts(c, frames, f);
        lemma_times_same_table(c, s.counts, frames, f);
        assert(inc_all(c, frames).count(f) == c.count(f) + times_in(c, frames, f));
    }
    lemma_counted_releasable(s, frames);
}

pub(crate) proof fn lemma_inc_all_counts(c: FrameCounts, frames: Seq<usize>, f: usize)
    requires
        forall|i: int| 0 <= i < c.refs.len() ==> (#[trigger] c.refs[i]) + frames.len() <= usize::MAX,
    ensures
        inc_all(c, frames).base == c.base,
        inc_all(c, frames).refs.len() == c.refs.len(),
        c.has(f) ==> inc_all(c, frames).count(f) == c.count(f) + times_in(c, frames, f),
        0 <= times_in(c, frames, f) <= frames.len(),
    decreases frames.len(),
{
    if frames.len() > 0 {
        let rest = frames.drop_last();
        let last = frames.last();
        lemma_inc_all_counts(c, rest, f);
        lemma_inc_all_counts(c, rest, last);
        if c.has(f) {
            assert(c.refs[c.index(f)] + frames.len() <= usize::MAX);
        }
        if c.has(last) {
            assert(c.refs[c.index(last)] + frames.len() <= usize::MAX);
        }
    }
}

proof fn lemma_releasable_prefix(s: FrameState, frames: Seq<usize>, n: int)
    requires
        0 <= n <= frames.len(),
        s.releasable(frames),
    ensures
        s.releasable(frames.take(n)),
    decreases frames.len(),
{
    if n == frames.len() {
        assert(frames.take(n) =~= frames);
    } else {
        lemma_releasable_prefix(s, frames.drop_last(), n);
        assert(frames.drop_last().take(n) =~= frames.take(n));
    }
}

} // verus!
