//! The set of memory areas of an address space.
use vstd::prelude::*;

use crate::error::MappingError;

use super::backend::Backend;
use super::file_map::FileSizes;
use super::flags::MappingFlags;
use super::frame_table::{FrameState, Frames};
use super::paging::{aligned_4k, align_up_4k, round_up_4k, PageTable, PtMap};
use super::populate::mapped;
use super::protect::{protected, Protecting};
use super::reclaim::{DeferredReclaims, TlbInvalidationTracker};
use super::unmap::{lemma_unmapped_keeps_buffer, unmapped, unmapping, Unmapping};

verus! {

/// A range of addresses that is mapped in one way.
pub struct MemoryArea {
    pub start: usize,
    pub end: usize,
    pub flags: MappingFlags,
    pub backend: Backend,
}

impl Clone for MemoryArea {
    fn clone(&self) -> (r: Self)
        ensures
            r == *self,
    {
        MemoryArea {
            start: self.start,
            end: self.end,
            flags: self.flags,
            backend: self.backend.clone(),
        }
    }
}

impl MemoryArea {
    pub open spec fn has(self, a: int) -> bool {
        self.start <= a < self.end
    }

    /// Whether the area and `[lo, hi)` meet.
    pub open spec fn meets(self, lo: int, hi: int) -> bool {
        self.start < hi && lo < self.end
    }

    pub open spec fn wf(self) -> bool {
        &&& self.start < self.end
        &&& aligned_4k(self.start as int)
        &&& aligned_4k(self.end as int)
    }

    /// The same area between `start` and `end`.
    pub open spec fn part(self, start: usize, end: usize) -> Self {
        MemoryArea { start, end, ..self }
    }

    fn cut(&self, start: usize, end: usize) -> (r: Self)
        ensures
            r == self.part(start, end),
    {
        MemoryArea { start, end, flags: self.flags, backend: self.backend.clone() }
    }

    fn overlaps(&self, lo: usize, hi: usize) -> (r: bool)
        ensures
            r == self.meets(lo as int, hi as int),
    {
        self.start < hi && lo < self.end
    }

    fn push_trimmed(&self, kept: &mut Vec<MemoryArea>, lo: usize, hi: usize)
        ensures
            final(kept)@ == old(kept)@ + trimmed(*self, lo, hi),
    {
        if self.start < lo {
            kept.push(self.cut(self.start, lo));
        }
        if hi < self.end {
            kept.push(self.cut(hi, self.end));
        }
        assert(kept@ =~= old(kept)@ + trimmed(*self, lo, hi));
    }

    fn push_recolored(&self, kept: &mut Vec<MemoryArea>, lo: usize, hi: usize, flags: MappingFlags)
        ensures
            final(kept)@ == old(kept)@ + recolored(*self, lo, hi, flags),
    {
        if self.start < lo {
            kept.push(self.cut(self.start, lo));
        }
        let start: usize = if self.start > lo {
            self.start
        } else {
            lo
        };
        let end: usize = if self.end < hi {
            self.end
        } else {
            hi
        };
        kept.push(MemoryArea { start, end, flags, backend: self.backend.clone() });
        if hi < self.end {
            kept.push(self.cut(hi, self.end));
        }
        assert(kept@ =~= old(kept)@ + recolored(*self, lo, hi, flags));
    }
}

/// Areas in order, none of which meets another.
#[verifier::opaque]
pub open spec fn areas_wf(s: Seq<MemoryArea>) -> bool {
    &&& forall|i: int| 0 <= i < s.len() ==> (#[trigger] s[i]).wf()
    &&& forall|i: int, j: int|
        0 <= i < j < s.len() ==> (#[trigger] s[i]).end <= (#[trigger] s[j]).start
}

/// Whether `[lo, hi)` meets an area.
pub open spec fn any_meets(s: Seq<MemoryArea>, lo: int, hi: int) -> bool {
    exists|i: int| 0 <= i < s.len() && (#[trigger] s[i]).meets(lo, hi)
}

/// The index of the area around `a`.
pub open spec fn area_index(s: Seq<MemoryArea>, a: int) -> Option<int>
    decreases s.len(),
{
    if s.len() == 0 {
        None
    } else if s.last().has(a) {
        Some(s.len() - 1)
    } else {
        area_index(s.drop_last(), a)
    }
}

/// How many areas start below `start`.
pub open spec fn rank(s: Seq<MemoryArea>, start: usize) -> nat
    decreases s.len(),
{
    if s.len() == 0 {
        0
    } else if s.last().start < start {
        s.len()
    } else {
        rank(s.drop_last(), start)
    }
}

/// The areas with one more in its place.
pub open spec fn with_area(s: Seq<MemoryArea>, a: MemoryArea) -> Seq<MemoryArea> {
    s.insert(rank(s, a.start) as int, a)
}

pub(crate) proof fn lemma_area_index(s: Seq<MemoryArea>, a: int)
    ensures
        match area_index(s, a) {
            Some(i) => 0 <= i < s.len() && s[i].has(a),
            None => forall|i: int| 0 <= i < s.len() ==> !(#[trigger] s[i]).has(a),
        },
    decreases s.len(),
{
    if s.len() > 0 && !s.last().has(a) {
        lemma_area_index(s.drop_last(), a);
        assert forall|i: int|
            area_index(s, a) is None && 0 <= i < s.len() implies !(#[trigger] s[i]).has(a) by {
            if i < s.len() - 1 {
                assert(s.drop_last()[i] == s[i]);
            }
        }
    }
}

/// The area that holds an address is the one that a search finds.
pub(crate) proof fn lemma_found(s: Seq<MemoryArea>, k: int, a: int)
    requires
        areas_wf(s),
        0 <= k < s.len(),
        s[k].start <= a < s[k].end,
    ensures
        area_index(s, a) == Some(k),
{
    reveal(areas_wf);
    lemma_area_index(s, a);
    assert(s[k].has(a));
    let i = area_index(s, a)->0;
    if i < k {
        assert(s[i].end <= s[k].start);
    } else if k < i {
        assert(s[k].end <= s[i].start);
    }
}

pub(crate) proof fn lemma_rank(s: Seq<MemoryArea>, start: usize)
    requires
        areas_wf(s),
    ensures
        rank(s, start) <= s.len(),
        forall|i: int| 0 <= i < rank(s, start) ==> (#[trigger] s[i]).start < start,
        forall|i: int| rank(s, start) <= i < s.len() ==> (#[trigger] s[i]).start >= start,
    decreases s.len(),
{
    reveal(areas_wf);
    if s.len() > 0 {
        if s.last().start < start {
            assert forall|i: int| 0 <= i < s.len() implies (#[trigger] s[i]).start < start by {
                if i < s.len() - 1 {
                    assert(s[i].end <= s[s.len() - 1].start);
                    assert(s[i].wf());
                }
            }
        } else {
            let t = s.drop_last();
            assert(areas_wf(t)) by {
                assert forall|i: int| 0 <= i < t.len() implies (#[trigger] t[i]).wf() by {
                    assert(t[i] == s[i]);
                }
                assert forall|i: int, j: int| 0 <= i < j < t.len() implies (#[trigger] t[i]).end
                    <= (#[trigger] t[j]).start by {
                    assert(t[i] == s[i] && t[j] == s[j]);
                }
            }
            lemma_rank(t, start);
            assert forall|i: int| 0 <= i < rank(s, start) implies (#[trigger] s[i]).start
                < start by {
                assert(t[i] == s[i]);
            }
            assert forall|i: int| rank(s, start) <= i < s.len() implies (#[trigger] s[i]).start
                >= start by {
                if i < s.len() - 1 {
                    assert(t[i] == s[i]);
                }
            }
        }
    }
}

/// An area that meets no other can be added.
pub(crate) proof fn lemma_with_area_wf(s: Seq<MemoryArea>, a: MemoryArea)
    requires
        areas_wf(s),
        a.wf(),
        !any_meets(s, a.start as int, a.end as int),
    ensures
        areas_wf(with_area(s, a)),
{
    reveal(areas_wf);
    lemma_rank(s, a.start);
    let k = rank(s, a.start) as int;
    let t = with_area(s, a);
    assert forall|i: int| 0 <= i < t.len() implies (#[trigger] t[i]).wf() by {
        if i < k {
            assert(t[i] == s[i]);
        } else if i > k {
            assert(t[i] == s[i - 1]);
        }
    }
    assert forall|i: int, j: int| 0 <= i < j < t.len() implies (#[trigger] t[i]).end <= (
    #[trigger] t[j]).start by {
        let x = if i < k {
            i
        } else {
            i - 1
        };
        let y = if j < k {
            j
        } else {
            j - 1
        };
        if i == k {
            assert(t[j] == s[y]);
            assert(!s[y].meets(a.start as int, a.end as int));
            assert(s[y].wf());
        } else if j == k {
            assert(t[i] == s[x]);
            assert(!s[x].meets(a.start as int, a.end as int));
        } else {
            assert(t[i] == s[x] && t[j] == s[y]);
        }
    }
}

/// Looks for a gap of `size` bytes from the `i`-th area on, the first
/// candidate being `at`.
pub open spec fn gap_from(
    s: Seq<MemoryArea>,
    i: nat,
    at: int,
    size: int,
    limit_end: int,
) -> Option<usize>
    decreases s.len() - i,
{
    if i >= s.len() {
        if at + size <= limit_end {
            Some(at as usize)
        } else {
            None
        }
    } else if at + size <= s[i as int].start {
        if at + size <= limit_end {
            Some(at as usize)
        } else {
            None
        }
    } else {
        gap_from(s, (i + 1) as nat, s[i as int].end as int, size, limit_end)
    }
}

/// Where the search for a gap begins: at the hint, or behind an area that
/// reaches over it.
pub open spec fn gap_start(s: Seq<MemoryArea>, hint: usize, limit_start: usize) -> int {
    let at = round_up_4k(
        if hint > limit_start {
            hint as int
        } else {
            limit_start as int
        },
    );
    let k = rank(s, at as usize);
    if k > 0 && s[k - 1].end > at {
        s[k - 1].end as int
    } else {
        at
    }
}

/// The first gap of `size` bytes from the hint on.
pub open spec fn gap(
    s: Seq<MemoryArea>,
    hint: usize,
    size: usize,
    limit_start: usize,
    limit_end: usize,
) -> Option<usize> {
    let at = gap_start(s, hint, limit_start);
    if size % 0x1000 != 0 {
        None
    } else {
        gap_from(s, rank(s, at as usize), at, size as int, limit_end as int)
    }
}

/// A gap is free and ends within the limit, and starts at a page boundary not
/// below the hint.
pub proof fn lemma_gap_is_free(
    s: Seq<MemoryArea>,
    i: nat,
    at: int,
    size: int,
    limit_end: int,
)
    requires
        areas_wf(s),
        i <= s.len(),
        0 <= at <= usize::MAX,
        aligned_4k(at),
        0 <= size,
        limit_end <= usize::MAX,
        forall|j: int| 0 <= j < i ==> (#[trigger] s[j]).end <= at,
        i < s.len() ==> at <= s[i as int].start,
    ensures
        gap_from(s, i, at, size, limit_end) matches Some(r) ==> {
            &&& at <= r
            &&& aligned_4k(r as int)
            &&& r + size <= limit_end
            &&& !any_meets(s, r as int, r + size)
        },
    decreases s.len() - i,
{
    reveal(areas_wf);
    if i >= s.len() {
    } else if at + size <= s[i as int].start {
        assert forall|j: int| 0 <= j < s.len() implies !(#[trigger] s[j]).meets(at, at + size) by {
            if j > i {
                assert(s[i as int].end <= s[j].start);
            }
            assert(s[i as int].wf());
        }
    } else {
        let next = s[i as int].end as int;
        assert(s[i as int].wf());
        assert forall|j: int| 0 <= j < i + 1 implies (#[trigger] s[j]).end <= next by {
            if j < i {
                assert(s[j].end <= s[i as int].start);
            }
        }
        lemma_gap_is_free(s, (i + 1) as nat, next, size, limit_end);
    }
}

/// What a search finds is free: it begins at a page, not below the hint or the
/// limit, and ends within the limit.
pub proof fn lemma_gap_found_is_free(
    s: Seq<MemoryArea>,
    hint: usize,
    size: usize,
    limit_start: usize,
    limit_end: usize,
)
    requires
        areas_wf(s),
        round_up_4k(hint as int) <= usize::MAX,
        round_up_4k(limit_start as int) <= usize::MAX,
    ensures
        gap(s, hint, size, limit_start, limit_end) matches Some(a) ==> {
            &&& a % 0x1000 == 0
            &&& a >= hint
            &&& a >= limit_start
            &&& a + size <= limit_end
            &&& forall|j: int|
                0 <= j < s.len() ==> !((#[trigger] s[j]).start < a + size && a < s[j].end)
            &&& !any_meets(s, a as int, a + size)
        },
{
    reveal(areas_wf);
    let from = if hint > limit_start {
        hint
    } else {
        limit_start
    };
    let first = round_up_4k(from as int) as usize;
    let k = rank(s, first);
    lemma_rank(s, first);
    if k > 0 {
        assert(s[k - 1].wf());
    }
    let at = gap_start(s, hint, limit_start) as usize;
    let i = rank(s, at);
    lemma_rank(s, at);
    assert forall|j: int| 0 <= j < i implies (#[trigger] s[j]).end <= at by {
        assert(s[j].wf());
        if j < k - 1 {
            assert(s[j].end <= s[k - 1].start);
        } else if j >= k {
            assert(s[j].start >= first);
            if k > 0 {
                assert(s[k - 1].end <= s[j].start);
            }
        }
    }
    lemma_gap_is_free(s, i, at as int, size as int, limit_end as int);
    if let Some(a) = gap(s, hint, size, limit_start, limit_end) {
        assert forall|j: int| 0 <= j < s.len() implies !((#[trigger] s[j]).start < a + size && a
            < s[j].end) by {
            assert(!s[j].meets(a as int, a + size));
        }
    }
}

proof fn lemma_gap_from_is_first(
    s: Seq<MemoryArea>,
    i: nat,
    at: int,
    size: int,
    limit_end: int,
    a: int,
)
    requires
        areas_wf(s),
        i <= s.len(),
        0 <= at <= a,
        0 < size,
        a + size <= limit_end,
        !any_meets(s, a, a + size),
    ensures
        gap_from(s, i, at, size, limit_end) matches Some(r) && r <= a,
    decreases s.len() - i,
{
    reveal(areas_wf);
    if i < s.len() && at + size > s[i as int].start {
        assert(s[i as int].wf());
        assert(!s[i as int].meets(a, a + size));
        lemma_gap_from_is_first(s, (i + 1) as nat, s[i as int].end as int, size, limit_end, a);
    }
}

/// A search finds the lowest free range: wherever there is room from the hint
/// on and within the limits, what is found begins there or below. So a hint that
/// is free is what is found, however often it is asked for.
pub proof fn lemma_gap_is_the_first(
    s: Seq<MemoryArea>,
    hint: usize,
    size: usize,
    limit_start: usize,
    limit_end: usize,
    a: usize,
)
    requires
        areas_wf(s),
        size > 0,
        aligned_4k(size as int),
        aligned_4k(a as int),
        hint <= a,
        limit_start <= a,
        a + size <= limit_end,
        !any_meets(s, a as int, a + size),
    ensures
        gap(s, hint, size, limit_start, limit_end) matches Some(r) && r <= a,
        a == hint ==> gap(s, hint, size, limit_start, limit_end) == Some(a),
{
    let from = if hint > limit_start {
        hint
    } else {
        limit_start
    };
    let up = round_up_4k(from as int);
    assert(from <= up <= a);
    lemma_rank(s, up as usize);
    let k = rank(s, up as usize);
    let at = gap_start(s, hint, limit_start);
    reveal(areas_wf);
    if k > 0 && s[k - 1].end > up {
        assert(s[k - 1].wf());
        assert(!s[k - 1].meets(a as int, a + size));
    }
    assert(from <= at <= a);
    lemma_rank(s, at as usize);
    lemma_gap_from_is_first(s, rank(s, at as usize), at, size as int, limit_end as int, a as int);
    if a == hint {
        lemma_gap_not_below(s, rank(s, at as usize), at, size as int, limit_end as int);
    }
}

proof fn lemma_gap_not_below(s: Seq<MemoryArea>, i: nat, at: int, size: int, limit_end: int)
    requires
        areas_wf(s),
        0 <= at <= usize::MAX,
        0 < size,
        limit_end <= usize::MAX,
        i < s.len() ==> at <= s[i as int].start,
    ensures
        gap_from(s, i, at, size, limit_end) matches Some(r) ==> at <= r,
    decreases s.len() - i,
{
    reveal(areas_wf);
    if i < s.len() && at + size > s[i as int].start {
        assert(s[i as int].wf());
        if i + 1 < s.len() {
            assert(s[i as int].end <= s[i as int + 1].start);
        }
        lemma_gap_not_below(s, (i + 1) as nat, s[i as int].end as int, size, limit_end);
    }
}

/// What has happened while a range is taken out of a set of areas.
pub ghost struct SetUnmapping {
    pub ok: bool,
    /// The areas that are left of those looked at.
    pub kept: Seq<MemoryArea>,
    pub u: Unmapping,
}

/// What is left of an area without `[lo, hi)`.
pub open spec fn trimmed(a: MemoryArea, lo: usize, hi: usize) -> Seq<MemoryArea> {
    let left = if a.start < lo {
        seq![a.part(a.start, lo)]
    } else {
        Seq::empty()
    };
    let right = if hi < a.end {
        seq![a.part(hi, a.end)]
    } else {
        Seq::empty()
    };
    left + right
}

pub open spec fn max_of(a: usize, b: usize) -> usize {
    if a > b {
        a
    } else {
        b
    }
}

pub open spec fn min_of(a: usize, b: usize) -> usize {
    if a < b {
        a
    } else {
        b
    }
}

/// The areas without `[lo, hi)` of the `i`-th.
pub open spec fn carved(s: Seq<MemoryArea>, i: int, lo: usize, hi: usize) -> Seq<MemoryArea> {
    s.take(i) + trimmed(s[i], lo, hi) + s.skip(i + 1)
}

/// Cutting a part out of an area leaves areas that do not meet the part.
pub(crate) proof fn lemma_carved(s: Seq<MemoryArea>, i: int, lo: usize, hi: usize)
    requires
        areas_wf(s),
        0 <= i < s.len(),
        s[i].start <= lo < hi <= s[i].end,
        aligned_4k(lo as int),
        aligned_4k(hi as int),
    ensures
        areas_wf(carved(s, i, lo, hi)),
        !any_meets(carved(s, i, lo, hi), lo as int, hi as int),
        forall|a: int, b: int|
            s[i].end <= a && any_meets(carved(s, i, lo, hi), a, b) ==> #[trigger] any_meets(s, a, b),
{
    reveal(areas_wf);
    let pieces = trimmed(s[i], lo, hi);
    let left = s.take(i);
    let right = s.skip(i + 1);
    assert(s[i].wf());
    assert(areas_wf(left)) by {
        assert forall|k: int| 0 <= k < left.len() implies (#[trigger] left[k]).wf() by {
            assert(left[k] == s[k]);
        }
        assert forall|k: int, j: int| 0 <= k < j < left.len() implies (#[trigger] left[k]).end <= (
        #[trigger] left[j]).start by {
            assert(left[k] == s[k] && left[j] == s[j]);
        }
    }
    assert(areas_wf(right)) by {
        assert forall|k: int| 0 <= k < right.len() implies (#[trigger] right[k]).wf() by {
            assert(right[k] == s[k + i + 1]);
        }
        assert forall|k: int, j: int| 0 <= k < j < right.len() implies (#[trigger] right[k]).end
            <= (#[trigger] right[j]).start by {
            assert(right[k] == s[k + i + 1] && right[j] == s[j + i + 1]);
        }
    }
    assert(areas_wf(pieces));
    assert forall|a: int, b: int| 0 <= a < left.len() && 0 <= b < pieces.len() implies (
    #[trigger] left[a]).end <= (#[trigger] pieces[b]).start by {
        assert(left[a] == s[a]);
        assert(s[a].end <= s[i].start);
    }
    lemma_concat_wf(left, pieces);
    let front = left + pieces;
    assert forall|a: int, b: int| 0 <= a < front.len() && 0 <= b < right.len() implies (
    #[trigger] front[a]).end <= (#[trigger] right[b]).start by {
        assert(right[b] == s[b + i + 1]);
        if a < left.len() {
            assert(front[a] == s[a]);
        } else {
            assert(front[a] == pieces[a - left.len()]);
            assert(s[i].end <= s[b + i + 1].start);
        }
    }
    lemma_concat_wf(front, right);
    let t = carved(s, i, lo, hi);
    assert forall|k: int| 0 <= k < t.len() implies !(#[trigger] t[k]).meets(lo as int, hi as int)
        && (t[k].end <= s[i].end || exists|j: int| 0 <= j < s.len() && s[j] == t[k]) by {
        if k < left.len() {
            assert(t[k] == s[k]);
            assert(s[k].end <= s[i].start);
        } else if k < front.len() {
            assert(t[k] == pieces[k - left.len()]);
        } else {
            assert(t[k] == right[k - front.len()]);
            assert(t[k] == s[k - front.len() + i + 1]);
            assert(s[i].end <= s[k - front.len() + i + 1].start);
        }
    }
    assert forall|a: int, b: int| s[i].end <= a && any_meets(t, a, b) implies #[trigger] any_meets(
        s,
        a,
        b,
    ) by {
        let k = choose|k: int| 0 <= k < t.len() && (#[trigger] t[k]).meets(a, b);
        let j = choose|j: int| 0 <= j < s.len() && s[j] == t[k];
        assert(s[j].meets(a, b));
    }
}

/// What is left after a range was taken out lies in what was there, and clear
/// of the range if all went well.
pub(crate) proof fn lemma_unmap_areas_within(
    t: SetUnmapping,
    s: Seq<MemoryArea>,
    i: int,
    lo: usize,
    hi: usize,
    sizes: Seq<(u64, usize)>,
    a: int,
    b: int,
)
    requires
        0 <= i <= s.len(),
        lo < hi,
        areas_wf(s),
        !any_meets(t.kept, a, b),
        !any_meets(s, a, b),
        !any_meets(t.kept, lo as int, hi as int),
    ensures
        !any_meets(unmap_areas(t, s, i, lo, hi, sizes).kept, a, b),
        unmap_areas(t, s, i, lo, hi, sizes).ok ==> !any_meets(
            unmap_areas(t, s, i, lo, hi, sizes).kept,
            lo as int,
            hi as int,
        ),
    decreases s.len() - i,
{
    reveal(areas_wf);
    if i < s.len() {
        assert(!s[i].meets(a, b));
        assert(s[i].wf());
        if !s[i].meets(lo as int, hi as int) {
            let n = SetUnmapping { kept: t.kept.push(s[i]), ..t };
            assert forall|k: int| 0 <= k < n.kept.len() implies !(#[trigger] n.kept[k]).meets(a, b)
                && !n.kept[k].meets(lo as int, hi as int) by {
                if k < t.kept.len() {
                    assert(n.kept[k] == t.kept[k]);
                }
            }
            lemma_unmap_areas_within(n, s, i + 1, lo, hi, sizes, a, b);
        } else {
            let u = unmap_part(s[i], t.u, lo, hi, sizes);
            if u.ok {
                let pieces = trimmed(s[i], lo, hi);
                let n = SetUnmapping { ok: true, kept: t.kept + pieces, u };
                assert forall|k: int| 0 <= k < n.kept.len() implies !(#[trigger] n.kept[k]).meets(
                    a,
                    b,
                ) && !n.kept[k].meets(lo as int, hi as int) by {
                    if k < t.kept.len() {
                        assert(n.kept[k] == t.kept[k]);
                    } else {
                        assert(n.kept[k] == pieces[k - t.kept.len()]);
                    }
                }
                lemma_unmap_areas_within(n, s, i + 1, lo, hi, sizes, a, b);
            } else {
                let kept = t.kept + s.skip(i);
                assert forall|k: int| 0 <= k < kept.len() implies !(#[trigger] kept[k]).meets(
                    a,
                    b,
                ) by {
                    if k < t.kept.len() {
                        assert(kept[k] == t.kept[k]);
                    } else {
                        assert(kept[k] == s[k - t.kept.len() + i]);
                    }
                }
            }
        }
    }
}

/// Takes the part of `a` in `[lo, hi)` out of the page table.
pub open spec fn unmap_part(
    a: MemoryArea,
    u: Unmapping,
    lo: usize,
    hi: usize,
    sizes: Seq<(u64, usize)>,
) -> Unmapping {
    let start = max_of(a.start, lo);
    unmapped(a.backend, u, start, (min_of(a.end, hi) - start) as usize, sizes)
}

/// Takes `[lo, hi)` out of the areas from the `i`-th on. The first area that
/// cannot be taken out ends it; that area and those behind it stay.
pub open spec fn unmap_areas(
    t: SetUnmapping,
    s: Seq<MemoryArea>,
    i: int,
    lo: usize,
    hi: usize,
    sizes: Seq<(u64, usize)>,
) -> SetUnmapping
    decreases s.len() - i,
{
    if i >= s.len() {
        t
    } else if !s[i].meets(lo as int, hi as int) {
        unmap_areas(SetUnmapping { kept: t.kept.push(s[i]), ..t }, s, i + 1, lo, hi, sizes)
    } else {
        let u = unmap_part(s[i], t.u, lo, hi, sizes);
        if u.ok {
            unmap_areas(
                SetUnmapping { ok: true, kept: t.kept + trimmed(s[i], lo, hi), u },
                s,
                i + 1,
                lo,
                hi,
                sizes,
            )
        } else {
            SetUnmapping { ok: false, kept: t.kept + s.skip(i), u }
        }
    }
}

/// What has happened while permissions are changed in a set of areas.
pub ghost struct SetProtecting {
    pub ok: bool,
    pub kept: Seq<MemoryArea>,
    pub p: Protecting,
}

/// An area with `flags` in `[lo, hi)`.
pub open spec fn recolored(
    a: MemoryArea,
    lo: usize,
    hi: usize,
    flags: MappingFlags,
) -> Seq<MemoryArea> {
    let left = if a.start < lo {
        seq![a.part(a.start, lo)]
    } else {
        Seq::empty()
    };
    let right = if hi < a.end {
        seq![a.part(hi, a.end)]
    } else {
        Seq::empty()
    };
    let middle = MemoryArea { flags, ..a.part(max_of(a.start, lo), min_of(a.end, hi)) };
    left + seq![middle] + right
}

pub open spec fn protect_part(
    a: MemoryArea,
    p: Protecting,
    lo: usize,
    hi: usize,
    flags: MappingFlags,
    write_implies_read: bool,
) -> Protecting {
    let start = max_of(a.start, lo);
    protected(
        a.backend,
        p,
        start,
        (min_of(a.end, hi) - start) as usize,
        flags,
        write_implies_read,
    )
}

/// Gives `[lo, hi)` the flags `flags` in the areas from the `i`-th on. Areas
/// that have these flags are left alone.
pub open spec fn protect_areas(
    t: SetProtecting,
    s: Seq<MemoryArea>,
    i: int,
    lo: usize,
    hi: usize,
    flags: MappingFlags,
    write_implies_read: bool,
) -> SetProtecting
    decreases s.len() - i,
{
    if i >= s.len() {
        t
    } else if !s[i].meets(lo as int, hi as int) || s[i].flags == flags {
        protect_areas(
            SetProtecting { kept: t.kept.push(s[i]), ..t },
            s,
            i + 1,
            lo,
            hi,
            flags,
            write_implies_read,
        )
    } else {
        let p = protect_part(s[i], t.p, lo, hi, flags, write_implies_read);
        if p.ok {
            protect_areas(
                SetProtecting { ok: true, kept: t.kept + recolored(s[i], lo, hi, flags), p },
                s,
                i + 1,
                lo,
                hi,
                flags,
                write_implies_read,
            )
        } else {
            SetProtecting { ok: false, kept: t.kept + s.skip(i), p }
        }
    }
}

/// The areas of an address space.
pub struct MemorySet {
    areas: Vec<MemoryArea>,
}

impl MemorySet {
    pub closed spec fn view(&self) -> Seq<MemoryArea> {
        self.areas@
    }

    pub open spec fn wf(&self) -> bool {
        areas_wf(self@)
    }

    pub fn new() -> (r: Self)
        ensures
            r@ == Seq::<MemoryArea>::empty(),
            r.wf(),
    {
        reveal(areas_wf);
        MemorySet { areas: Vec::new() }
    }

    pub fn len(&self) -> (r: usize)
        ensures
            r == self@.len(),
    {
        self.areas.len()
    }

    pub fn is_empty(&self) -> (r: bool)
        ensures
            r == (self@.len() == 0),
    {
        self.areas.len() == 0
    }

    pub fn get(&self, i: usize) -> (r: &MemoryArea)
        requires
            i < self@.len(),
        ensures
            *r == self@[i as int],
    {
        &self.areas[i]
    }

    /// The index of the area around `addr`.
    pub fn find(&self, addr: usize) -> (r: Option<usize>)
        ensures
            match r {
                Some(i) => area_index(self@, addr as int) == Some(i as int) && i < self@.len()
                    && self@[i as int].has(addr as int),
                None => area_index(self@, addr as int) is None,
            },
    {
        let mut i: usize = self.areas.len();
        assert(self@.take(i as int) =~= self@);
        while i > 0
            invariant
                i <= self@.len(),
                area_index(self@, addr as int) == area_index(self@.take(i as int), addr as int),
            decreases i,
        {
            i = i - 1;
            proof {
                assert(self@.take((i + 1) as int).drop_last() =~= self@.take(i as int));
                assert(self@.take((i + 1) as int).last() == self@[i as int]);
            }
            if self.areas[i].start <= addr && addr < self.areas[i].end {
                return Some(i);
            }
        }
        None
    }

    /// Whether an area meets `[lo, hi)`.
    pub fn overlaps(&self, lo: usize, hi: usize) -> (r: bool)
        ensures
            r == any_meets(self@, lo as int, hi as int),
    {
        let mut i: usize = 0;
        while i < self.areas.len()
            invariant
                i <= self@.len(),
                forall|j: int|
                    0 <= j < i ==> !(#[trigger] self@[j]).meets(lo as int, hi as int),
            decreases self@.len() - i,
        {
            if self.areas[i].overlaps(lo, hi) {
                assert(self@[i as int].meets(lo as int, hi as int));
                return true;
            }
            i = i + 1;
        }
        false
    }

    fn rank_of(&self, start: usize) -> (r: usize)
        ensures
            r == rank(self@, start),
            r <= self@.len(),
    {
        let mut i: usize = self.areas.len();
        assert(self@.take(i as int) =~= self@);
        while i > 0
            invariant
                i <= self@.len(),
                rank(self@, start) == rank(self@.take(i as int), start),
            decreases i,
        {
            assert(self@.take(i as int).drop_last() =~= self@.take(i - 1));
            assert(self@.take(i as int).last() == self@[i - 1]);
            if self.areas[i - 1].start < start {
                return i;
            }
            i = i - 1;
        }
        0
    }

    /// Puts an area in its place.
    pub fn insert(&mut self, area: MemoryArea)
        ensures
            final(self)@ == with_area(old(self)@, area),
    {
        let k: usize = self.rank_of(area.start);
        self.areas.insert(k, area);
    }

    /// Cuts `[lo, hi)` out of an area, which is handed out; the rest of the area
    /// stays in the set.
    pub fn carve(&mut self, i: usize, lo: usize, hi: usize) -> (r: MemoryArea)
        requires
            i < old(self)@.len(),
        ensures
            r == old(self)@[i as int].part(lo, hi),
            final(self)@ == carved(old(self)@, i as int, lo, hi),
    {
        let area: MemoryArea = self.areas.remove(i);
        if hi < area.end {
            self.areas.insert(i, area.cut(hi, area.end));
        }
        if area.start < lo {
            self.areas.insert(i, area.cut(area.start, lo));
        }
        assert(self@ =~= carved(old(self)@, i as int, lo, hi));
        area.cut(lo, hi)
    }

    /// Takes an area out of the set.
    pub fn remove_at(&mut self, i: usize) -> (r: MemoryArea)
        requires
            i < old(self)@.len(),
        ensures
            r == old(self)@[i as int],
            final(self)@ == old(self)@.remove(i as int),
    {
        self.areas.remove(i)
    }

    /// Exchanges what backs an area.
    pub fn set_backend(&mut self, i: usize, backend: Backend)
        requires
            i < old(self)@.len(),
        ensures
            final(self)@ == old(self)@.update(
                i as int,
                MemoryArea { backend, ..old(self)@[i as int] },
            ),
    {
        let a = MemoryArea {
            start: self.areas[i].start,
            end: self.areas[i].end,
            flags: self.areas[i].flags,
            backend,
        };
        self.areas.set(i, a);
    }

    /// A copy of the set.
    pub fn duplicate(&self) -> (r: Self)
        ensures
            r@ == self@,
    {
        let mut areas: Vec<MemoryArea> = Vec::new();
        self.push_rest(&mut areas, 0);
        assert(areas@ =~= self@);
        MemorySet { areas }
    }

    /// The first gap of `size` bytes from `hint` on.
    pub fn find_free_area(&self, hint: usize, size: usize, limit_start: usize, limit_end: usize) -> (r:
        Option<usize>)
        requires
            self.wf(),
            round_up_4k(hint as int) <= usize::MAX,
            round_up_4k(limit_start as int) <= usize::MAX,
        ensures
            r == gap(self@, hint, size, limit_start, limit_end),
            r matches Some(a) ==> aligned_4k(a as int) && a >= hint && a >= limit_start && a + size
                <= limit_end && !any_meets(self@, a as int, a + size),
    {
        if size % 0x1000 != 0 {
            return None;
        }
        let from: usize = if hint > limit_start {
            hint
        } else {
            limit_start
        };
        let mut at: usize = align_up_4k(from);
        let ghost first = at;
        let k: usize = self.rank_of(at);
        proof {
            reveal(areas_wf);
            lemma_rank(self@, at);
            if k > 0 {
                assert(self@[k - 1].wf());
            }
        }
        if k > 0 && self.areas[k - 1].end > at {
            at = self.areas[k - 1].end;
        }
        let mut i: usize = self.rank_of(at);
        proof {
            lemma_rank(self@, at);
            assert forall|j: int| 0 <= j < i implies (#[trigger] self@[j]).end <= at by {
                assert(self@[j].wf());
                if j < k - 1 {
                    assert(self@[j].end <= self@[k - 1].start);
                } else if j >= k {
                    // Areas behind the one that reaches over the hint start behind it.
                    assert(self@[j].start >= first);
                    if k > 0 {
                        assert(self@[k - 1].end <= self@[j].start);
                    }
                    assert(at > first);
                    assert(at == self@[k - 1].end);
                }
            }
            lemma_gap_is_free(self@, i as nat, at as int, size as int, limit_end as int);
        }
        let ghost result = gap(self@, hint, size, limit_start, limit_end);
        while i < self.areas.len()
            invariant
                i <= self@.len(),
                result == gap(self@, hint, size, limit_start, limit_end),
                result matches Some(a) ==> aligned_4k(a as int) && a >= hint && a >= limit_start
                    && a + size <= limit_end && !any_meets(self@, a as int, a + size),
                result == gap_from(self@, i as nat, at as int, size as int, limit_end as int),
            decreases self@.len() - i,
        {
            if let Some(end) = at.checked_add(size) {
                if end <= self.areas[i].start {
                    if end <= limit_end {
                        return Some(at);
                    }
                    return None;
                }
            }
            at = self.areas[i].end;
            i = i + 1;
        }
        if let Some(end) = at.checked_add(size) {
            if end <= limit_end {
                return Some(at);
            }
        }
        None
    }

    /// Enters a new area and its mapping.
    pub fn map(&mut self, area: MemoryArea, pt: &mut PageTable, frames: &mut Frames) -> (r: Result<
        (),
        MappingError,
    >)
        requires
            old(self).wf(),
            old(pt).wf(),
            old(frames).wf(),
            aligned_4k(area.start as int),
            aligned_4k(area.end as int),
            area.start <= area.end,
        ensures
            final(self).wf(),
            final(pt).wf(),
            final(pt).same_kind(old(pt)),
            final(frames).wf(),
            final(frames).room() >= old(frames).room(),
            (r, final(self)@, final(pt)@, final(frames)@) == entered(
                old(self)@,
                area,
                old(pt)@,
                old(frames)@,
                old(pt).stored(area.flags),
                old(pt).limit(),
            ),
    {
        if area.start >= area.end {
            return Err(MappingError::InvalidParam);
        }
        if self.overlaps(area.start, area.end) {
            return Err(MappingError::AlreadyExists);
        }
        let size: usize = area.end - area.start;
        if !area.backend.map(area.start, size, area.flags, pt, frames) {
            return Err(MappingError::BadState);
        }
        proof {
            lemma_with_area_wf(self@, area);
        }
        self.insert(area);
        Ok(())
    }
}

/// Two lists of areas, the first below the second, make one.
pub(crate) proof fn lemma_concat_wf(a: Seq<MemoryArea>, b: Seq<MemoryArea>)
    requires
        areas_wf(a),
        areas_wf(b),
        forall|i: int, j: int|
            0 <= i < a.len() && 0 <= j < b.len() ==> (#[trigger] a[i]).end <= (
            #[trigger] b[j]).start,
    ensures
        areas_wf(a + b),
{
    reveal(areas_wf);
    let t = a + b;
    assert forall|i: int| 0 <= i < t.len() implies (#[trigger] t[i]).wf() by {
        if i < a.len() {
            assert(t[i] == a[i]);
        } else {
            assert(t[i] == b[i - a.len()]);
        }
    }
    assert forall|i: int, j: int| 0 <= i < j < t.len() implies (#[trigger] t[i]).end <= (
    #[trigger] t[j]).start by {
        if j < a.len() {
            assert(t[i] == a[i] && t[j] == a[j]);
        } else if i < a.len() {
            assert(t[i] == a[i] && t[j] == b[j - a.len()]);
        } else {
            assert(t[i] == b[i - a.len()] && t[j] == b[j - a.len()]);
        }
    }
}

/// The areas looked at so far are in order and end before those to come.
#[verifier::opaque]
spec fn below_rest(kept: Seq<MemoryArea>, s: Seq<MemoryArea>, i: int) -> bool {
    &&& areas_wf(kept)
    &&& forall|k: int, j: int|
        0 <= k < kept.len() && i <= j < s.len() ==> (#[trigger] kept[k]).end <= (
        #[trigger] s[j]).start
}

/// Pieces of the `i`-th area take its place.
proof fn lemma_below_rest_step(
    kept: Seq<MemoryArea>,
    s: Seq<MemoryArea>,
    i: int,
    pieces: Seq<MemoryArea>,
)
    requires
        areas_wf(s),
        0 <= i < s.len(),
        below_rest(kept, s, i),
        areas_wf(pieces),
        forall|k: int|
            0 <= k < pieces.len() ==> s[i].start <= (#[trigger] pieces[k]).start && pieces[k].end
                <= s[i].end,
    ensures
        below_rest(kept + pieces, s, i + 1),
{
    reveal(areas_wf);
    reveal(below_rest);
    let t = kept + pieces;
    assert forall|a: int, b: int| 0 <= a < kept.len() && 0 <= b < pieces.len() implies (
    #[trigger] kept[a]).end <= (#[trigger] pieces[b]).start by {
        assert(kept[a].end <= s[i].start);
    }
    lemma_concat_wf(kept, pieces);
    assert forall|k: int, j: int| 0 <= k < t.len() && i + 1 <= j < s.len() implies (
    #[trigger] t[k]).end <= (#[trigger] s[j]).start by {
        if k < kept.len() {
            assert(t[k] == kept[k]);
        } else {
            assert(t[k] == pieces[k - kept.len()]);
            assert(s[i].end <= s[j].start);
        }
    }
}

proof fn lemma_nothing_below(s: Seq<MemoryArea>)
    ensures
        below_rest(Seq::empty(), s, 0),
{
    reveal(areas_wf);
    reveal(below_rest);
}

/// Each area of a set is an area.
pub(crate) proof fn lemma_area_wf(s: Seq<MemoryArea>, i: int)
    requires
        areas_wf(s),
        0 <= i < s.len(),
    ensures
        s[i].wf(),
{
    reveal(areas_wf);
}

/// What backs an area does not matter for where it is.
pub(crate) proof fn lemma_backend_moves_nothing(s: Seq<MemoryArea>, i: int, backend: Backend)
    requires
        areas_wf(s),
        0 <= i < s.len(),
    ensures
        areas_wf(s.update(i, MemoryArea { backend, ..s[i] })),
{
    reveal(areas_wf);
    let t = s.update(i, MemoryArea { backend, ..s[i] });
    assert forall|k: int| 0 <= k < t.len() implies (#[trigger] t[k]).wf() by {
        assert(s[k].wf());
    }
    assert forall|k: int, j: int| 0 <= k < j < t.len() implies (#[trigger] t[k]).end <= (
    #[trigger] t[j]).start by {
        assert(s[k].end <= s[j].start);
    }
}

proof fn lemma_one_area(a: MemoryArea)
    requires
        a.wf(),
    ensures
        areas_wf(seq![a]),
{
    reveal(areas_wf);
}

/// The pieces of an area are areas within it.
proof fn lemma_pieces(a: MemoryArea, lo: usize, hi: usize, flags: MappingFlags)
    requires
        a.wf(),
        lo < hi,
        aligned_4k(lo as int),
        aligned_4k(hi as int),
        a.meets(lo as int, hi as int),
    ensures
        areas_wf(trimmed(a, lo, hi)),
        forall|k: int|
            0 <= k < trimmed(a, lo, hi).len() ==> a.start <= (#[trigger] trimmed(a, lo, hi)[k]).start
                && trimmed(a, lo, hi)[k].end <= a.end,
        areas_wf(recolored(a, lo, hi, flags)),
        forall|k: int|
            0 <= k < recolored(a, lo, hi, flags).len() ==> a.start <= (#[trigger] recolored(
                a,
                lo,
                hi,
                flags,
            )[k]).start && recolored(a, lo, hi, flags)[k].end <= a.end,
{
    reveal(areas_wf);
}

/// The rest of the areas takes its place behind those looked at.
proof fn lemma_below_rest_end(kept: Seq<MemoryArea>, s: Seq<MemoryArea>, i: int)
    requires
        areas_wf(s),
        0 <= i <= s.len(),
        below_rest(kept, s, i),
    ensures
        areas_wf(kept + s.skip(i)),
{
    reveal(areas_wf);
    reveal(below_rest);
    let rest = s.skip(i);
    assert forall|k: int| 0 <= k < rest.len() implies (#[trigger] rest[k]).wf() by {
        assert(rest[k] == s[k + i]);
    }
    assert forall|a: int, b: int| 0 <= a < b < rest.len() implies (#[trigger] rest[a]).end <= (
    #[trigger] rest[b]).start by {
        assert(rest[a] == s[a + i] && rest[b] == s[b + i]);
    }
    assert forall|a: int, b: int| 0 <= a < kept.len() && 0 <= b < rest.len() implies (
    #[trigger] kept[a]).end <= (#[trigger] rest[b]).start by {
        assert(rest[b] == s[b + i]);
    }
    lemma_concat_wf(kept, rest);
}

impl MemorySet {
    /// Appends copies of the areas from the `i`-th on.
    fn push_rest(&self, kept: &mut Vec<MemoryArea>, i: usize)
        requires
            i <= self@.len(),
        ensures
            final(kept)@ == old(kept)@ + self@.skip(i as int),
    {
        let mut j: usize = i;
        while j < self.areas.len()
            invariant
                i <= j <= self@.len(),
                kept@ == old(kept)@ + self@.subrange(i as int, j as int),
            decreases self@.len() - j,
        {
            kept.push(self.areas[j].clone());
            j = j + 1;
            assert(kept@ =~= old(kept)@ + self@.subrange(i as int, j as int));
        }
        assert(self@.subrange(i as int, j as int) =~= self@.skip(i as int));
    }

    /// Takes `[lo, hi)` out of the set and out of the page table.
    #[verifier::rlimit(60)]
    #[verifier::spinoff_prover]
    pub fn unmap_tracked(
        &mut self,
        lo: usize,
        hi: usize,
        sizes: &FileSizes,
        pt: &mut PageTable,
        reclaim: &mut DeferredReclaims,
        tracker: &mut TlbInvalidationTracker,
    ) -> (r: Result<(), MappingError>)
        requires
            old(self).wf(),
            old(pt).wf(),
            lo < hi,
            aligned_4k(lo as int),
            aligned_4k(hi as int),
            old(reclaim)@.retirement is None,
        ensures
            final(self).wf(),
            final(pt).wf(),
            final(pt).same_kind(old(pt)),
            final(reclaim)@.retirement is None,
            ({
                let t = unmap_areas(
                    SetUnmapping {
                        ok: true,
                        kept: Seq::empty(),
                        u: unmapping(old(pt)@, old(reclaim)@, *old(tracker)),
                    },
                    old(self)@,
                    0,
                    lo,
                    hi,
                    sizes@,
                );
                &&& r is Ok <==> t.ok
                &&& r matches Err(e) ==> e == MappingError::BadState
                &&& final(self)@ == t.kept
                &&& final(pt)@ == t.u.pt
                &&& final(reclaim)@ == t.u.reclaims
                &&& *final(tracker) == t.u.tracker
            }),
    {
        let ghost s = self@;
        let ghost t0 = SetUnmapping {
            ok: true,
            kept: Seq::empty(),
            u: unmapping(pt@, reclaim@, *tracker),
        };
        let mut kept: Vec<MemoryArea> = Vec::new();
        assert(kept@ =~= Seq::<MemoryArea>::empty());
        proof {
            lemma_nothing_below(s);
        }
        let mut i: usize = 0;
        while i < self.areas.len()
            invariant
                i <= s.len(),
                s == self@,
                s == old(self)@,
                areas_wf(s),
                below_rest(kept@, s, i as int),
                lo < hi,
                aligned_4k(lo as int),
                aligned_4k(hi as int),
                pt.wf(),
                pt.same_kind(old(pt)),
                reclaim@.retirement is None,
                t0 == (SetUnmapping {
                    ok: true,
                    kept: Seq::empty(),
                    u: unmapping(old(pt)@, old(reclaim)@, *old(tracker)),
                }),
                unmap_areas(t0, s, 0, lo, hi, sizes@) == unmap_areas(
                    SetUnmapping {
                        ok: true,
                        kept: kept@,
                        u: unmapping(pt@, reclaim@, *tracker),
                    },
                    s,
                    i as int,
                    lo,
                    hi,
                    sizes@,
                ),
            decreases s.len() - i,
        {
            let area: &MemoryArea = &self.areas[i];
            proof {
                lemma_area_wf(s, i as int);
            }
            let ghost before = kept@;
            if !area.overlaps(lo, hi) {
                kept.push(area.clone());
                proof {
                    let one = seq![s[i as int]];
                    assert(kept@ =~= before + one);
                    lemma_one_area(s[i as int]);
                    lemma_below_rest_step(before, s, i as int, one);
                }
            } else {
                let start: usize = if area.start > lo {
                    area.start
                } else {
                    lo
                };
                let end: usize = if area.end < hi {
                    area.end
                } else {
                    hi
                };
                proof {
                    lemma_unmapped_keeps_buffer(
                        s[i as int].backend,
                        unmapping(pt@, reclaim@, *tracker),
                        start,
                        (end - start) as usize,
                        sizes@,
                    );
                }
                let ok: bool = area.backend.unmap_tracked(
                    start,
                    end - start,
                    sizes,
                    pt,
                    reclaim,
                    tracker,
                );
                if !ok {
                    proof {
                        lemma_below_rest_end(kept@, s, i as int);
                    }
                    self.push_rest(&mut kept, i);
                    self.areas = kept;
                    return Err(MappingError::BadState);
                }
                area.push_trimmed(&mut kept, lo, hi);
                proof {
                    lemma_pieces(s[i as int], lo, hi, MappingFlags::spec_empty());
                    lemma_below_rest_step(before, s, i as int, trimmed(s[i as int], lo, hi));
                }
            }
            i = i + 1;
        }
        proof {
            lemma_below_rest_end(kept@, s, i as int);
            assert(kept@ + s.skip(i as int) =~= kept@);
        }
        self.areas = kept;
        Ok(())
    }

    /// Gives `[lo, hi)` the flags `flags`.
    pub fn protect_tracked(
        &mut self,
        lo: usize,
        hi: usize,
        flags: MappingFlags,
        pt: &mut PageTable,
        tracker: &mut TlbInvalidationTracker,
    ) -> (r: Result<(), MappingError>)
        requires
            old(self).wf(),
            old(pt).wf(),
            lo < hi,
            aligned_4k(lo as int),
            aligned_4k(hi as int),
        ensures
            final(self).wf(),
            final(pt).wf(),
            final(pt).same_kind(old(pt)),
            ({
                let t = protect_areas(
                    SetProtecting {
                        ok: true,
                        kept: Seq::empty(),
                        p: Protecting { ok: true, pt: old(pt)@, tracker: *old(tracker) },
                    },
                    old(self)@,
                    0,
                    lo,
                    hi,
                    flags,
                    old(pt).wr(),
                );
                &&& r is Ok <==> t.ok
                &&& r matches Err(e) ==> e == MappingError::BadState
                &&& final(self)@ == t.kept
                &&& final(pt)@ == t.p.pt
                &&& *final(tracker) == t.p.tracker
            }),
    {
        let ghost s = self@;
        let ghost t0 = SetProtecting {
            ok: true,
            kept: Seq::empty(),
            p: Protecting { ok: true, pt: pt@, tracker: *tracker },
        };
        let mut kept: Vec<MemoryArea> = Vec::new();
        assert(kept@ =~= Seq::<MemoryArea>::empty());
        proof {
            lemma_nothing_below(s);
        }
        let mut i: usize = 0;
        while i < self.areas.len()
            invariant
                i <= s.len(),
                s == self@,
                s == old(self)@,
                areas_wf(s),
                below_rest(kept@, s, i as int),
                lo < hi,
                aligned_4k(lo as int),
                aligned_4k(hi as int),
                pt.wf(),
                pt.same_kind(old(pt)),
                t0 == (SetProtecting {
                    ok: true,
                    kept: Seq::empty(),
                    p: Protecting { ok: true, pt: old(pt)@, tracker: *old(tracker) },
                }),
                protect_areas(t0, s, 0, lo, hi, flags, old(pt).wr()) == protect_areas(
                    SetProtecting {
                        ok: true,
                        kept: kept@,
                        p: Protecting { ok: true, pt: pt@, tracker: *tracker },
                    },
                    s,
                    i as int,
                    lo,
                    hi,
                    flags,
                    old(pt).wr(),
                ),
            decreases s.len() - i,
        {
            let area: &MemoryArea = &self.areas[i];
            proof {
                lemma_area_wf(s, i as int);
            }
            let ghost before = kept@;
            if !area.overlaps(lo, hi) || area.flags == flags {
                kept.push(area.clone());
                proof {
                    let one = seq![s[i as int]];
                    assert(kept@ =~= before + one);
                    lemma_one_area(s[i as int]);
                    lemma_below_rest_step(before, s, i as int, one);
                }
            } else {
                let start: usize = if area.start > lo {
                    area.start
                } else {
                    lo
                };
                let end: usize = if area.end < hi {
                    area.end
                } else {
                    hi
                };
                let ok: bool = area.backend.protect_tracked(
                    start,
                    end - start,
                    flags,
                    pt,
                    tracker,
                );
                if !ok {
                    proof {
                        lemma_below_rest_end(kept@, s, i as int);
                    }
                    self.push_rest(&mut kept, i);
                    self.areas = kept;
                    return Err(MappingError::BadState);
                }
                area.push_recolored(&mut kept, lo, hi, flags);
                proof {
                    lemma_pieces(s[i as int], lo, hi, flags);
                    lemma_below_rest_step(
                        before,
                        s,
                        i as int,
                        recolored(s[i as int], lo, hi, flags),
                    );
                }
            }
            i = i + 1;
        }
        proof {
            lemma_below_rest_end(kept@, s, i as int);
            assert(kept@ + s.skip(i as int) =~= kept@);
        }
        self.areas = kept;
        Ok(())
    }
}

/// What entering `area` leads to.
pub open spec fn entered(
    s: Seq<MemoryArea>,
    area: MemoryArea,
    pt: PtMap,
    frames: FrameState,
    stored: MappingFlags,
    limit: usize,
) -> (Result<(), MappingError>, Seq<MemoryArea>, PtMap, FrameState) {
    if area.start >= area.end {
        (Err(MappingError::InvalidParam), s, pt, frames)
    } else if any_meets(s, area.start as int, area.end as int) {
        (Err(MappingError::AlreadyExists), s, pt, frames)
    } else {
        let t = mapped(
            area.backend,
            pt,
            frames,
            area.start,
            (area.end - area.start) as usize,
            area.flags,
            stored,
            limit,
        );
        if t.0 {
            (Ok(()), with_area(s, area), t.1, t.2)
        } else {
            (Err(MappingError::BadState), s, t.1, t.2)
        }
    }
}

/// Areas that were looked at are kept as they were put down.
proof fn lemma_protect_keeps_front(
    t: SetProtecting,
    s: Seq<MemoryArea>,
    i: int,
    lo: usize,
    hi: usize,
    flags: MappingFlags,
    write_implies_read: bool,
)
    requires
        0 <= i,
    ensures
        ({
            let r = protect_areas(t, s, i, lo, hi, flags, write_implies_read);
            &&& r.kept.len() >= t.kept.len()
            &&& forall|k: int| 0 <= k < t.kept.len() ==> #[trigger] r.kept[k] == t.kept[k]
        }),
    decreases s.len() - i,
{
    if i < s.len() {
        if !s[i].meets(lo as int, hi as int) || s[i].flags == flags {
            let n = SetProtecting { kept: t.kept.push(s[i]), ..t };
            lemma_protect_keeps_front(n, s, i + 1, lo, hi, flags, write_implies_read);
            let r = protect_areas(n, s, i + 1, lo, hi, flags, write_implies_read);
            assert forall|k: int| 0 <= k < t.kept.len() implies #[trigger] r.kept[k] == t.kept[k] by {
                assert(n.kept[k] == t.kept[k]);
            }
        } else {
            let p = protect_part(s[i], t.p, lo, hi, flags, write_implies_read);
            if p.ok {
                let n = SetProtecting {
                    ok: true,
                    kept: t.kept + recolored(s[i], lo, hi, flags),
                    p,
                };
                lemma_protect_keeps_front(n, s, i + 1, lo, hi, flags, write_implies_read);
                let r = protect_areas(n, s, i + 1, lo, hi, flags, write_implies_read);
                assert forall|k: int| 0 <= k < t.kept.len() implies #[trigger] r.kept[k]
                    == t.kept[k] by {
                    assert(n.kept[k] == t.kept[k]);
                }
            }
        }
    }
}

/// Once a range got new flags, every area has them inside of the range; outside
/// of it each address has the flags that it had.
pub proof fn lemma_protected_range_has_its_flags(
    t: SetProtecting,
    s: Seq<MemoryArea>,
    i: int,
    lo: usize,
    hi: usize,
    flags: MappingFlags,
    write_implies_read: bool,
    k: int,
    a: int,
)
    requires
        areas_wf(s),
        0 <= i <= s.len(),
        lo < hi,
        protect_areas(t, s, i, lo, hi, flags, write_implies_read).ok,
        t.kept.len() <= k < protect_areas(t, s, i, lo, hi, flags, write_implies_read).kept.len(),
        protect_areas(t, s, i, lo, hi, flags, write_implies_read).kept[k].has(a),
    ensures
        ({
            let now = protect_areas(t, s, i, lo, hi, flags, write_implies_read).kept[k];
            &&& lo <= a < hi ==> now.flags == flags
            &&& !(lo <= a < hi) ==> exists|j: int|
                i <= j < s.len() && (#[trigger] s[j]).has(a) && s[j].flags == now.flags
        }),
    decreases s.len() - i,
{
    reveal(areas_wf);
    assert(s[i].wf());
    let r = protect_areas(t, s, i, lo, hi, flags, write_implies_read);
    let n = if !s[i].meets(lo as int, hi as int) || s[i].flags == flags {
        SetProtecting { kept: t.kept.push(s[i]), ..t }
    } else {
        SetProtecting {
            ok: true,
            kept: t.kept + recolored(s[i], lo, hi, flags),
            p: protect_part(s[i], t.p, lo, hi, flags, write_implies_read),
        }
    };
    assert(r == protect_areas(n, s, i + 1, lo, hi, flags, write_implies_read));
    lemma_protect_keeps_front(n, s, i + 1, lo, hi, flags, write_implies_read);
    if k < n.kept.len() {
        assert(r.kept[k] == n.kept[k]);
        if !s[i].meets(lo as int, hi as int) || s[i].flags == flags {
            assert(n.kept[k] == s[i]);
        } else {
            assert(n.kept[k] == recolored(s[i], lo, hi, flags)[k - t.kept.len()]);
            if !(lo <= a < hi) {
                assert(s[i].has(a));
            }
        }
    } else {
        lemma_protected_range_has_its_flags(
            n,
            s,
            i + 1,
            lo,
            hi,
            flags,
            write_implies_read,
            k,
            a,
        );
    }
}

/// Whether one of the areas from the `i`-th on holds `a`, with these flags and
/// this backend.
pub open spec fn held(
    s: Seq<MemoryArea>,
    i: int,
    a: int,
    flags: MappingFlags,
    backend: Backend,
) -> bool {
    exists|k: int|
        i <= k < s.len() && (#[trigger] s[k]).start <= a < s[k].end && s[k].flags == flags
            && s[k].backend == backend
}

/// What two lists of areas hold together.
proof fn lemma_held_concat(
    x: Seq<MemoryArea>,
    y: Seq<MemoryArea>,
    a: int,
    flags: MappingFlags,
    backend: Backend,
)
    ensures
        held(x + y, 0, a, flags, backend) <==> held(x, 0, a, flags, backend) || held(
            y,
            0,
            a,
            flags,
            backend,
        ),
{
    let t = x + y;
    if held(t, 0, a, flags, backend) {
        let k = choose|k: int|
            0 <= k < t.len() && (#[trigger] t[k]).start <= a < t[k].end && t[k].flags == flags
                && t[k].backend == backend;
        if k < x.len() {
            assert(x[k] == t[k]);
        } else {
            assert(y[k - x.len()] == t[k]);
        }
    }
    if held(x, 0, a, flags, backend) {
        let k = choose|k: int|
            0 <= k < x.len() && (#[trigger] x[k]).start <= a < x[k].end && x[k].flags == flags
                && x[k].backend == backend;
        assert(t[k] == x[k]);
    }
    if held(y, 0, a, flags, backend) {
        let k = choose|k: int|
            0 <= k < y.len() && (#[trigger] y[k]).start <= a < y[k].end && y[k].flags == flags
                && y[k].backend == backend;
        assert(t[x.len() + k] == y[k]);
    }
}

/// The `i`-th area, or one behind it.
proof fn lemma_held_step(
    s: Seq<MemoryArea>,
    i: int,
    a: int,
    flags: MappingFlags,
    backend: Backend,
)
    requires
        0 <= i < s.len(),
    ensures
        held(s, i, a, flags, backend) <==> held(seq![s[i]], 0, a, flags, backend) || held(
            s,
            i + 1,
            a,
            flags,
            backend,
        ),
{
    let one = seq![s[i]];
    assert(one[0] == s[i]);
    if held(s, i, a, flags, backend) {
        let k = choose|k: int|
            i <= k < s.len() && (#[trigger] s[k]).start <= a < s[k].end && s[k].flags == flags
                && s[k].backend == backend;
        if k == i {
            assert(one[0].start <= a);
        }
    }
}

/// What is left of an area holds what lies outside the range.
proof fn lemma_trimmed_holds(
    x: MemoryArea,
    lo: usize,
    hi: usize,
    a: int,
    flags: MappingFlags,
    backend: Backend,
)
    requires
        x.wf(),
        lo < hi,
        x.meets(lo as int, hi as int),
    ensures
        held(trimmed(x, lo, hi), 0, a, flags, backend) <==> held(seq![x], 0, a, flags, backend)
            && !(lo <= a < hi),
{
    let t = trimmed(x, lo, hi);
    let one = seq![x];
    assert(one[0] == x);
    if held(seq![x], 0, a, flags, backend) && !(lo <= a < hi) {
        if a < lo {
            assert(t[0].start <= a < t[0].end);
        } else {
            assert(t[t.len() - 1].start <= a < t[t.len() - 1].end);
        }
    }
    if held(t, 0, a, flags, backend) {
        assert(one[0].start <= a < one[0].end);
    }
}

/// The areas that are left hold what was held outside the range, as it was held.
pub(crate) proof fn lemma_unmap_areas_hold(
    t: SetUnmapping,
    s: Seq<MemoryArea>,
    i: int,
    lo: usize,
    hi: usize,
    sizes: Seq<(u64, usize)>,
    a: int,
    flags: MappingFlags,
    backend: Backend,
)
    requires
        0 <= i <= s.len(),
        lo < hi,
        areas_wf(s),
        t.ok,
        unmap_areas(t, s, i, lo, hi, sizes).ok,
    ensures
        held(unmap_areas(t, s, i, lo, hi, sizes).kept, 0, a, flags, backend) <==> held(
            t.kept,
            0,
            a,
            flags,
            backend,
        ) || (held(s, i, a, flags, backend) && !(lo <= a < hi)),
    decreases s.len() - i,
{
    if i < s.len() {
        lemma_area_wf(s, i);
        lemma_held_step(s, i, a, flags, backend);
        if !s[i].meets(lo as int, hi as int) {
            let one = seq![s[i]];
            assert(t.kept.push(s[i]) =~= t.kept + one);
            assert(one[0] == s[i]);
            lemma_held_concat(t.kept, one, a, flags, backend);
            lemma_unmap_areas_hold(
                SetUnmapping { kept: t.kept.push(s[i]), ..t },
                s,
                i + 1,
                lo,
                hi,
                sizes,
                a,
                flags,
                backend,
            );
        } else {
            let u = unmap_part(s[i], t.u, lo, hi, sizes);
            assert(u.ok);
            lemma_trimmed_holds(s[i], lo, hi, a, flags, backend);
            lemma_held_concat(t.kept, trimmed(s[i], lo, hi), a, flags, backend);
            lemma_unmap_areas_hold(
                SetUnmapping { ok: true, kept: t.kept + trimmed(s[i], lo, hi), u },
                s,
                i + 1,
                lo,
                hi,
                sizes,
                a,
                flags,
                backend,
            );
        }
    }
}

/// The areas that are left are in order.
proof fn lemma_unmap_areas_order(
    t: SetUnmapping,
    s: Seq<MemoryArea>,
    i: int,
    lo: usize,
    hi: usize,
    sizes: Seq<(u64, usize)>,
)
    requires
        0 <= i <= s.len(),
        lo < hi,
        aligned_4k(lo as int),
        aligned_4k(hi as int),
        areas_wf(s),
        below_rest(t.kept, s, i),
    ensures
        areas_wf(unmap_areas(t, s, i, lo, hi, sizes).kept),
    decreases s.len() - i,
{
    if i >= s.len() {
        lemma_below_rest_end(t.kept, s, i);
        assert(t.kept + s.skip(i) =~= t.kept);
    } else {
        lemma_area_wf(s, i);
        if !s[i].meets(lo as int, hi as int) {
            let one = seq![s[i]];
            assert(t.kept.push(s[i]) =~= t.kept + one);
            lemma_one_area(s[i]);
            lemma_below_rest_step(t.kept, s, i, one);
            lemma_unmap_areas_order(
                SetUnmapping { kept: t.kept.push(s[i]), ..t },
                s,
                i + 1,
                lo,
                hi,
                sizes,
            );
        } else {
            let u = unmap_part(s[i], t.u, lo, hi, sizes);
            if u.ok {
                lemma_pieces(s[i], lo, hi, s[i].flags);
                lemma_below_rest_step(t.kept, s, i, trimmed(s[i], lo, hi));
                lemma_unmap_areas_order(
                    SetUnmapping { ok: true, kept: t.kept + trimmed(s[i], lo, hi), u },
                    s,
                    i + 1,
                    lo,
                    hi,
                    sizes,
                );
            } else {
                lemma_below_rest_end(t.kept, s, i);
            }
        }
    }
}

/// Taking a range out of a set of areas leaves a set of areas.
pub(crate) proof fn lemma_unmap_areas_wf(
    u: Unmapping,
    s: Seq<MemoryArea>,
    lo: usize,
    hi: usize,
    sizes: Seq<(u64, usize)>,
)
    requires
        lo < hi,
        aligned_4k(lo as int),
        aligned_4k(hi as int),
        areas_wf(s),
    ensures
        areas_wf(
            unmap_areas(
                SetUnmapping { ok: true, kept: Seq::empty(), u },
                s,
                0,
                lo,
                hi,
                sizes,
            ).kept,
        ),
{
    lemma_nothing_below(s);
    lemma_unmap_areas_order(
        SetUnmapping { ok: true, kept: Seq::empty(), u },
        s,
        0,
        lo,
        hi,
        sizes,
    );
}

/// An area with new flags in a range holds what it held, with the new flags in
/// the range.
proof fn lemma_recolored_holds(
    x: MemoryArea,
    lo: usize,
    hi: usize,
    new_flags: MappingFlags,
    a: int,
    flags: MappingFlags,
    backend: Backend,
)
    requires
        x.wf(),
        lo < hi,
        x.meets(lo as int, hi as int),
    ensures
        held(recolored(x, lo, hi, new_flags), 0, a, flags, backend) <==> x.start <= a < x.end
            && x.backend == backend && flags == if lo <= a < hi {
            new_flags
        } else {
            x.flags
        },
{
    let t = recolored(x, lo, hi, new_flags);
    let n: int = if x.start < lo {
        1
    } else {
        0
    };
    assert(t[n] == (MemoryArea {
        flags: new_flags,
        ..x.part(max_of(x.start, lo), min_of(x.end, hi))
    }));
    if x.start < lo {
        assert(t[0] == x.part(x.start, lo));
    }
    if hi < x.end {
        assert(t[n + 1] == x.part(hi, x.end));
    }
    if x.start <= a < x.end && x.backend == backend && flags == (if lo <= a < hi {
        new_flags
    } else {
        x.flags
    }) {
        if a < lo {
            assert(t[0].start <= a < t[0].end);
        } else if a < hi {
            assert(t[n].start <= a < t[n].end);
        } else {
            assert(t[n + 1].start <= a < t[n + 1].end);
        }
    }
}

/// Whether one of the areas from the `i`-th on holds `a`, with this backend, and
/// the flags are those of the area or, if there are some, the new ones.
pub open spec fn held_anew(
    s: Seq<MemoryArea>,
    i: int,
    a: int,
    new_flags: Option<MappingFlags>,
    flags: MappingFlags,
    backend: Backend,
) -> bool {
    exists|k: int|
        i <= k < s.len() && (#[trigger] s[k]).start <= a < s[k].end && s[k].backend == backend
            && flags == match new_flags {
            Some(f) => f,
            None => s[k].flags,
        }
}

proof fn lemma_held_anew_step(
    s: Seq<MemoryArea>,
    i: int,
    a: int,
    new_flags: Option<MappingFlags>,
    flags: MappingFlags,
    backend: Backend,
)
    requires
        0 <= i < s.len(),
    ensures
        held_anew(s, i, a, new_flags, flags, backend) <==> held_anew(
            s,
            i + 1,
            a,
            new_flags,
            flags,
            backend,
        ) || (s[i].start <= a < s[i].end && s[i].backend == backend && flags == match new_flags {
            Some(f) => f,
            None => s[i].flags,
        }),
{
}

/// Changing the flags of a range moves no area: every address is held by what it
/// was held by, with the new flags in the range and its own outside of it.
pub proof fn lemma_protect_areas_hold(
    t: SetProtecting,
    s: Seq<MemoryArea>,
    i: int,
    lo: usize,
    hi: usize,
    new_flags: MappingFlags,
    write_implies_read: bool,
    a: int,
    flags: MappingFlags,
    backend: Backend,
)
    requires
        0 <= i <= s.len(),
        lo < hi,
        areas_wf(s),
        t.ok,
        protect_areas(t, s, i, lo, hi, new_flags, write_implies_read).ok,
    ensures
        held(
            protect_areas(t, s, i, lo, hi, new_flags, write_implies_read).kept,
            0,
            a,
            flags,
            backend,
        ) <==> held(t.kept, 0, a, flags, backend) || held_anew(
            s,
            i,
            a,
            if lo <= a < hi {
                Some(new_flags)
            } else {
                None
            },
            flags,
            backend,
        ),
    decreases s.len() - i,
{
    if i < s.len() {
        lemma_area_wf(s, i);
        let anew = if lo <= a < hi {
            Some(new_flags)
        } else {
            None
        };
        let here = s[i].start <= a < s[i].end && s[i].backend == backend && flags == if lo <= a
            < hi {
            new_flags
        } else {
            s[i].flags
        };
        let n = if !s[i].meets(lo as int, hi as int) || s[i].flags == new_flags {
            let one = seq![s[i]];
            assert(t.kept.push(s[i]) =~= t.kept + one);
            assert(one[0] == s[i]);
            lemma_held_concat(t.kept, one, a, flags, backend);
            assert(held(one, 0, a, flags, backend) <==> here) by {
                if here {
                    assert(one[0].start <= a < one[0].end);
                }
            }
            SetProtecting { kept: t.kept.push(s[i]), ..t }
        } else {
            lemma_recolored_holds(s[i], lo, hi, new_flags, a, flags, backend);
            lemma_held_concat(t.kept, recolored(s[i], lo, hi, new_flags), a, flags, backend);
            SetProtecting {
                ok: true,
                kept: t.kept + recolored(s[i], lo, hi, new_flags),
                p: protect_part(s[i], t.p, lo, hi, new_flags, write_implies_read),
            }
        };
        assert(protect_areas(t, s, i, lo, hi, new_flags, write_implies_read) == protect_areas(
            n,
            s,
            i + 1,
            lo,
            hi,
            new_flags,
            write_implies_read,
        ));
        lemma_protect_areas_hold(
            n,
            s,
            i + 1,
            lo,
            hi,
            new_flags,
            write_implies_read,
            a,
            flags,
            backend,
        );
        lemma_held_anew_step(s, i, a, anew, flags, backend);
    }
}

} // verus!
