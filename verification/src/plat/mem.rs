//! The ranges of physical memory.
use vstd::prelude::*;

use super::dtb::{dtb_memory, dtb_reserved, be32, is_sound, read_memory};
use super::mp_common::{firmware_to_phys, spec_firmware_to_phys};

verus! {

/// Where a range starts and how many bytes it has.
pub type RawRange = (u64, u64);

pub const MAX_RAM_RANGES: usize = 8;

pub const MAX_RESERVED_RANGES: usize = 32;

pub const PAGE_MASK: u64 = 0xfff;

/// Whether `a` lies in a range that does not run past the end of memory.
pub open spec fn in_range(r: RawRange, a: int) -> bool {
    r.0 + r.1 <= u64::MAX && r.0 <= a < r.0 + r.1
}

/// Whether `a` lies in one of the ranges.
pub open spec fn covered(s: Seq<RawRange>, a: int) -> bool {
    exists|i: int| 0 <= i < s.len() && in_range(#[trigger] s[i], a)
}

/// Ranges in order, none of which is empty, meets the next or touches it.
pub open spec fn separated(s: Seq<RawRange>) -> bool {
    &&& forall|i: int|
        0 <= i < s.len() ==> (#[trigger] s[i]).1 > 0 && s[i].0 + s[i].1 <= u64::MAX
    &&& forall|i: int, j: int|
        0 <= i < j < s.len() ==> (#[trigger] s[i]).0 + s[i].1 < (#[trigger] s[j]).0
}

/// Whether `t` is what the ranges of `s` cover, in as few ranges as possible.
pub open spec fn is_merged(s: Seq<RawRange>, t: Seq<RawRange>) -> bool {
    &&& separated(t)
    &&& forall|a: int| #[trigger] covered(t, a) <==> covered(s, a)
}

/// `[T]::sort_unstable_by_key` by the starts of the ranges: the same ranges,
/// in the order of their starts; the order of ranges with the same start is
/// left open.
#[verifier::external_body]
fn sort_by_start(v: &mut Vec<RawRange>)
    ensures
        final(v)@.to_multiset() == old(v)@.to_multiset(),
        forall|i: int, j: int|
            0 <= i <= j < final(v)@.len() ==> (#[trigger] final(v)@[i]).0 <= (#[trigger] final(v)@[j]).0,
{
    v.sort_unstable_by_key(|range| range.0);
}

/// A list of ranges with room for `N`.
pub struct RangeList<const N: usize> {
    ranges: Vec<RawRange>,
}

/// The list after a range was offered to it; an empty range takes no room.
pub open spec fn pushed(s: Seq<RawRange>, r: RawRange, cap: nat) -> Seq<RawRange> {
    if r.1 != 0 && s.len() < cap {
        s.push(r)
    } else {
        s
    }
}

/// Whether a list takes a range.
pub open spec fn takes(s: Seq<RawRange>, r: RawRange, cap: nat) -> bool {
    r.1 == 0 || s.len() < cap
}

proof fn lemma_covered_by_members(s: Seq<RawRange>, t: Seq<RawRange>, a: int)
    requires
        s.to_multiset() == t.to_multiset(),
        covered(s, a),
    ensures
        covered(t, a),
{
    broadcast use vstd::seq_lib::group_to_multiset_ensures;

    let i = choose|i: int| 0 <= i < s.len() && in_range(#[trigger] s[i], a);
    assert(s.contains(s[i]));
    assert(s.to_multiset().count(s[i]) > 0);
    assert(t.contains(s[i]));
    let k = choose|k: int| 0 <= k < t.len() && t[k] == s[i];
    assert(in_range(t[k], a));
}

impl<const N: usize> RangeList<N> {
    pub closed spec fn view(&self) -> Seq<RawRange> {
        self.ranges@
    }

    /// There is room for all ranges, and none of them is empty.
    pub open spec fn wf(&self) -> bool {
        &&& self@.len() <= N
        &&& forall|i: int| 0 <= i < self@.len() ==> (#[trigger] self@[i]).1 > 0
    }

    pub fn new() -> (r: Self)
        ensures
            r.wf(),
            r@ == Seq::<RawRange>::empty(),
    {
        RangeList { ranges: Vec::new() }
    }

    /// Takes a range in, if there is room.
    pub fn push(&mut self, range: RawRange) -> (r: bool)
        requires
            old(self).wf(),
        ensures
            final(self).wf(),
            r == takes(old(self)@, range, N as nat),
            final(self)@ == pushed(old(self)@, range, N as nat),
    {
        if range.1 == 0 {
            return true;
        }
        if self.ranges.len() < N {
            self.ranges.push(range);
            true
        } else {
            false
        }
    }

    /// Orders the ranges and joins those that meet or touch.
    pub fn normalize(&mut self)
        requires
            old(self).wf(),
        ensures
            final(self).wf(),
            is_merged(old(self)@, final(self)@),
            final(self)@.len() <= old(self)@.len(),
    {
        let ghost input = self@;
        sort_by_start(&mut self.ranges);
        let ghost s = self.ranges@;
        proof {
            broadcast use vstd::seq_lib::group_to_multiset_ensures;

            assert(s.len() == input.len()) by {
                assert(s.to_multiset().len() == s.len());
                assert(input.to_multiset().len() == input.len());
            }
            assert forall|i: int| 0 <= i < s.len() implies (#[trigger] s[i]).1 > 0 by {
                assert(s.contains(s[i]));
                assert(s.to_multiset().count(s[i]) > 0);
                assert(input.to_multiset().count(s[i]) > 0);
                assert(input.contains(s[i]));
                let k = choose|k: int| 0 <= k < input.len() && input[k] == s[i];
                assert(old(self)@[k].1 > 0);
            }
        }
        let mut out: Vec<RawRange> = Vec::new();
        let mut i: usize = 0;
        while i < self.ranges.len()
            invariant
                i <= self.ranges@.len(),
                s == self.ranges@,
                forall|k: int, l: int|
                    0 <= k <= l < s.len() ==> (#[trigger] s[k]).0 <= (#[trigger] s[l]).0,
                forall|k: int| 0 <= k < s.len() ==> (#[trigger] s[k]).1 > 0,
                separated(out@),
                out@.len() <= i,
                out@.len() > 0 && i < s.len() ==> out@.last().0 <= s[i as int].0,
                forall|a: int| #[trigger] covered(out@, a) <==> covered(s.take(i as int), a),
            decreases self.ranges@.len() - i,
        {
            let (start, size): (u64, u64) = self.ranges[i];
            let ghost before = out@;
            assert(s[i as int].1 > 0);
            proof {
                lemma_covered_take(s, i as int);
            }
            match start.checked_add(size) {
                None => {},
                Some(end) => {
                    let n: usize = out.len();
                    if n > 0 && start <= out[n - 1].0 + out[n - 1].1 {
                        let (previous_start, previous_size): (u64, u64) = out[n - 1];
                        assert(before[n - 1].0 + before[n - 1].1 <= u64::MAX);
                        let previous_end: u64 = previous_start + previous_size;
                        let joined: u64 = if previous_end > end {
                            previous_end
                        } else {
                            end
                        };
                        out.set(n - 1, (previous_start, joined - previous_start));
                        proof {
                            lemma_joined(before, (start, size), out@);
                        }
                    } else {
                        out.push((start, end - start));
                        proof {
                            lemma_appended(before, (start, size), out@);
                        }
                    }
                },
            }
            i = i + 1;
        }
        self.ranges = out;
        proof {
            assert(s.take(s.len() as int) =~= s);
            assert forall|a: int| #[trigger] covered(self@, a) <==> covered(input, a) by {
                if covered(self@, a) {
                    lemma_covered_by_members(s, input, a);
                }
                if covered(input, a) {
                    lemma_covered_by_members(input, s, a);
                }
            }
        }
    }

    pub fn is_empty(&self) -> (r: bool)
        ensures
            r == (self@.len() == 0),
    {
        self.ranges.len() == 0
    }

    pub fn len(&self) -> (r: usize)
        ensures
            r == self@.len(),
    {
        self.ranges.len()
    }

    pub fn as_slice(&self) -> (r: &[RawRange])
        ensures
            r@ == self@,
    {
        self.ranges.as_slice()
    }
}

proof fn lemma_covered_take(s: Seq<RawRange>, i: int)
    requires
        0 <= i < s.len(),
    ensures
        forall|a: int| #[trigger]
            covered(s.take(i + 1), a) <==> covered(s.take(i), a) || in_range(s[i], a),
{
    let t = s.take(i + 1);
    let u = s.take(i);
    assert forall|a: int| #[trigger] covered(t, a) <==> covered(u, a) || in_range(s[i], a) by {
        if covered(t, a) {
            let k = choose|k: int| 0 <= k < t.len() && in_range(#[trigger] t[k], a);
            if k < i {
                assert(in_range(u[k], a));
            }
        }
        if covered(u, a) {
            let k = choose|k: int| 0 <= k < u.len() && in_range(#[trigger] u[k], a);
            assert(in_range(t[k], a));
        }
        if in_range(s[i], a) {
            assert(in_range(t[i], a));
        }
    }
}

proof fn lemma_joined(before: Seq<RawRange>, r: RawRange, after: Seq<RawRange>)
    requires
        separated(before),
        before.len() > 0,
        r.1 > 0,
        r.0 + r.1 <= u64::MAX,
        before.last().0 <= r.0 <= before.last().0 + before.last().1,
        after.len() == before.len(),
        after == before.update(before.len() - 1, after.last()),
        after.last().0 == before.last().0,
        after.last().0 + after.last().1 == if before.last().0 + before.last().1 > r.0 + r.1 {
            before.last().0 + before.last().1
        } else {
            r.0 + r.1
        },
    ensures
        separated(after),
        forall|a: int| #[trigger] covered(after, a) <==> covered(before, a) || in_range(r, a),
{
    let n = before.len() - 1;
    assert forall|i: int| 0 <= i < after.len() implies (#[trigger] after[i]).1 > 0 && after[i].0
        + after[i].1 <= u64::MAX by {
        assert(before[i].1 > 0);
    }
    assert forall|i: int, j: int| 0 <= i < j < after.len() implies (#[trigger] after[i]).0
        + after[i].1 < (#[trigger] after[j]).0 by {
        assert(before[i].0 + before[i].1 < before[j].0);
    }
    assert forall|a: int| #[trigger] covered(after, a) <==> covered(before, a) || in_range(r, a) by {
        if covered(after, a) {
            let k = choose|k: int| 0 <= k < after.len() && in_range(#[trigger] after[k], a);
            if k < n {
                assert(in_range(before[k], a));
            } else if a < before[n].0 + before[n].1 {
                assert(in_range(before[n], a));
            }
        }
        if covered(before, a) {
            let k = choose|k: int| 0 <= k < before.len() && in_range(#[trigger] before[k], a);
            assert(in_range(after[k], a));
        }
        if in_range(r, a) {
            assert(in_range(after[n], a));
        }
    }
}

proof fn lemma_appended(before: Seq<RawRange>, r: RawRange, after: Seq<RawRange>)
    requires
        separated(before),
        r.1 > 0,
        r.0 + r.1 <= u64::MAX,
        before.len() > 0 ==> before.last().0 + before.last().1 < r.0,
        after == before.push(r),
    ensures
        separated(after),
        forall|a: int| #[trigger] covered(after, a) <==> covered(before, a) || in_range(r, a),
{
    let n = before.len() as int;
    assert forall|i: int| 0 <= i < after.len() implies (#[trigger] after[i]).1 > 0 && after[i].0
        + after[i].1 <= u64::MAX by {
        if i < n {
            assert(before[i].1 > 0);
        }
    }
    assert forall|i: int, j: int| 0 <= i < j < after.len() implies (#[trigger] after[i]).0
        + after[i].1 < (#[trigger] after[j]).0 by {
        if j < n {
            assert(before[i].0 + before[i].1 < before[j].0);
        } else if i < n - 1 {
            assert(before[i].0 + before[i].1 < before[n - 1].0);
            assert(before[n - 1].1 > 0);
        }
    }
    assert forall|a: int| #[trigger] covered(after, a) <==> covered(before, a) || in_range(r, a) by {
        if covered(after, a) {
            let k = choose|k: int| 0 <= k < after.len() && in_range(#[trigger] after[k], a);
            if k < n {
                assert(in_range(before[k], a));
            }
        }
        if covered(before, a) {
            let k = choose|k: int| 0 <= k < before.len() && in_range(#[trigger] before[k], a);
            assert(in_range(after[k], a));
        }
        if in_range(r, a) {
            assert(in_range(after[n], a));
        }
    }
}

/// The pages around a range; none where they would run past the end of memory
/// or the range lies in no page.
pub open spec fn spec_align_reserved(r: RawRange) -> Option<RawRange> {
    let start = r.0 - r.0 % 0x1000;
    let end = ((r.0 + r.1 + 0xfff) / 0x1000) * 0x1000;
    if r.0 + r.1 + 0xfff > u64::MAX || start >= end {
        None
    } else {
        Some((start as u64, (end - start) as u64))
    }
}

pub fn align_reserved(r: RawRange) -> (result: Option<RawRange>)
    ensures
        result == spec_align_reserved(r),
{
    let end: u64 = match r.0.checked_add(r.1) {
        Some(end) => end,
        None => {
            return None;
        },
    };
    let aligned_start: u64 = r.0 - r.0 % 0x1000;
    let padded: u64 = match end.checked_add(PAGE_MASK) {
        Some(padded) => padded,
        None => {
            return None;
        },
    };
    let aligned_end: u64 = padded - padded % 0x1000;
    if aligned_start < aligned_end {
        Some((aligned_start, aligned_end - aligned_start))
    } else {
        None
    }
}

/// What two ranges have in common.
pub open spec fn spec_intersect(a: RawRange, b: RawRange) -> Option<RawRange> {
    let start = if a.0 > b.0 {
        a.0
    } else {
        b.0
    };
    let end = if a.0 + a.1 < b.0 + b.1 {
        a.0 + a.1
    } else {
        b.0 + b.1
    };
    if a.0 + a.1 > u64::MAX || b.0 + b.1 > u64::MAX || start >= end {
        None
    } else {
        Some((start, (end - start) as u64))
    }
}

pub fn intersect(a: RawRange, b: RawRange) -> (r: Option<RawRange>)
    ensures
        r == spec_intersect(a, b),
{
    let start: u64 = if a.0 > b.0 {
        a.0
    } else {
        b.0
    };
    match (a.0.checked_add(a.1), b.0.checked_add(b.1)) {
        (Some(x), Some(y)) => {
            let end: u64 = if x < y {
                x
            } else {
                y
            };
            if start < end {
                Some((start, end - start))
            } else {
                None
            }
        },
        _ => None,
    }
}

/// The intersection of two ranges holds what lies in both.
pub proof fn lemma_intersect(a: RawRange, b: RawRange, x: int)
    ensures
        (in_range(a, x) && in_range(b, x)) <==> (spec_intersect(a, b) matches Some(r) && in_range(
            r,
            x,
        )),
{
}

/// A region of memory as the firmware describes it, clipped to what the kernel
/// is configured for.
pub open spec fn clipped(region: RawRange, base: u64, end: u64) -> Option<RawRange> {
    match spec_firmware_to_phys(region.0) {
        None => None,
        Some(p) => if p + region.1 > u64::MAX {
            None
        } else {
            let lo = if p > base {
                p
            } else {
                base
            };
            let hi = if p + region.1 < end {
                p + region.1
            } else {
                end as int
            };
            if lo < hi {
                Some((lo, (hi - lo) as u64))
            } else {
                None
            }
        },
    }
}

/// The clipped regions from the `i`-th on, as far as there is room.
pub open spec fn ram_candidates(
    regions: Seq<RawRange>,
    i: int,
    base: u64,
    end: u64,
    found: Seq<RawRange>,
) -> Seq<RawRange>
    decreases regions.len() - i,
{
    if i >= regions.len() {
        found
    } else {
        ram_candidates(
            regions,
            i + 1,
            base,
            end,
            match clipped(regions[i], base, end) {
                Some(r) => pushed(found, r, MAX_RAM_RANGES as nat),
                None => found,
            },
        )
    }
}

/// A range that the firmware reserves, as a physical range.
pub open spec fn firmware_range(start: u64, size: u64) -> Option<RawRange> {
    match spec_firmware_to_phys(start) {
        Some(p) => if p + size <= u64::MAX {
            Some((p, size))
        } else {
            None
        },
        None => None,
    }
}

/// The reserved ranges from the `i`-th on; none where one is invalid or there
/// is no room.
pub open spec fn reserved_candidates(
    ranges: Seq<RawRange>,
    i: int,
    found: Seq<RawRange>,
) -> Option<Seq<RawRange>>
    decreases ranges.len() - i,
{
    if i >= ranges.len() {
        Some(found)
    } else {
        match firmware_range(ranges[i].0, ranges[i].1) {
            None => None,
            Some(r) => if takes(found, r, MAX_RESERVED_RANGES as nat) {
                reserved_candidates(ranges, i + 1, pushed(found, r, MAX_RESERVED_RANGES as nat))
            } else {
                None
            },
        }
    }
}

/// What `c` has in common with the ranges of `ram` from the `j`-th on.
pub open spec fn common_with(
    c: RawRange,
    ram: Seq<RawRange>,
    j: int,
    found: Seq<RawRange>,
) -> Option<Seq<RawRange>>
    decreases ram.len() - j,
{
    if j >= ram.len() {
        Some(found)
    } else {
        match spec_intersect(c, ram[j]) {
            None => common_with(c, ram, j + 1, found),
            Some(r) => if takes(found, r, MAX_RESERVED_RANGES as nat) {
                common_with(c, ram, j + 1, pushed(found, r, MAX_RESERVED_RANGES as nat))
            } else {
                None
            },
        }
    }
}

/// The pages around the candidates from the `i`-th on, as far as they lie in
/// memory; none where one has no pages or there is no room.
pub open spec fn reserved_in_ram(
    candidates: Seq<RawRange>,
    i: int,
    ram: Seq<RawRange>,
    found: Seq<RawRange>,
) -> Option<Seq<RawRange>>
    decreases candidates.len() - i,
{
    if i >= candidates.len() {
        Some(found)
    } else {
        match spec_align_reserved(candidates[i]) {
            None => None,
            Some(a) => match common_with(a, ram, 0, found) {
                None => None,
                Some(f) => reserved_in_ram(candidates, i + 1, ram, f),
            },
        }
    }
}

/// What the firmware says of memory.
pub struct FirmwareMemory {
    /// The regions of memory.
    pub regions: Vec<RawRange>,
    /// The ranges that are reserved, in the order in which they are described.
    pub reserved: Vec<RawRange>,
    /// How many bytes the device tree has.
    pub dtb_size: u64,
}

/// The memory that there is and the part of it that is taken.
pub struct MemoryLayout {
    pub ram: RangeList<MAX_RAM_RANGES>,
    pub reserved: RangeList<MAX_RESERVED_RANGES>,
}

/// Why the layout of memory could not be found.
#[derive(Clone, Copy, Debug, PartialEq, Eq, Structural)]
pub enum MemoryError {
    /// There is no memory in what the kernel is configured for.
    NoRam,
    /// A reserved range is invalid, or there are too many.
    BadReservation,
    /// A reserved range has no pages, or lies in too many ranges of memory.
    BadReservedPages,
    /// The device tree cannot be read.
    BadTree,
}

fn collect_ram(regions: &Vec<RawRange>, base: u64, end: u64) -> (r: RangeList<MAX_RAM_RANGES>)
    ensures
        r.wf(),
        r@ == ram_candidates(regions@, 0, base, end, Seq::empty()),
{
    let mut ram: RangeList<MAX_RAM_RANGES> = RangeList::new();
    let mut i: usize = 0;
    while i < regions.len()
        invariant
            i <= regions@.len(),
            ram.wf(),
            ram_candidates(regions@, 0, base, end, Seq::empty()) == ram_candidates(
                regions@,
                i as int,
                base,
                end,
                ram@,
            ),
        decreases regions@.len() - i,
    {
        let (firmware_start, size): (u64, u64) = regions[i];
        if let Some(start) = firmware_to_phys(firmware_start) {
            if let Some(stop) = start.checked_add(size) {
                let lo: u64 = if start > base {
                    start
                } else {
                    base
                };
                let hi: u64 = if stop < end {
                    stop
                } else {
                    end
                };
                if lo < hi {
                    let _ = ram.push((lo, hi - lo));
                }
            }
        }
        i = i + 1;
    }
    ram
}

/// Takes a range that the firmware reserves in.
pub fn push_u64_range<const N: usize>(ranges: &mut RangeList<N>, start: u64, size: u64) -> (r: bool)
    requires
        old(ranges).wf(),
    ensures
        final(ranges).wf(),
        match firmware_range(start, size) {
            None => !r && final(ranges)@ == old(ranges)@,
            Some(x) => r == takes(old(ranges)@, x, N as nat) && final(ranges)@ == pushed(
                old(ranges)@,
                x,
                N as nat,
            ),
        },
{
    match firmware_to_phys(start) {
        None => false,
        Some(p) => {
            if p.checked_add(size).is_none() {
                return false;
            }
            ranges.push((p, size))
        },
    }
}

fn collect_reserved(dtb_paddr: u64, fw: &FirmwareMemory) -> (r: Option<
    RangeList<MAX_RESERVED_RANGES>,
>)
    ensures
        match r {
            Some(list) => list.wf() && all_reserved(fw.reserved@, dtb_paddr, fw.dtb_size) == Some(
                list@,
            ),
            None => all_reserved(fw.reserved@, dtb_paddr, fw.dtb_size) is None,
        },
{
    let mut candidates: RangeList<MAX_RESERVED_RANGES> = RangeList::new();
    let _ = candidates.push((dtb_paddr, fw.dtb_size));
    let ghost first = candidates@;
    let mut i: usize = 0;
    while i < fw.reserved.len()
        invariant
            i <= fw.reserved@.len(),
            candidates.wf(),
            first == pushed(
                Seq::empty(),
                (dtb_paddr, fw.dtb_size),
                MAX_RESERVED_RANGES as nat,
            ),
            reserved_candidates(fw.reserved@, 0, first) == reserved_candidates(
                fw.reserved@,
                i as int,
                candidates@,
            ),
        decreases fw.reserved@.len() - i,
    {
        if !push_u64_range(&mut candidates, fw.reserved[i].0, fw.reserved[i].1) {
            return None;
        }
        i = i + 1;
    }
    Some(candidates)
}

fn push_common(c: RawRange, ram: &[RawRange], reserved: &mut RangeList<MAX_RESERVED_RANGES>) -> (ok:
    bool)
    requires
        old(reserved).wf(),
    ensures
        final(reserved).wf(),
        match common_with(c, ram@, 0, old(reserved)@) {
            Some(f) => ok && final(reserved)@ == f,
            None => !ok,
        },
{
    let ghost start = reserved@;
    let mut j: usize = 0;
    while j < ram.len()
        invariant
            j <= ram@.len(),
            reserved.wf(),
            start == old(reserved)@,
            common_with(c, ram@, 0, start) == common_with(c, ram@, j as int, reserved@),
        decreases ram@.len() - j,
    {
        if let Some(r) = intersect(c, ram[j]) {
            if !reserved.push(r) {
                return false;
            }
        }
        j = j + 1;
    }
    true
}

fn collect_pages(candidates: &[RawRange], ram: &[RawRange]) -> (r: Option<
    RangeList<MAX_RESERVED_RANGES>,
>)
    ensures
        match r {
            Some(list) => list.wf() && reserved_in_ram(candidates@, 0, ram@, Seq::empty()) == Some(
                list@,
            ),
            None => reserved_in_ram(candidates@, 0, ram@, Seq::empty()) is None,
        },
{
    let mut reserved: RangeList<MAX_RESERVED_RANGES> = RangeList::new();
    let mut i: usize = 0;
    while i < candidates.len()
        invariant
            i <= candidates@.len(),
            reserved.wf(),
            reserved_in_ram(candidates@, 0, ram@, Seq::empty()) == reserved_in_ram(
                candidates@,
                i as int,
                ram@,
                reserved@,
            ),
        decreases candidates@.len() - i,
    {
        match align_reserved(candidates[i]) {
            None => {
                return None;
            },
            Some(a) => {
                if !push_common(a, ram, &mut reserved) {
                    return None;
                }
            },
        }
        i = i + 1;
    }
    Some(reserved)
}

/// Whether a candidate has no pages in the memory that the regions make up, or
/// there is no room for all of them.
pub open spec fn has_bad_pages(regions: Seq<RawRange>, candidates: Seq<RawRange>) -> bool {
    exists|ram: Seq<RawRange>| #[trigger]
        is_merged(regions, ram) && reserved_in_ram(candidates, 0, ram, Seq::empty()) is None
}

/// The end of the memory that the kernel is configured for.
pub open spec fn memory_end(base: u64, size: u64) -> u64 {
    if base + size <= u64::MAX {
        (base + size) as u64
    } else {
        u64::MAX
    }
}

/// The ranges that are reserved: the tree itself, then those that it names.
pub open spec fn all_reserved(
    reserved: Seq<RawRange>,
    dtb_paddr: u64,
    dtb_size: u64,
) -> Option<Seq<RawRange>> {
    reserved_candidates(
        reserved,
        0,
        pushed(Seq::empty(), (dtb_paddr, dtb_size), MAX_RESERVED_RANGES as nat),
    )
}

/// Whether `r` is the layout for regions of memory and reserved ranges.
pub open spec fn is_layout(
    r: Result<MemoryLayout, MemoryError>,
    regions: Seq<RawRange>,
    candidates: Option<Seq<RawRange>>,
) -> bool {
    match r {
        Ok(layout) => {
            &&& layout.ram.wf()
            &&& layout.reserved.wf()
            &&& is_merged(regions, layout.ram@)
            &&& layout.ram@.len() > 0
            &&& candidates is Some
            &&& reserved_in_ram(candidates->0, 0, layout.ram@, Seq::empty()) is Some
            &&& is_merged(
                reserved_in_ram(candidates->0, 0, layout.ram@, Seq::empty())->0,
                layout.reserved@,
            )
        },
        Err(MemoryError::NoRam) => regions.len() == 0,
        Err(MemoryError::BadReservation) => regions.len() > 0 && candidates is None,
        Err(MemoryError::BadReservedPages) => {
            &&& regions.len() > 0
            &&& candidates is Some
            &&& has_bad_pages(regions, candidates->0)
        },
        Err(MemoryError::BadTree) => false,
    }
}

/// The layout of memory, from what the firmware says and what the kernel is
/// configured for. The device tree itself is reserved.
pub fn memory_layout(
    fw: &FirmwareMemory,
    dtb_paddr: u64,
    memory_base: u64,
    memory_size: u64,
) -> (r: Result<MemoryLayout, MemoryError>)
    ensures
        is_layout(
            r,
            ram_candidates(
                fw.regions@,
                0,
                memory_base,
                memory_end(memory_base, memory_size),
                Seq::empty(),
            ),
            all_reserved(fw.reserved@, dtb_paddr, fw.dtb_size),
        ),
{
    let end: u64 = memory_base.saturating_add(memory_size);
    let mut ram: RangeList<MAX_RAM_RANGES> = collect_ram(&fw.regions, memory_base, end);
    let ghost regions = ram@;
    ram.normalize();
    if ram.is_empty() {
        proof {
            if regions.len() > 0 {
                assert(regions[0].1 > 0);
                lemma_candidates_fit(fw.regions@, 0, memory_base, end, Seq::empty());
                assert(in_range(regions[0], regions[0].0 as int));
                assert(covered(regions, regions[0].0 as int));
                assert(covered(ram@, regions[0].0 as int));
            }
        }
        return Err(MemoryError::NoRam);
    }
    proof {
        let a = ram@[0].0 as int;
        assert(in_range(ram@[0], a));
        assert(covered(ram@, a));
        assert(covered(regions, a));
    }
    let candidates: RangeList<MAX_RESERVED_RANGES> = match collect_reserved(dtb_paddr, fw) {
        Some(c) => c,
        None => {
            return Err(MemoryError::BadReservation);
        },
    };
    let mut reserved: RangeList<MAX_RESERVED_RANGES> = match collect_pages(
        candidates.as_slice(),
        ram.as_slice(),
    ) {
        Some(r) => r,
        None => {
            assert(is_merged(regions, ram@));
            return Err(MemoryError::BadReservedPages);
        },
    };
    reserved.normalize();
    Ok(MemoryLayout { ram, reserved })
}

/// The layout of memory that a device tree describes.
pub fn init_from_fdt(dtb: &[u8], dtb_paddr: u64, memory_base: u64, memory_size: u64) -> (r: Result<
    MemoryLayout,
    MemoryError,
>)
    ensures
        if is_sound(dtb@) {
            is_layout(
                r,
                ram_candidates(
                    dtb_memory(dtb@),
                    0,
                    memory_base,
                    memory_end(memory_base, memory_size),
                    Seq::empty(),
                ),
                all_reserved(dtb_reserved(dtb@), dtb_paddr, be32(dtb@, 4) as u64),
            )
        } else {
            r matches Err(MemoryError::BadTree)
        },
{
    match read_memory(dtb) {
        None => Err(MemoryError::BadTree),
        Some((regions, reserved, dtb_size)) => {
            let fw: FirmwareMemory = FirmwareMemory { regions, reserved, dtb_size };
            memory_layout(&fw, dtb_paddr, memory_base, memory_size)
        },
    }
}

/// Where the kernel sees a physical address.
pub fn phys_to_virt(paddr: u64, offset: u64) -> (r: u64)
    requires
        paddr + offset <= u64::MAX,
    ensures
        r == paddr + offset,
{
    paddr + offset
}

/// The physical address of what the kernel sees at `vaddr`.
pub fn virt_to_phys(vaddr: u64, offset: u64) -> (r: u64)
    requires
        offset <= vaddr,
    ensures
        r == vaddr - offset,
{
    vaddr - offset
}

proof fn lemma_candidates_fit(
    regions: Seq<RawRange>,
    i: int,
    base: u64,
    end: u64,
    found: Seq<RawRange>,
)
    requires
        forall|k: int| 0 <= k < found.len() ==> (#[trigger] found[k]).0 + found[k].1 <= u64::MAX,
    ensures
        forall|k: int|
            0 <= k < ram_candidates(regions, i, base, end, found).len() ==> (
            #[trigger] ram_candidates(regions, i, base, end, found)[k]).0 + ram_candidates(
                regions,
                i,
                base,
                end,
                found,
            )[k].1 <= u64::MAX,
    decreases regions.len() - i,
{
    if i < regions.len() {
        let next = match clipped(regions[i], base, end) {
            Some(r) => pushed(found, r, MAX_RAM_RANGES as nat),
            None => found,
        };
        lemma_candidates_fit(regions, i + 1, base, end, next);
        assert(ram_candidates(regions, i, base, end, found) == ram_candidates(
            regions,
            i + 1,
            base,
            end,
            next,
        ));
    }
}

/// What `common_with` adds lies in the candidate and in memory, and is all that
/// lies in both.
proof fn lemma_common(c: RawRange, ram: Seq<RawRange>, j: int, found: Seq<RawRange>, a: int)
    requires
        0 <= j <= ram.len(),
        common_with(c, ram, j, found) is Some,
    ensures
        covered(common_with(c, ram, j, found)->0, a) <==> covered(found, a) || (in_range(c, a)
            && covered(ram.skip(j), a)),
    decreases ram.len() - j,
{
    if j < ram.len() {
        let next = match spec_intersect(c, ram[j]) {
            None => found,
            Some(r) => pushed(found, r, MAX_RESERVED_RANGES as nat),
        };
        lemma_common(c, ram, j + 1, next, a);
        lemma_intersect(c, ram[j], a);
        lemma_covered_skip(ram, j, a);
        if spec_intersect(c, ram[j]) is Some {
            lemma_covered_push(found, spec_intersect(c, ram[j])->0, a);
        }
    } else {
        assert(ram.skip(j).len() == 0);
    }
}

proof fn lemma_covered_skip(s: Seq<RawRange>, j: int, a: int)
    requires
        0 <= j < s.len(),
    ensures
        covered(s.skip(j), a) <==> in_range(s[j], a) || covered(s.skip(j + 1), a),
{
    let t = s.skip(j);
    let u = s.skip(j + 1);
    if covered(t, a) {
        let k = choose|k: int| 0 <= k < t.len() && in_range(#[trigger] t[k], a);
        if k > 0 {
            assert(u[k - 1] == t[k]);
        }
    }
    if in_range(s[j], a) {
        assert(in_range(t[0], a));
    }
    if covered(u, a) {
        let k = choose|k: int| 0 <= k < u.len() && in_range(#[trigger] u[k], a);
        assert(in_range(t[k + 1], a));
    }
}

proof fn lemma_covered_push(s: Seq<RawRange>, r: RawRange, a: int)
    ensures
        covered(s.push(r), a) <==> covered(s, a) || in_range(r, a),
{
    let t = s.push(r);
    if covered(t, a) {
        let k = choose|k: int| 0 <= k < t.len() && in_range(#[trigger] t[k], a);
        if k < s.len() {
            assert(in_range(s[k], a));
        }
    }
    if covered(s, a) {
        let k = choose|k: int| 0 <= k < s.len() && in_range(#[trigger] s[k], a);
        assert(in_range(t[k], a));
    }
    if in_range(r, a) {
        assert(in_range(t[s.len() as int], a));
    }
}

/// Whether `a` lies in a page of one of the candidates from the `i`-th on.
pub open spec fn in_pages(candidates: Seq<RawRange>, i: int, a: int) -> bool {
    exists|k: int|
        i <= k < candidates.len() && (spec_align_reserved(#[trigger] candidates[k]) matches Some(
            p,
        ) && in_range(p, a))
}

/// What is reserved is the memory in the pages of the candidates.
pub proof fn lemma_reserved_pages(
    candidates: Seq<RawRange>,
    i: int,
    ram: Seq<RawRange>,
    found: Seq<RawRange>,
    a: int,
)
    requires
        0 <= i,
        reserved_in_ram(candidates, i, ram, found) is Some,
    ensures
        covered(reserved_in_ram(candidates, i, ram, found)->0, a) <==> covered(found, a) || (
        in_pages(candidates, i, a) && covered(ram, a)),
    decreases candidates.len() - i,
{
    if i < candidates.len() {
        let p = spec_align_reserved(candidates[i])->0;
        let f = common_with(p, ram, 0, found)->0;
        lemma_common(p, ram, 0, found, a);
        assert(ram.skip(0) =~= ram);
        lemma_reserved_pages(candidates, i + 1, ram, f, a);
    }
}

/// The pages around a range hold all of it.
pub proof fn lemma_pages_hold_range(r: RawRange, a: int)
    requires
        spec_align_reserved(r) is Some,
        in_range(r, a),
    ensures
        in_range(spec_align_reserved(r)->0, a),
{
}

/// Merging what is merged changes nothing.
pub proof fn lemma_merging_again(s: Seq<RawRange>, t: Seq<RawRange>, u: Seq<RawRange>)
    requires
        is_merged(s, t),
        is_merged(t, u),
    ensures
        t == u,
{
    lemma_separated_is_unique(t, u);
}

/// What is covered determines the ranges: merging has one result.
pub proof fn lemma_merged_is_unique(s: Seq<RawRange>, t: Seq<RawRange>, u: Seq<RawRange>)
    requires
        is_merged(s, t),
        is_merged(s, u),
    ensures
        t == u,
    decreases t.len(),
{
    assert forall|a: int| #[trigger] covered(t, a) <==> covered(u, a) by {
        assert(covered(t, a) <==> covered(s, a));
    }
    lemma_separated_is_unique(t, u);
}

/// An address below the last range lies in one of the others.
proof fn lemma_separated_is_unique(t: Seq<RawRange>, u: Seq<RawRange>)
    requires
        separated(t),
        separated(u),
        forall|a: int| #[trigger] covered(t, a) <==> covered(u, a),
    ensures
        t == u,
    decreases t.len(),
{
    if t.len() == 0 || u.len() == 0 {
        if t.len() > 0 {
            assert(in_range(t[0], t[0].0 as int));
            assert(covered(t, t[0].0 as int));
            assert(covered(u, t[0].0 as int));
        }
        if u.len() > 0 {
            assert(in_range(u[0], u[0].0 as int));
            assert(covered(u, u[0].0 as int));
            assert(covered(t, u[0].0 as int));
        }
        assert(t =~= u);
    } else {
        let m = t.len() - 1;
        let n = u.len() - 1;
        lemma_last_agrees(t, u);
        lemma_last_agrees(u, t);
        assert(t[m] == u[n]);
        let t2 = t.drop_last();
        let u2 = u.drop_last();
        lemma_drop_last(t);
        lemma_drop_last(u);
        assert forall|a: int| #[trigger] covered(t2, a) <==> covered(u2, a) by {
            assert(covered(t, a) <==> covered(u, a));
        }
        lemma_separated_is_unique(t2, u2);
        assert(t =~= t2.push(t[m]));
        assert(u =~= u2.push(u[n]));
    }
}

proof fn lemma_drop_last(t: Seq<RawRange>)
    requires
        separated(t),
        t.len() > 0,
    ensures
        separated(t.drop_last()),
        forall|a: int| #[trigger]
            covered(t.drop_last(), a) <==> covered(t, a) && a < t.last().0,
{
    let m = t.len() - 1;
    let t2 = t.drop_last();
    assert forall|i: int| 0 <= i < t2.len() implies (#[trigger] t2[i]).1 > 0 && t2[i].0 + t2[i].1
        <= u64::MAX by {
        assert(t[i].1 > 0);
    }
    assert forall|i: int, j: int| 0 <= i < j < t2.len() implies (#[trigger] t2[i]).0 + t2[i].1 < (
    #[trigger] t2[j]).0 by {
        assert(t[i].0 + t[i].1 < t[j].0);
    }
    assert forall|a: int| #[trigger] covered(t2, a) <==> covered(t, a) && a < t.last().0 by {
        if covered(t2, a) {
            let k = choose|k: int| 0 <= k < t2.len() && in_range(#[trigger] t2[k], a);
            assert(in_range(t[k], a));
            assert(t[k].0 + t[k].1 < t[m].0);
        }
        if covered(t, a) && a < t.last().0 {
            let k = choose|k: int| 0 <= k < t.len() && in_range(#[trigger] t[k], a);
            assert(k != m);
            assert(in_range(t2[k], a));
        }
    }
}

/// The last ranges of two lists that cover the same begin and end together.
proof fn lemma_last_agrees(t: Seq<RawRange>, u: Seq<RawRange>)
    requires
        separated(t),
        separated(u),
        t.len() > 0,
        u.len() > 0,
        forall|a: int| #[trigger] covered(t, a) <==> covered(u, a),
    ensures
        t.last().0 <= u.last().0,
        t.last().0 + t.last().1 <= u.last().0 + u.last().1,
{
    let x = t.last();
    let y = u.last();
    let m = t.len() - 1;
    let n = u.len() - 1;
    assert(t[m].1 > 0 && u[n].1 > 0);
    let top = x.0 + x.1 - 1;
    assert(in_range(t[m], top));
    assert(covered(t, top));
    assert(covered(u, top));
    let k = choose|k: int| 0 <= k < u.len() && in_range(#[trigger] u[k], top);
    if k < n {
        assert(u[k].0 + u[k].1 < u[n].0);
    }
    if x.0 > y.0 {
        let below = x.0 - 1;
        assert(below <= top);
        if below >= y.0 && below < y.0 + y.1 {
            assert(in_range(u[n], below));
            assert(covered(u, below));
            assert(covered(t, below));
            let j = choose|j: int| 0 <= j < t.len() && in_range(#[trigger] t[j], below);
            if j < m {
                assert(t[j].0 + t[j].1 < t[m].0);
            }
        } else {
            assert(k == n);
        }
    }
}

/// Of a region of memory just the part is used that lies within the configured
/// memory.
pub proof fn lemma_clipped_region(region: RawRange, base: u64, end: u64, a: int)
    ensures
        (clipped(region, base, end) matches Some(r) && in_range(r, a)) <==> (
        spec_firmware_to_phys(region.0) matches Some(p) && p + region.1 <= u64::MAX && p <= a < p
            + region.1 && base <= a < end),
{
}

/// As long as there is room, the memory that is used is all of the regions that
/// lies within the configured memory.
pub proof fn lemma_usable_memory(
    regions: Seq<RawRange>,
    i: int,
    base: u64,
    end: u64,
    found: Seq<RawRange>,
    a: int,
)
    requires
        0 <= i <= regions.len(),
        found.len() + (regions.len() - i) <= MAX_RAM_RANGES,
    ensures
        covered(ram_candidates(regions, i, base, end, found), a) <==> covered(found, a) || exists|k: int|
            i <= k < regions.len() && (clipped(#[trigger] regions[k], base, end) matches Some(r)
                && in_range(r, a)),
    decreases regions.len() - i,
{
    if i < regions.len() {
        let next = match clipped(regions[i], base, end) {
            Some(r) => pushed(found, r, MAX_RAM_RANGES as nat),
            None => found,
        };
        lemma_usable_memory(regions, i + 1, base, end, next, a);
        if let Some(r) = clipped(regions[i], base, end) {
            lemma_covered_push(found, r, a);
        }
        assert(ram_candidates(regions, i, base, end, found) == ram_candidates(
            regions,
            i + 1,
            base,
            end,
            next,
        ));
        if exists|k: int|
            i <= k < regions.len() && (clipped(#[trigger] regions[k], base, end) matches Some(r)
                && in_range(r, a)) {
            let k = choose|k: int|
                i <= k < regions.len() && (clipped(#[trigger] regions[k], base, end) matches Some(r)
                    && in_range(r, a));
            if k > i {
                assert(i + 1 <= k < regions.len());
            }
        }
    }
}

/// The pages around a range begin and end at page boundaries, and there is none
/// too many at either end.
pub proof fn lemma_pages_are_tight(r: RawRange)
    requires
        spec_align_reserved(r) is Some,
    ensures
        ({
            let p = spec_align_reserved(r)->0;
            &&& p.0 % 0x1000 == 0
            &&& p.1 % 0x1000 == 0
            &&& p.0 <= r.0 < p.0 + 0x1000
            &&& r.0 + r.1 <= p.0 + p.1 < r.0 + r.1 + 0x1000
        }),
{
}

} // verus!
