//! Contiguous runs of frames and the physical range that needs counting.
use vstd::prelude::*;

use super::flags::MemRegionFlags;
use super::frame_table::{FrameState, Frames};
use super::paging::{align_down_4k, align_up_4k, page_of, round_up_4k, PAGE_SIZE_4K};

verus! {

/// The address right behind a run, capped at the end of the address range.
pub open spec fn run_end(run: (usize, usize)) -> int {
    if run.0 + run.1 * 0x1000 <= usize::MAX {
        run.0 + run.1 * 0x1000
    } else {
        usize::MAX as int
    }
}

/// Frames in order, joined with their direct successors to runs of a start and
/// a number of frames.
pub open spec fn runs_of(frames: Seq<usize>) -> Seq<(usize, usize)>
    decreases frames.len(),
{
    if frames.len() == 0 {
        Seq::empty()
    } else {
        let before = runs_of(frames.drop_last());
        if before.len() > 0 && frames.last() == run_end(before.last()) {
            before.drop_last().push((before.last().0, (before.last().1 + 1) as usize))
        } else {
            before.push((frames.last(), 1))
        }
    }
}

/// The frames of a run.
pub open spec fn run_frames(run: (usize, usize)) -> Seq<int> {
    Seq::new(run.1 as nat, |i: int| run.0 + i * 0x1000)
}

/// The frames of all runs, one after another.
pub open spec fn expand(runs: Seq<(usize, usize)>) -> Seq<int>
    decreases runs.len(),
{
    if runs.len() == 0 {
        Seq::empty()
    } else {
        expand(runs.drop_last()) + run_frames(runs.last())
    }
}

proof fn lemma_run_count(frames: Seq<usize>)
    requires
        frames.len() <= usize::MAX,
    ensures
        runs_of(frames).len() <= frames.len(),
        frames.len() > 0 ==> runs_of(frames).len() > 0,
        forall|i: int|
            0 <= i < runs_of(frames).len() ==> 1 <= (#[trigger] runs_of(frames)[i]).1
                <= frames.len(),
    decreases frames.len(),
{
    if frames.len() > 0 {
        lemma_run_count(frames.drop_last());
    }
}

/// Runs name exactly the frames that they were made from, in order, as long as
/// no frame ends behind the address range.
pub proof fn lemma_runs_expand(frames: Seq<usize>)
    requires
        frames.len() <= usize::MAX,
        forall|i: int| 0 <= i < frames.len() ==> (#[trigger] frames[i]) + 0x1000 < usize::MAX,
    ensures
        expand(runs_of(frames)) == frames.map_values(|f: usize| f as int),
    decreases frames.len(),
{
    if frames.len() == 0 {
        assert(frames.map_values(|f: usize| f as int) =~= Seq::<int>::empty());
    } else {
        let prev = frames.drop_last();
        let before = runs_of(prev);
        let f = frames.last();
        assert forall|i: int| 0 <= i < prev.len() implies (#[trigger] prev[i]) + 0x1000
            < usize::MAX by {
            assert(prev[i] == frames[i]);
        }
        lemma_runs_expand(prev);
        lemma_run_count(prev);
        let target = frames.map_values(|f: usize| f as int);
        assert(target =~= prev.map_values(|f: usize| f as int).push(f as int));
        assert(frames[frames.len() - 1] + 0x1000 < usize::MAX);
        if before.len() > 0 && f == run_end(before.last()) {
            let r = before.last();
            let grown = (r.0, (r.1 + 1) as usize);
            let after = before.drop_last().push(grown);
            assert(after.drop_last() =~= before.drop_last());
            assert(1 <= before[before.len() - 1].1 <= prev.len());
            assert(run_frames(grown) =~= run_frames(r).push(f as int));
            assert(expand(after) =~= expand(before).push(f as int));
        } else {
            let after = before.push((f, 1usize));
            assert(after.drop_last() =~= before);
            assert(run_frames((f, 1usize)) =~= seq![f as int]);
            assert(expand(after) =~= expand(before).push(f as int));
        }
    }
}

/// Sorts in ascending order, as `slice::sort_unstable` does: the result holds
/// the same values, none of them before a smaller one.
#[verifier::external_body]
fn sort_frames(frames: &mut Vec<usize>)
    ensures
        final(frames)@.to_multiset() == old(frames)@.to_multiset(),
        forall|i: int, j: int|
            0 <= i <= j < final(frames)@.len() ==> final(frames)@[i] <= final(frames)@[j],
        final(frames)@.len() == old(frames)@.len(),
{
    frames.sort_unstable();
}

/// The runs in which `frames` go back to the allocator: in ascending order,
/// neighbours together.
pub fn dealloc_frame_runs(frames: Vec<usize>) -> (runs: Vec<(usize, usize)>)
    requires
        frames@.len() * 0x1000 <= usize::MAX,
    ensures
        exists|sorted: Seq<usize>|
            {
                &&& sorted.to_multiset() == frames@.to_multiset()
                &&& forall|i: int, j: int| 0 <= i <= j < sorted.len() ==> sorted[i] <= sorted[j]
                &&& runs@ == #[trigger] runs_of(sorted)
            },
{
    let mut frames = frames;
    let ghost before = frames@;
    sort_frames(&mut frames);
    let mut runs: Vec<(usize, usize)> = Vec::new();
    if frames.len() == 0 {
        assert(runs@ =~= runs_of(frames@));
        return runs;
    }
    let mut run_start: usize = frames[0];
    let mut run_len: usize = 1;
    let mut i: usize = 1;
    proof {
        assert(frames@.take(1).drop_last() =~= Seq::empty());
        assert(runs_of(frames@.take(1).drop_last()) =~= Seq::empty());
        assert(runs_of(frames@.take(1)) =~= seq![(run_start, run_len)]);
    }
    while i < frames.len()
        invariant
            1 <= i <= frames@.len(),
            1 <= run_len <= i,
            frames@.len() * 0x1000 <= usize::MAX,
            runs@.push((run_start, run_len)) == runs_of(frames@.take(i as int)),
        decreases frames@.len() - i,
    {
        let paddr: usize = frames[i];
        let ghost now = frames@.take((i + 1) as int);
        proof {
            assert(now.drop_last() =~= frames@.take(i as int));
            assert(now.last() == paddr);
            assert(runs@.push((run_start, run_len)).last() == (run_start, run_len));
            assert(runs@.push((run_start, run_len)).drop_last() =~= runs@);
        }
        if paddr == run_start.saturating_add(run_len * PAGE_SIZE_4K) {
            run_len = run_len + 1;
            assert(runs@.push((run_start, run_len)) =~= runs_of(now));
        } else {
            runs.push((run_start, run_len));
            run_start = paddr;
            run_len = 1;
            assert(runs@.push((run_start, run_len)) =~= runs_of(now));
        }
        i = i + 1;
    }
    assert(frames@.take(i as int) =~= frames@);
    runs.push((run_start, run_len));
    assert(runs@ == runs_of(frames@));
    runs
}

proof fn lemma_released_count(s: FrameState, frames: Seq<usize>)
    ensures
        s.dealloc_all(frames).released.len() <= s.released.len() + frames.len(),
    decreases frames.len(),
{
    if frames.len() > 0 {
        lemma_released_count(s, frames.drop_last());
    }
}

/// Gives up one reference to each of `values`; the runs go back to the
/// allocator, with all frames that were released before.
pub fn dealloc_frame_values(frames: &mut Frames, values: &Vec<usize>) -> (runs: Vec<(usize, usize)>)
    requires
        old(frames).wf(),
        old(frames)@.releasable(values@),
        (old(frames)@.released.len() + values@.len()) * 0x1000 <= usize::MAX,
    ensures
        final(frames).wf(),
        final(frames)@ == (FrameState {
            released: Seq::empty(),
            ..old(frames)@.dealloc_all(values@)
        }),
        exists|sorted: Seq<usize>|
            {
                &&& sorted.to_multiset() == old(frames)@.dealloc_all(
                    values@,
                ).released.to_multiset()
                &&& forall|i: int, j: int| 0 <= i <= j < sorted.len() ==> sorted[i] <= sorted[j]
                &&& runs@ == #[trigger] runs_of(sorted)
            },
{
    proof {
        lemma_released_count(frames@, values@);
    }
    frames.dealloc_frames(values);
    let released: Vec<usize> = frames.take_released();
    dealloc_frame_runs(released)
}

/// A physical memory region.
#[derive(Clone, Copy, Debug)]
pub struct PhysMemRegion {
    pub paddr: usize,
    pub size: usize,
    pub flags: MemRegionFlags,
}

/// Whether the region's pages end in the address range.
pub open spec fn region_fits(r: PhysMemRegion) -> bool {
    round_up_4k(r.paddr + r.size) <= usize::MAX
}

/// The lowest page of the free regions, or the last address if there is none.
pub open spec fn lowest_free(regions: Seq<PhysMemRegion>) -> usize
    decreases regions.len(),
{
    if regions.len() == 0 {
        usize::MAX
    } else {
        let rest = lowest_free(regions.drop_last());
        if regions.last().flags.free && page_of(regions.last().paddr) < rest {
            page_of(regions.last().paddr)
        } else {
            rest
        }
    }
}

/// The end of the highest page of the free regions, or zero if there is none.
pub open spec fn highest_free(regions: Seq<PhysMemRegion>) -> int
    decreases regions.len(),
{
    if regions.len() == 0 {
        0
    } else {
        let rest = highest_free(regions.drop_last());
        let end = round_up_4k(regions.last().paddr + regions.last().size);
        if regions.last().flags.free && end > rest {
            end
        } else {
            rest
        }
    }
}

/// The smallest range of whole pages that holds every free region.
pub fn frame_table_bounds(regions: &Vec<PhysMemRegion>) -> (r: Option<(usize, usize)>)
    requires
        forall|i: int| 0 <= i < regions@.len() ==> region_fits(#[trigger] regions@[i]),
    ensures
        r == if highest_free(regions@) > lowest_free(regions@) {
            Some((lowest_free(regions@), highest_free(regions@) as usize))
        } else {
            None
        },
        r matches Some(b) ==> b.0 < b.1,
{
    let mut max_paddr: usize = 0;
    let mut min_paddr: usize = usize::MAX;
    let mut i: usize = 0;
    while i < regions.len()
        invariant
            i <= regions@.len(),
            forall|j: int| 0 <= j < regions@.len() ==> region_fits(#[trigger] regions@[j]),
            max_paddr == highest_free(regions@.take(i as int)),
            min_paddr == lowest_free(regions@.take(i as int)),
        decreases regions@.len() - i,
    {
        let region: PhysMemRegion = regions[i];
        assert(regions@.take((i + 1) as int).drop_last() =~= regions@.take(i as int));
        assert(region_fits(regions@[i as int]));
        i = i + 1;
        if region.flags.free {
            let start: usize = align_down_4k(region.paddr);
            let end: usize = align_up_4k(region.paddr + region.size);
            if start < min_paddr {
                min_paddr = start;
            }
            if end > max_paddr {
                max_paddr = end;
            }
        }
    }
    assert(regions@.take(i as int) =~= regions@);
    if max_paddr > min_paddr {
        Some((min_paddr, max_paddr))
    } else {
        None
    }
}

/// The range of frames that are counted: that of the free regions, or the
/// configured memory where there are none.
pub fn frame_table_range(regions: &Vec<PhysMemRegion>, memory_base: usize, memory_size: usize) -> (r: (
    usize,
    usize,
))
    requires
        forall|i: int| 0 <= i < regions@.len() ==> region_fits(#[trigger] regions@[i]),
        memory_base + memory_size <= usize::MAX,
    ensures
        r == if highest_free(regions@) > lowest_free(regions@) {
            (lowest_free(regions@), highest_free(regions@) as usize)
        } else {
            (memory_base, (memory_base + memory_size) as usize)
        },
        r.0 <= r.1,
{
    match frame_table_bounds(regions) {
        Some(bounds) => bounds,
        None => (memory_base, memory_base + memory_size),
    }
}

/// Every page of a free region lies within the bounds.
pub proof fn lemma_bounds_cover_free_regions(regions: Seq<PhysMemRegion>, i: int)
    requires
        0 <= i < regions.len(),
        regions[i].flags.free,
    ensures
        lowest_free(regions) <= regions[i].paddr,
        regions[i].paddr + regions[i].size <= highest_free(regions),
    decreases regions.len(),
{
    if i < regions.len() - 1 {
        lemma_bounds_cover_free_regions(regions.drop_last(), i);
    }
}

/// The bounds reach no further than the pages of the free regions: the lowest
/// page and the end of the highest are those of free regions.
pub proof fn lemma_bounds_are_those_of_free_regions(regions: Seq<PhysMemRegion>)
    ensures
        lowest_free(regions) < usize::MAX ==> exists|i: int|
            0 <= i < regions.len() && (#[trigger] regions[i]).flags.free && regions[i].paddr
                - regions[i].paddr % 0x1000 == lowest_free(regions),
        highest_free(regions) > 0 ==> exists|i: int|
            0 <= i < regions.len() && (#[trigger] regions[i]).flags.free && regions[i].paddr
                + regions[i].size <= highest_free(regions) < regions[i].paddr + regions[i].size
                + 0x1000,
        highest_free(regions) % 0x1000 == 0,
    decreases regions.len(),
{
    if regions.len() > 0 {
        let rest = regions.drop_last();
        let n = regions.len() - 1;
        lemma_bounds_are_those_of_free_regions(rest);
        if lowest_free(regions) < usize::MAX {
            if lowest_free(regions) == lowest_free(rest) {
                let i = choose|i: int|
                    0 <= i < rest.len() && (#[trigger] rest[i]).flags.free && rest[i].paddr
                        - rest[i].paddr % 0x1000 == lowest_free(rest);
                assert(regions[i] == rest[i]);
            } else {
                assert(regions[n].flags.free);
            }
        }
        if highest_free(regions) > 0 {
            if highest_free(regions) == highest_free(rest) {
                let i = choose|i: int|
                    0 <= i < rest.len() && (#[trigger] rest[i]).flags.free && rest[i].paddr
                        + rest[i].size <= highest_free(rest) < rest[i].paddr + rest[i].size
                        + 0x1000;
                assert(regions[i] == rest[i]);
            } else {
                assert(regions[n].flags.free);
            }
        }
    }
}

} // verus!
