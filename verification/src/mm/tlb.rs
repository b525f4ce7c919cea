//! TLB shootdowns that run after an address space was unlocked.
use vstd::prelude::*;

use crate::error::{AxError, AxResult};

use super::frame_table::Frames;
use super::paging::{aligned_4k, PAGE_SIZE_4K};
use super::reclaim::{
    page_count, pages_of, saturating_sum, DeferredReclaims, FileWritebacks, Reclaims,
    TlbInvalidationTracker, Writeback,
};

verus! {

/// Which translations of an address space have to be dropped.
#[derive(Clone, Copy, Debug, PartialEq, Eq, Structural)]
pub enum TlbInvalidation {
    /// Those of a range, in which so many pages were changed.
    Range { start: usize, end: usize, changed_pages: usize },
    /// All of them.
    FullAsid,
}

impl TlbInvalidation {
    /// Whether the translation of `a` is dropped.
    pub open spec fn covers(self, a: int) -> bool {
        match self {
            TlbInvalidation::Range { start, end, .. } => start <= a < end,
            TlbInvalidation::FullAsid => true,
        }
    }

    /// What drops everything that either of two drops.
    pub open spec fn merged(self, other: Self) -> Self {
        match (self, other) {
            (
                TlbInvalidation::Range { start, end, changed_pages },
                TlbInvalidation::Range { start: s, end: e, changed_pages: n },
            ) => TlbInvalidation::Range {
                start: if start <= s {
                    start
                } else {
                    s
                },
                end: if end >= e {
                    end
                } else {
                    e
                },
                changed_pages: saturating_sum(changed_pages, n),
            },
            _ => TlbInvalidation::FullAsid,
        }
    }

    pub open spec fn spec_from_tracker(t: TlbInvalidationTracker) -> Option<Self> {
        match (t.start, t.end) {
            (Some(start), Some(end)) => Some(
                TlbInvalidation::Range { start, end, changed_pages: t.changed_pages },
            ),
            _ => None,
        }
    }

    pub fn from_tracker(tracker: TlbInvalidationTracker) -> (r: Option<Self>)
        ensures
            r == Self::spec_from_tracker(tracker),
    {
        match (tracker.start, tracker.end) {
            (Some(start), Some(end)) => Some(
                TlbInvalidation::Range { start, end, changed_pages: tracker.changed_pages },
            ),
            _ => None,
        }
    }

    pub fn merge(&mut self, other: Self)
        ensures
            *final(self) == old(self).merged(other),
    {
        *self = match (*self, other) {
            (
                TlbInvalidation::Range { start, end, changed_pages },
                TlbInvalidation::Range { start: s, end: e, changed_pages: n },
            ) => TlbInvalidation::Range {
                start: if start <= s {
                    start
                } else {
                    s
                },
                end: if end >= e {
                    end
                } else {
                    e
                },
                changed_pages: changed_pages.saturating_add(n),
            },
            _ => TlbInvalidation::FullAsid,
        };
    }
}

/// Merging forgets nothing, and its order does not matter.
pub proof fn lemma_merge_covers(a: TlbInvalidation, b: TlbInvalidation, addr: int)
    ensures
        a.covers(addr) || b.covers(addr) ==> a.merged(b).covers(addr),
        a.merged(b) == b.merged(a),
{
}

/// Adds an invalidation to a list with at most one entry for each ASID.
pub open spec fn merge_into(
    list: Seq<(usize, TlbInvalidation)>,
    asid: usize,
    inv: TlbInvalidation,
) -> Seq<(usize, TlbInvalidation)>
    decreases list.len(),
{
    if list.len() == 0 {
        seq![(asid, inv)]
    } else if list[0].0 == asid {
        seq![(asid, list[0].1.merged(inv))] + list.skip(1)
    } else {
        seq![list[0]] + merge_into(list.skip(1), asid, inv)
    }
}

pub open spec fn merge_all(
    list: Seq<(usize, TlbInvalidation)>,
    more: Seq<(usize, TlbInvalidation)>,
) -> Seq<(usize, TlbInvalidation)>
    decreases more.len(),
{
    if more.len() == 0 {
        list
    } else {
        let before = merge_all(list, more.drop_last());
        merge_into(before, more.last().0, more.last().1)
    }
}

/// What is dropped for `asid` at `a`.
pub open spec fn list_covers(list: Seq<(usize, TlbInvalidation)>, asid: usize, a: int) -> bool {
    exists|i: int| 0 <= i < list.len() && (#[trigger] list[i]).0 == asid && list[i].1.covers(a)
}

/// Adding an invalidation to a list keeps what the list drops and drops what
/// was added.
pub proof fn lemma_merge_into_covers(
    list: Seq<(usize, TlbInvalidation)>,
    asid: usize,
    inv: TlbInvalidation,
    other: usize,
    a: int,
)
    ensures
        list_covers(list, other, a) ==> list_covers(merge_into(list, asid, inv), other, a),
        inv.covers(a) ==> list_covers(merge_into(list, asid, inv), asid, a),
    decreases list.len(),
{
    let t = merge_into(list, asid, inv);
    if list.len() == 0 {
        assert(t[0] == (asid, inv));
    } else if list[0].0 == asid {
        assert(t[0] == (asid, list[0].1.merged(inv)));
        lemma_merge_covers(list[0].1, inv, a);
        if list_covers(list, other, a) {
            let i = choose|i: int|
                0 <= i < list.len() && (#[trigger] list[i]).0 == other && list[i].1.covers(a);
            if i > 0 {
                assert(t[i] == list[i]);
            } else {
                assert(t[0].0 == other && t[0].1.covers(a));
            }
        }
        if inv.covers(a) {
            assert(t[0].0 == asid && t[0].1.covers(a));
        }
    } else {
        let rest = list.skip(1);
        let tail = merge_into(rest, asid, inv);
        lemma_merge_into_covers(rest, asid, inv, other, a);
        if list_covers(list, other, a) {
            let i = choose|i: int|
                0 <= i < list.len() && (#[trigger] list[i]).0 == other && list[i].1.covers(a);
            if i == 0 {
                assert(t[0] == list[0]);
            } else {
                assert(rest[i - 1] == list[i]);
                assert(list_covers(rest, other, a));
                let j = choose|j: int|
                    0 <= j < tail.len() && (#[trigger] tail[j]).0 == other && tail[j].1.covers(a);
                assert(t[j + 1] == tail[j]);
            }
        }
        if inv.covers(a) {
            let j = choose|j: int|
                0 <= j < tail.len() && (#[trigger] tail[j]).0 == asid && tail[j].1.covers(a);
            assert(t[j + 1] == tail[j]);
        }
    }
}

/// Two lists of invalidations become one that drops what either drops.
pub proof fn lemma_merge_all_covers(
    list: Seq<(usize, TlbInvalidation)>,
    more: Seq<(usize, TlbInvalidation)>,
    asid: usize,
    a: int,
)
    ensures
        list_covers(list, asid, a) || list_covers(more, asid, a) ==> list_covers(
            merge_all(list, more),
            asid,
            a,
        ),
    decreases more.len(),
{
    if more.len() > 0 {
        let before = merge_all(list, more.drop_last());
        lemma_merge_all_covers(list, more.drop_last(), asid, a);
        lemma_merge_into_covers(before, more.last().0, more.last().1, asid, a);
        if list_covers(more, asid, a) {
            let i = choose|i: int|
                0 <= i < more.len() && (#[trigger] more[i]).0 == asid && more[i].1.covers(a);
            if i < more.len() - 1 {
                assert(more.drop_last()[i] == more[i]);
            }
        }
    }
}

/// Translations to drop on other CPUs, and what can be freed afterwards.
pub struct TlbShootdown {
    list: Vec<(usize, TlbInvalidation)>,
    reclaims: DeferredReclaims,
}

/// How another CPU answered the request to drop translations.
#[derive(Clone, Copy, Debug, PartialEq, Eq, Structural)]
pub enum FlushOutcome {
    Done,
    /// The request failed, but the translations are certain to be dropped.
    Guaranteed,
    /// Nobody knows whether the translations were dropped.
    Lost,
}

impl TlbShootdown {
    pub closed spec fn list(&self) -> Seq<(usize, TlbInvalidation)> {
        self.list@
    }

    pub closed spec fn reclaims(&self) -> Reclaims {
        self.reclaims@
    }

    /// The frames that wait are not in a retirement buffer.
    pub open spec fn wf(&self) -> bool {
        self.reclaims().retirement is None
    }

    /// Drops everything of `asid`.
    pub fn new(asid: usize, reclaims: DeferredReclaims) -> (r: Self)
        ensures
            r.list() == seq![(asid, TlbInvalidation::FullAsid)],
            r.reclaims() == reclaims@,
    {
        let mut list: Vec<(usize, TlbInvalidation)> = Vec::new();
        list.push((asid, TlbInvalidation::FullAsid));
        assert(list@ =~= seq![(asid, TlbInvalidation::FullAsid)]);
        TlbShootdown { list, reclaims }
    }

    /// Drops what `tracker` has seen change.
    pub fn from_tracker(
        asid: usize,
        tracker: TlbInvalidationTracker,
        reclaims: DeferredReclaims,
    ) -> (r: Self)
        ensures
            r.list() == tracked_list(asid, tracker),
            r.reclaims() == reclaims@,
    {
        let mut list: Vec<(usize, TlbInvalidation)> = Vec::new();
        if let Some(inv) = TlbInvalidation::from_tracker(tracker) {
            list.push((asid, inv));
        }
        assert(list@ =~= tracked_list(asid, tracker));
        TlbShootdown { list, reclaims }
    }

    pub fn without_reclaims(asid: usize) -> (r: Self)
        ensures
            r.list() == seq![(asid, TlbInvalidation::FullAsid)],
            r.reclaims() == Reclaims::none(),
    {
        Self::new(asid, DeferredReclaims::default())
    }

    /// Drops the translations of `[start, start + size)`.
    pub fn for_range(asid: usize, start: usize, size: usize, reclaims: DeferredReclaims) -> (r: Self)
        requires
            start + size <= usize::MAX,
        ensures
            r.list() == seq![
                (
                    asid,
                    TlbInvalidation::Range {
                        start,
                        end: (start + size) as usize,
                        changed_pages: pages_of(size),
                    },
                ),
            ],
            r.reclaims() == reclaims@,
    {
        let mut list: Vec<(usize, TlbInvalidation)> = Vec::new();
        let inv = TlbInvalidation::Range {
            start,
            end: start + size,
            changed_pages: page_count(size),
        };
        list.push((asid, inv));
        assert(list@ =~= seq![(asid, inv)]);
        TlbShootdown { list, reclaims }
    }

    fn merge_invalidation(list: &mut Vec<(usize, TlbInvalidation)>, asid: usize, inv: TlbInvalidation)
        ensures
            final(list)@ == merge_into(old(list)@, asid, inv),
    {
        let mut i: usize = 0;
        assert(list@.take(0) =~= Seq::empty());
        assert(list@.skip(0) =~= list@);
        assert(Seq::<(usize, TlbInvalidation)>::empty() + merge_into(list@, asid, inv)
            =~= merge_into(list@, asid, inv));
        while i < list.len()
            invariant
                i <= list@.len(),
                list@ == old(list)@,
                merge_into(old(list)@, asid, inv) == old(list)@.take(i as int) + merge_into(
                    old(list)@.skip(i as int),
                    asid,
                    inv,
                ),
            decreases list@.len() - i,
        {
            let ghost rest = list@.skip(i as int);
            proof {
                assert(rest[0] == list@[i as int]);
                assert(rest.skip(1) =~= list@.skip(i + 1));
            }
            let (existing, mut range) = list[i];
            if existing == asid {
                range.merge(inv);
                list.set(i, (existing, range));
                assert(list@ =~= old(list)@.take(i as int) + (seq![(asid, range)] + rest.skip(1)));
                return;
            }
            proof {
                assert(old(list)@.take(i as int) + (seq![rest[0]] + merge_into(
                    rest.skip(1),
                    asid,
                    inv,
                )) =~= old(list)@.take(i + 1) + merge_into(rest.skip(1), asid, inv));
            }
            i = i + 1;
        }
        proof {
            assert(list@.skip(i as int) =~= Seq::empty());
            assert(list@.take(i as int) =~= list@);
        }
        list.push((asid, inv));
        assert(list@ =~= old(list)@ + seq![(asid, inv)]);
    }

    fn merge_list(
        list: &mut Vec<(usize, TlbInvalidation)>,
        more: &Vec<(usize, TlbInvalidation)>,
    )
        ensures
            final(list)@ == merge_all(old(list)@, more@),
    {
        let mut i: usize = 0;
        assert(more@.take(0) =~= Seq::empty());
        while i < more.len()
            invariant
                i <= more@.len(),
                list@ == merge_all(old(list)@, more@.take(i as int)),
            decreases more@.len() - i,
        {
            let (asid, inv) = more[i];
            proof {
                assert(more@.take(i + 1).drop_last() =~= more@.take(i as int));
                assert(more@.take(i + 1).last() == more@[i as int]);
            }
            Self::merge_invalidation(list, asid, inv);
            i = i + 1;
        }
        assert(more@.take(i as int) =~= more@);
    }

    /// Takes over another shootdown.
    pub fn merge(&mut self, other: Self)
        requires
            old(self).wf(),
            other.wf(),
        ensures
            final(self).list() == merge_all(old(self).list(), other.list()),
            final(self).reclaims() == old(self).reclaims().joined(other.reclaims()),
            final(self).wf(),
    {
        Self::merge_list(&mut self.list, &other.list);
        self.reclaims.append(other.reclaims);
    }

    /// What to drop on all CPUs, in order, with one entry for each ASID.
    pub fn flushes(&self) -> (r: Vec<(usize, TlbInvalidation)>)
        ensures
            r@ == merge_all(Seq::empty(), self.list()),
    {
        let mut r: Vec<(usize, TlbInvalidation)> = Vec::new();
        assert(r@ =~= Seq::empty());
        Self::merge_list(&mut r, &self.list);
        r
    }

    /// Ends the shootdown once the CPUs have answered. Frames are given back
    /// only if no answer was lost; otherwise they stay allocated for ever.
    pub fn complete_after_unlock(self, outcomes: &Vec<FlushOutcome>, frames: &mut Frames) -> (r:
        AxResult<FileWritebacks>)
        requires
            old(frames).wf(),
            old(frames)@.releasable(self.reclaims().frames),
        ensures
            final(frames).wf(),
            final(frames).room() >= old(frames).room(),
            if lost(outcomes@) {
                &&& r matches Err(e) && e == AxError::BadState
                &&& final(frames)@ == old(frames)@
            } else {
                &&& r matches Ok(w) && w@ == self.reclaims().writebacks
                &&& final(frames)@ == old(frames)@.dealloc_all(self.reclaims().frames)
            },
    {
        let mut i: usize = 0;
        while i < outcomes.len()
            invariant
                i <= outcomes@.len(),
                forall|j: int| 0 <= j < i ==> (#[trigger] outcomes@[j]) != FlushOutcome::Lost,
                frames.wf(),
                frames.room() >= old(frames).room(),
                frames@ == old(frames)@,
            decreases outcomes@.len() - i,
        {
            if outcomes[i] == FlushOutcome::Lost {
                assert(lost(outcomes@));
                return Err(AxError::BadState);
            }
            i = i + 1;
        }
        Ok(self.reclaims.reclaim(frames))
    }
}

/// Whether an answer was lost.
pub open spec fn lost(outcomes: Seq<FlushOutcome>) -> bool {
    exists|i: int| 0 <= i < outcomes.len() && (#[trigger] outcomes[i]) == FlushOutcome::Lost
}

/// The invalidation that a tracker asks for.
pub open spec fn tracked_list(
    asid: usize,
    tracker: TlbInvalidationTracker,
) -> Seq<(usize, TlbInvalidation)> {
    match TlbInvalidation::spec_from_tracker(tracker) {
        Some(inv) => seq![(asid, inv)],
        None => Seq::empty(),
    }
}

/// One translation, or all of them, to drop on this CPU.
#[derive(Clone, Copy, Debug, PartialEq, Eq, Structural)]
pub enum LocalFlush {
    Page { asid: usize, page: usize },
    Asid { asid: usize },
}

/// Up to so many pages are dropped one by one.
pub const RANGE_PAGE_LIMIT: usize = 32;

/// The pages of `[start, end)`.
pub open spec fn page_flushes(asid: usize, start: usize, end: usize) -> Seq<LocalFlush> {
    Seq::new(
        ((end - start) / 0x1000) as nat,
        |i: int| LocalFlush::Page { asid, page: (start + i * 0x1000) as usize },
    )
}

/// What to drop on this CPU: the pages of a short range, or everything.
pub fn flush_tlb_invalidation(asid: usize, inv: TlbInvalidation) -> (r: Vec<LocalFlush>)
    requires
        inv matches TlbInvalidation::Range { start, end, .. } ==> start <= end && aligned_4k(
            start as int,
        ) && aligned_4k(end as int),
    ensures
        r@ == match inv {
            TlbInvalidation::Range { start, end, .. } => if (end - start) / 0x1000
                <= RANGE_PAGE_LIMIT {
                page_flushes(asid, start, end)
            } else {
                seq![LocalFlush::Asid { asid }]
            },
            TlbInvalidation::FullAsid => seq![LocalFlush::Asid { asid }],
        },
        inv matches TlbInvalidation::Range { start, end, .. } ==> (end - start > 32 * 0x1000
            ==> r@.len() == 1 && r@[0] == LocalFlush::Asid { asid }) && (end - start <= 32 * 0x1000
            ==> r@.len() == (end - start) / 0x1000),
{
    let mut r: Vec<LocalFlush> = Vec::new();
    if let TlbInvalidation::Range { start, end, .. } = inv {
        let pages: usize = (end - start) / PAGE_SIZE_4K;
        if pages <= RANGE_PAGE_LIMIT {
            while r.len() < pages
                invariant
                    r@.len() <= pages <= 32,
                    pages == (end - start) / 0x1000,
                    start <= end,
                    r@ == page_flushes(asid, start, end).take(r@.len() as int),
                decreases pages - r@.len(),
            {
                let page: usize = start + r.len() * PAGE_SIZE_4K;
                let ghost n = r@.len();
                r.push(LocalFlush::Page { asid, page });
                assert(r@ =~= page_flushes(asid, start, end).take((n + 1) as int));
            }
            assert(r@ =~= page_flushes(asid, start, end));
            return r;
        }
    }
    r.push(LocalFlush::Asid { asid });
    assert(r@ =~= seq![LocalFlush::Asid { asid }]);
    r
}

/// The result of an operation together with the shootdown that has to follow.
pub struct AddrSpaceMutation<T> {
    pub result: AxResult<T>,
    pub shootdown: Option<TlbShootdown>,
}

/// What [`AddrSpaceMutation`] asks to drop and to free.
pub open spec fn shootdown_of(s: Option<TlbShootdown>) -> Option<
    (Seq<(usize, TlbInvalidation)>, Reclaims),
> {
    match s {
        Some(t) => Some((t.list(), t.reclaims())),
        None => None,
    }
}

/// The shootdown that an operation leaves behind: none if nothing changed and
/// nothing waits.
pub open spec fn left_behind(
    asid: usize,
    tracker: TlbInvalidationTracker,
    reclaims: Reclaims,
) -> Option<(Seq<(usize, TlbInvalidation)>, Reclaims)> {
    if tracker.changed_pages != 0 || !reclaims.is_none() {
        Some((tracked_list(asid, tracker), reclaims))
    } else {
        None
    }
}

/// Builds the shootdown that an operation leaves behind.
pub fn leave_behind(asid: usize, tracker: TlbInvalidationTracker, reclaims: DeferredReclaims) -> (r:
    Option<TlbShootdown>)
    ensures
        shootdown_of(r) == left_behind(asid, tracker, reclaims@),
        r matches Some(s) ==> s.reclaims() == reclaims@,
{
    if !tracker.is_empty() || !reclaims.is_empty() {
        Some(TlbShootdown::from_tracker(asid, tracker, reclaims))
    } else {
        None
    }
}

impl<T> AddrSpaceMutation<T> {
    pub fn into_parts(self) -> (r: (AxResult<T>, Option<TlbShootdown>))
        ensures
            r == (self.result, self.shootdown),
    {
        (self.result, self.shootdown)
    }

    /// Ends the shootdown and hands out the result. A lost answer comes before
    /// the result; the writebacks are done after a completed shootdown.
    pub fn complete_after_unlock(self, outcomes: &Vec<FlushOutcome>, frames: &mut Frames) -> (r: (
        AxResult<T>,
        FileWritebacks,
    ))
        requires
            old(frames).wf(),
            self.shootdown matches Some(s) ==> old(frames)@.releasable(s.reclaims().frames),
        ensures
            final(frames).wf(),
            match self.shootdown {
                None => r.0 == self.result && r.1@ == Seq::<Writeback>::empty() && final(frames)@
                    == old(frames)@,
                Some(s) => if lost(outcomes@) {
                    &&& r.0 == Err::<T, AxError>(AxError::BadState)
                    &&& r.1@ == Seq::<Writeback>::empty()
                    &&& final(frames)@ == old(frames)@
                } else {
                    &&& r.0 == self.result
                    &&& r.1@ == s.reclaims().writebacks
                    &&& final(frames)@ == old(frames)@.dealloc_all(s.reclaims().frames)
                },
            },
    {
        match self.shootdown {
            None => (self.result, FileWritebacks::default()),
            Some(shootdown) => match shootdown.complete_after_unlock(outcomes, frames) {
                Ok(writebacks) => (self.result, writebacks),
                Err(e) => (Err(e), FileWritebacks::default()),
            },
        }
    }
}

/// A range that is dropped page by page is dropped whole.
pub proof fn lemma_every_page_is_flushed(asid: usize, start: usize, end: usize, q: usize)
    requires
        start <= q < end,
        start % 0x1000 == 0,
        end % 0x1000 == 0,
        q % 0x1000 == 0,
    ensures
        page_flushes(asid, start, end).contains(LocalFlush::Page { asid, page: q }),
{
    let i = (q - start) / 0x1000;
    assert(page_flushes(asid, start, end)[i] == (LocalFlush::Page { asid, page: q }));
}

} // verus!
