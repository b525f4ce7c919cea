//! Memory that devices may read or write directly. Such memory is registered by
//! its owner, and lives on while a device uses a part of it.
use vstd::prelude::*;

use crate::error::{DevError, DevResult};

verus! {

/// What a device does with memory.
#[derive(Clone, Copy, Debug, PartialEq, Eq, Structural)]
pub enum OwnedBufferDirection {
    Read,
    Write,
}

/// Memory that is registered, or was and is still used.
#[derive(Clone, Copy, Debug, PartialEq, Eq, Structural)]
pub struct OwnedBufferRange {
    pub id: u64,
    pub direction: OwnedBufferDirection,
    pub start: usize,
    pub end: usize,
    /// The part that is used.
    pub claim_start: usize,
    pub claim_len: usize,
    pub claimed: bool,
    pub registered: bool,
    /// What keeps the memory alive.
    pub owner: u64,
}

impl OwnedBufferRange {
    pub open spec fn wf(self) -> bool {
        &&& self.start < self.end
        &&& self.registered || self.claimed
        &&& self.claimed ==> self.claim_len > 0 && self.start <= self.claim_start
            && self.claim_start + self.claim_len <= self.end
    }

    /// Whether a part of memory lies in it.
    pub open spec fn holds(self, start: int, end: int) -> bool {
        self.registered && self.start <= start && end <= self.end
    }

    /// Whether it shares memory with a part.
    pub open spec fn meets(self, start: int, end: int) -> bool {
        self.registered && start < self.end && self.start < end
    }
}

/// A registered destination of reads. It is given back by `unregister_read`.
pub struct OwnedReadBufferRegistration {
    id: u64,
}

/// A registered source of writes. It is given back by `unregister_write`.
pub struct OwnedWriteBufferRegistration {
    id: u64,
}

/// What a request uses of a registered range.
struct Use {
    id: u64,
    start: usize,
    len: usize,
}

/// The use of a registered destination by one request, in one word. It is given
/// back by `release_read`.
pub struct OwnedReadBufferLease {
    inner: Box<Use>,
}

/// The use of a registered source by one request, in one word. It is given back
/// by `release_write`.
pub struct OwnedWriteBufferLease {
    inner: Box<Use>,
}

impl OwnedReadBufferRegistration {
    pub closed spec fn view(&self) -> u64 {
        self.id
    }
}

impl OwnedWriteBufferRegistration {
    pub closed spec fn view(&self) -> u64 {
        self.id
    }
}

impl OwnedReadBufferLease {
    pub closed spec fn view(&self) -> (u64, usize, usize) {
        (self.inner.id, self.inner.start, self.inner.len)
    }

    /// How many bytes the request uses.
    pub fn len(&self) -> (r: usize)
        ensures
            r == self@.2,
    {
        self.inner.len
    }

    pub fn is_empty(&self) -> (r: bool)
        ensures
            r == (self@.2 == 0),
    {
        self.inner.len == 0
    }

    /// Where the bytes are.
    pub fn start(&self) -> (r: usize)
        ensures
            r == self@.1,
    {
        self.inner.start
    }
}

impl OwnedWriteBufferLease {
    pub closed spec fn view(&self) -> (u64, usize, usize) {
        (self.inner.id, self.inner.start, self.inner.len)
    }

    /// How many bytes the request uses.
    pub fn len(&self) -> (r: usize)
        ensures
            r == self@.2,
    {
        self.inner.len
    }

    pub fn is_empty(&self) -> (r: bool)
        ensures
            r == (self@.2 == 0),
    {
        self.inner.len == 0
    }

    /// Where the bytes are.
    pub fn start(&self) -> (r: usize)
        ensures
            r == self@.1,
    {
        self.inner.start
    }
}

/// All such memory.
pub struct OwnedBuffers {
    ranges: Vec<OwnedBufferRange>,
    next_id: u64,
}

pub ghost struct Buffers {
    pub ranges: Seq<OwnedBufferRange>,
    pub next_id: u64,
}

impl Buffers {
    /// Registered memory does not overlap, and each has an identifier of its own.
    pub open spec fn wf(self) -> bool {
        &&& forall|i: int|
            0 <= i < self.ranges.len() ==> (#[trigger] self.ranges[i]).wf() && 0
                < self.ranges[i].id < self.next_id
        &&& forall|i: int, j: int|
            0 <= i < j < self.ranges.len() ==> (#[trigger] self.ranges[i]).id != (
            #[trigger] self.ranges[j]).id
        &&& forall|i: int, j: int|
            0 <= i < self.ranges.len() && 0 <= j < self.ranges.len() && i != j && (
            #[trigger] self.ranges[i]).registered ==> !(#[trigger] self.ranges[j]).meets(
                self.ranges[i].start as int,
                self.ranges[i].end as int,
            )
    }

    /// Whether memory is registered that shares bytes with a part.
    pub open spec fn meets(self, start: int, end: int) -> bool {
        exists|i: int| 0 <= i < self.ranges.len() && (#[trigger] self.ranges[i]).meets(start, end)
    }

    /// Whether a part of memory can be used: it lies in memory that is
    /// registered for that, and no part of that memory is used.
    pub open spec fn free_at(
        self,
        i: int,
        direction: OwnedBufferDirection,
        start: int,
        end: int,
    ) -> bool {
        &&& self.ranges[i].holds(start, end)
        &&& self.ranges[i].direction == direction
        &&& !self.ranges[i].claimed
    }

    /// After the `i`-th was taken away, if it is neither registered nor used.
    pub open spec fn settled(self, i: int, r: OwnedBufferRange) -> Buffers {
        Buffers {
            ranges: if r.registered || r.claimed {
                self.ranges.update(i, r)
            } else {
                self.ranges.remove(i)
            },
            ..self
        }
    }

    /// What keeps memory alive that is let go.
    pub open spec fn let_go(r: OwnedBufferRange) -> Option<u64> {
        if r.registered || r.claimed {
            None
        } else {
            Some(r.owner)
        }
    }

    /// Registering `len` bytes at `start`.
    pub open spec fn registers(
        self,
        direction: OwnedBufferDirection,
        start: usize,
        len: usize,
        owner: u64,
        r: DevResult<u64>,
        after: Buffers,
    ) -> bool {
        if len == 0 || start + len > usize::MAX {
            r == Err::<u64, DevError>(DevError::InvalidParam) && after == self
        } else if self.meets(start as int, start + len) {
            r == Err::<u64, DevError>(DevError::ResourceBusy) && after == self
        } else if self.next_id == 0 {
            r == Err::<u64, DevError>(DevError::BadState) && after == (Buffers {
                next_id: 1,
                ..self
            })
        } else {
            &&& r == Ok::<u64, DevError>(self.next_id)
            &&& after == (Buffers {
                ranges: self.ranges.push(
                    OwnedBufferRange {
                        id: self.next_id,
                        direction,
                        start,
                        end: (start + len) as usize,
                        claim_start: 0,
                        claim_len: 0,
                        claimed: false,
                        registered: true,
                        owner,
                    },
                ),
                next_id: (self.next_id + 1) as u64,
            })
        }
    }

    /// Beginning to use `len` bytes at `start`.
    pub open spec fn claims(
        self,
        direction: OwnedBufferDirection,
        start: usize,
        len: usize,
        r: Option<(u64, usize, usize)>,
        after: Buffers,
    ) -> bool {
        match r {
            None => {
                &&& after == self
                &&& len == 0 || start + len > usize::MAX || forall|i: int|
                    0 <= i < self.ranges.len() ==> !(#[trigger] self.free_at(
                        i,
                        direction,
                        start as int,
                        start + len,
                    ))
            },
            Some((id, s, l)) => {
                &&& s == start
                &&& l == len
                &&& len > 0
                &&& start + len <= usize::MAX
                &&& exists|i: int|
                    0 <= i < self.ranges.len() && #[trigger] self.free_at(
                        i,
                        direction,
                        start as int,
                        start + len,
                    ) && id == self.ranges[i].id && after == (Buffers {
                        ranges: self.ranges.update(
                            i,
                            OwnedBufferRange {
                                claimed: true,
                                claim_start: start,
                                claim_len: len,
                                ..self.ranges[i]
                            },
                        ),
                        ..self
                    })
            },
        }
    }

    /// Giving a registration back.
    pub open spec fn unregisters(self, id: u64, r: Option<u64>, after: Buffers) -> bool {
        if exists|i: int|
            0 <= i < self.ranges.len() && (#[trigger] self.ranges[i]).id == id
                && self.ranges[i].registered {
            exists|i: int|
                0 <= i < self.ranges.len() && (#[trigger] self.ranges[i]).id == id
                    && self.ranges[i].registered && after == self.settled(
                    i,
                    OwnedBufferRange { registered: false, ..self.ranges[i] },
                ) && r == Buffers::let_go(OwnedBufferRange { registered: false, ..self.ranges[i] })
        } else {
            r is None && after == self
        }
    }

    /// Giving a use back.
    pub open spec fn releases(self, id: u64, r: Option<u64>, after: Buffers) -> bool {
        if exists|i: int|
            0 <= i < self.ranges.len() && (#[trigger] self.ranges[i]).id == id
                && self.ranges[i].claimed {
            exists|i: int|
                0 <= i < self.ranges.len() && (#[trigger] self.ranges[i]).id == id
                    && self.ranges[i].claimed && after == self.settled(
                    i,
                    OwnedBufferRange { claimed: false, ..self.ranges[i] },
                ) && r == Buffers::let_go(OwnedBufferRange { claimed: false, ..self.ranges[i] })
        } else {
            r is None && after == self
        }
    }
}

proof fn lemma_settled_wf(s: Buffers, i: int, r: OwnedBufferRange)
    requires
        s.wf(),
        0 <= i < s.ranges.len(),
        r.id == s.ranges[i].id,
        r.start == s.ranges[i].start,
        r.end == s.ranges[i].end,
        r.registered ==> s.ranges[i].registered,
        r.claimed ==> r.claim_len > 0 && r.start <= r.claim_start && r.claim_start + r.claim_len
            <= r.end,
    ensures
        s.settled(i, r).wf(),
{
    let v = s.settled(i, r).ranges;
    let w = s.ranges;
    assert(w[i].wf());
    if r.registered || r.claimed {
        assert forall|k: int| 0 <= k < v.len() implies (#[trigger] v[k]).wf() && 0 < v[k].id
            < s.next_id by {
            assert(w[k].wf());
        }
        assert forall|a: int, b: int| 0 <= a < b < v.len() implies (#[trigger] v[a]).id != (
        #[trigger] v[b]).id by {
            assert(w[a].id != w[b].id);
        }
        assert forall|a: int, b: int|
            0 <= a < v.len() && 0 <= b < v.len() && a != b && (
            #[trigger] v[a]).registered implies !(#[trigger] v[b]).meets(
            v[a].start as int,
            v[a].end as int,
        ) by {
            assert(w[a].registered);
            assert(!w[b].meets(w[a].start as int, w[a].end as int));
        }
    } else {
        assert forall|k: int| 0 <= k < v.len() implies (#[trigger] v[k]).wf() && 0 < v[k].id
            < s.next_id by {
            assert(v[k] == w[if k < i {
                k
            } else {
                k + 1
            }]);
        }
        assert forall|a: int, b: int| 0 <= a < b < v.len() implies (#[trigger] v[a]).id != (
        #[trigger] v[b]).id by {
            let x = if a < i {
                a
            } else {
                a + 1
            };
            let y = if b < i {
                b
            } else {
                b + 1
            };
            assert(w[x].id != w[y].id);
        }
        assert forall|a: int, b: int|
            0 <= a < v.len() && 0 <= b < v.len() && a != b && (
            #[trigger] v[a]).registered implies !(#[trigger] v[b]).meets(
            v[a].start as int,
            v[a].end as int,
        ) by {
            let x = if a < i {
                a
            } else {
                a + 1
            };
            let y = if b < i {
                b
            } else {
                b + 1
            };
            assert(w[x].registered);
            assert(!w[y].meets(w[x].start as int, w[x].end as int));
        }
    }
}

impl OwnedBuffers {
    pub closed spec fn view(&self) -> Buffers {
        Buffers { ranges: self.ranges@, next_id: self.next_id }
    }

    pub fn new() -> (r: Self)
        ensures
            r@.wf(),
            r@.ranges == Seq::<OwnedBufferRange>::empty(),
            r@.next_id == 1,
    {
        OwnedBuffers { ranges: Vec::new(), next_id: 1 }
    }

    fn register(
        &mut self,
        direction: OwnedBufferDirection,
        start: usize,
        len: usize,
        owner: u64,
    ) -> (r: DevResult<u64>)
        requires
            old(self)@.wf(),
            old(self)@.next_id < u64::MAX,
        ensures
            final(self)@.wf(),
            old(self)@.registers(direction, start, len, owner, r, final(self)@),
    {
        if len == 0 {
            return Err(DevError::InvalidParam);
        }
        let end: usize = match start.checked_add(len) {
            Some(end) => end,
            None => {
                return Err(DevError::InvalidParam);
            },
        };
        let mut i: usize = 0;
        while i < self.ranges.len()
            invariant
                i <= self.ranges@.len(),
                self@ == old(self)@,
                self@.wf(),
                0 < len,
                end == start + len,
                forall|k: int|
                    0 <= k < i ==> !(#[trigger] self@.ranges[k]).meets(start as int, end as int),
            decreases self.ranges@.len() - i,
        {
            let x: OwnedBufferRange = self.ranges[i];
            if x.registered && start < x.end && x.start < end {
                assert(self@.ranges[i as int].meets(start as int, end as int));
                return Err(DevError::ResourceBusy);
            }
            i = i + 1;
        }
        let id: u64 = self.next_id;
        self.next_id = id + 1;
        if id == 0 {
            return Err(DevError::BadState);
        }
        self.ranges.push(
            OwnedBufferRange {
                id,
                direction,
                start,
                end,
                claim_start: 0,
                claim_len: 0,
                claimed: false,
                registered: true,
                owner,
            },
        );
        proof {
            let w = old(self)@.ranges;
            let v = self@.ranges;
            assert forall|k: int| 0 <= k < v.len() implies (#[trigger] v[k]).wf() && 0 < v[k].id
                < self@.next_id by {
                if k < w.len() {
                    assert(w[k].wf());
                }
            }
            assert forall|a: int, b: int| 0 <= a < b < v.len() implies (#[trigger] v[a]).id != (
            #[trigger] v[b]).id by {
                if b < w.len() {
                    assert(w[a].id != w[b].id);
                } else {
                    assert(w[a].id < old(self)@.next_id);
                }
            }
            assert forall|a: int, b: int|
                0 <= a < v.len() && 0 <= b < v.len() && a != b && (
                #[trigger] v[a]).registered implies !(#[trigger] v[b]).meets(
                v[a].start as int,
                v[a].end as int,
            ) by {
                if a < w.len() && b < w.len() {
                    assert(!w[b].meets(w[a].start as int, w[a].end as int));
                } else if a < w.len() {
                    assert(!w[a].meets(start as int, end as int));
                } else {
                    assert(!w[b].meets(start as int, end as int));
                }
            }
        }
        Ok(id)
    }

    fn claim(&mut self, direction: OwnedBufferDirection, start: usize, len: usize) -> (r: Option<
        (u64, usize, usize),
    >)
        requires
            old(self)@.wf(),
        ensures
            final(self)@.wf(),
            old(self)@.claims(direction, start, len, r, final(self)@),
    {
        if len == 0 {
            return None;
        }
        let end: usize = match start.checked_add(len) {
            Some(end) => end,
            None => {
                return None;
            },
        };
        let ghost s = self@;
        let mut i: usize = 0;
        while i < self.ranges.len()
            invariant
                i <= self.ranges@.len(),
                s == self@,
                s == old(self)@,
                s.wf(),
                0 < len,
                end == start + len,
                forall|k: int|
                    0 <= k < i ==> !(#[trigger] s.free_at(k, direction, start as int, end as int)),
            decreases self.ranges@.len() - i,
        {
            let x: OwnedBufferRange = self.ranges[i];
            if x.registered && x.start <= start && end <= x.end && x.direction == direction
                && !x.claimed {
                assert(s.free_at(i as int, direction, start as int, end as int));
                let y: OwnedBufferRange = OwnedBufferRange {
                    id: x.id,
                    direction: x.direction,
                    start: x.start,
                    end: x.end,
                    claim_start: start,
                    claim_len: len,
                    claimed: true,
                    registered: x.registered,
                    owner: x.owner,
                };
                self.ranges.set(i, y);
                proof {
                    lemma_settled_wf(s, i as int, y);
                    assert(self@ == s.settled(i as int, y));
                }
                return Some((x.id, start, len));
            }
            assert(!s.free_at(i as int, direction, start as int, end as int));
            i = i + 1;
        }
        None
    }

    fn unregister(&mut self, id: u64) -> (r: Option<u64>)
        requires
            old(self)@.wf(),
        ensures
            final(self)@.wf(),
            old(self)@.unregisters(id, r, final(self)@),
    {
        let ghost s = self@;
        let mut i: usize = 0;
        while i < self.ranges.len()
            invariant
                i <= self.ranges@.len(),
                s == self@,
                s == old(self)@,
                s.wf(),
                forall|k: int|
                    0 <= k < i ==> !((#[trigger] s.ranges[k]).id == id && s.ranges[k].registered),
            decreases self.ranges@.len() - i,
        {
            let x: OwnedBufferRange = self.ranges[i];
            if x.id == id && x.registered {
                assert(s.ranges[i as int].id == id);
                let ghost y = OwnedBufferRange { registered: false, ..x };
                proof {
                    assert(s.ranges[i as int].wf());
                    lemma_settled_wf(s, i as int, y);
                }
                if x.claimed {
                    self.ranges.set(
                        i,
                        OwnedBufferRange {
                            id: x.id,
                            direction: x.direction,
                            start: x.start,
                            end: x.end,
                            claim_start: x.claim_start,
                            claim_len: x.claim_len,
                            claimed: x.claimed,
                            registered: false,
                            owner: x.owner,
                        },
                    );
                    assert(self@ == s.settled(i as int, y));
                    return None;
                }
                let _ = self.ranges.remove(i);
                assert(self@ == s.settled(i as int, y));
                return Some(x.owner);
            }
            i = i + 1;
        }
        None
    }

    fn release(&mut self, id: u64) -> (r: Option<u64>)
        requires
            old(self)@.wf(),
        ensures
            final(self)@.wf(),
            old(self)@.releases(id, r, final(self)@),
    {
        let ghost s = self@;
        let mut i: usize = 0;
        while i < self.ranges.len()
            invariant
                i <= self.ranges@.len(),
                s == self@,
                s == old(self)@,
                s.wf(),
                forall|k: int|
                    0 <= k < i ==> !((#[trigger] s.ranges[k]).id == id && s.ranges[k].claimed),
            decreases self.ranges@.len() - i,
        {
            let x: OwnedBufferRange = self.ranges[i];
            if x.id == id && x.claimed {
                assert(s.ranges[i as int].id == id);
                let ghost y = OwnedBufferRange { claimed: false, ..x };
                proof {
                    lemma_settled_wf(s, i as int, y);
                }
                if x.registered {
                    self.ranges.set(
                        i,
                        OwnedBufferRange {
                            id: x.id,
                            direction: x.direction,
                            start: x.start,
                            end: x.end,
                            claim_start: x.claim_start,
                            claim_len: x.claim_len,
                            claimed: false,
                            registered: x.registered,
                            owner: x.owner,
                        },
                    );
                    assert(self@ == s.settled(i as int, y));
                    return None;
                }
                let _ = self.ranges.remove(i);
                assert(self@ == s.settled(i as int, y));
                return Some(x.owner);
            }
            i = i + 1;
        }
        None
    }

    /// Gives a registration back. Tells what kept the memory alive, if it is let
    /// go: a request that uses a part keeps it.
    pub fn unregister_read(&mut self, registration: OwnedReadBufferRegistration) -> (r: Option<u64>)
        requires
            old(self)@.wf(),
        ensures
            final(self)@.wf(),
            old(self)@.unregisters(registration@, r, final(self)@),
    {
        self.unregister(registration.id)
    }

    /// Gives a registration back, in the same way.
    pub fn unregister_write(&mut self, registration: OwnedWriteBufferRegistration) -> (r: Option<
        u64,
    >)
        requires
            old(self)@.wf(),
        ensures
            final(self)@.wf(),
            old(self)@.unregisters(registration@, r, final(self)@),
    {
        self.unregister(registration.id)
    }

    /// A request has ended. Tells what kept the memory alive, if it is let go: a
    /// registration keeps it.
    pub fn release_read(&mut self, lease: OwnedReadBufferLease) -> (r: Option<u64>)
        requires
            old(self)@.wf(),
        ensures
            final(self)@.wf(),
            old(self)@.releases(lease@.0, r, final(self)@),
    {
        self.release(lease.inner.id)
    }

    /// A request has ended, in the same way.
    pub fn release_write(&mut self, lease: OwnedWriteBufferLease) -> (r: Option<u64>)
        requires
            old(self)@.wf(),
        ensures
            final(self)@.wf(),
            old(self)@.releases(lease@.0, r, final(self)@),
    {
        self.release(lease.inner.id)
    }
}

/// Registers memory that devices may fill.
pub fn register_owned_read_buffer(
    buffers: &mut OwnedBuffers,
    start: usize,
    len: usize,
    owner: u64,
) -> (r: DevResult<OwnedReadBufferRegistration>)
    requires
        old(buffers)@.wf(),
        old(buffers)@.next_id < u64::MAX,
    ensures
        final(buffers)@.wf(),
        old(buffers)@.registers(
            OwnedBufferDirection::Read,
            start,
            len,
            owner,
            match r {
                Ok(x) => Ok(x@),
                Err(e) => Err(e),
            },
            final(buffers)@,
        ),
{
    match buffers.register(OwnedBufferDirection::Read, start, len, owner) {
        Ok(id) => Ok(OwnedReadBufferRegistration { id }),
        Err(e) => Err(e),
    }
}

/// Registers memory that devices may read out.
pub fn register_owned_write_buffer(
    buffers: &mut OwnedBuffers,
    start: usize,
    len: usize,
    owner: u64,
) -> (r: DevResult<OwnedWriteBufferRegistration>)
    requires
        old(buffers)@.wf(),
        old(buffers)@.next_id < u64::MAX,
    ensures
        final(buffers)@.wf(),
        old(buffers)@.registers(
            OwnedBufferDirection::Write,
            start,
            len,
            owner,
            match r {
                Ok(x) => Ok(x@),
                Err(e) => Err(e),
            },
            final(buffers)@,
        ),
{
    match buffers.register(OwnedBufferDirection::Write, start, len, owner) {
        Ok(id) => Ok(OwnedWriteBufferRegistration { id }),
        Err(e) => Err(e),
    }
}

/// Uses a part of registered memory for one read. None for other memory, and
/// while a part of that memory is used.
pub fn claim_owned_read_buffer(buffers: &mut OwnedBuffers, start: usize, len: usize) -> (r: Option<
    OwnedReadBufferLease,
>)
    requires
        old(buffers)@.wf(),
    ensures
        final(buffers)@.wf(),
        old(buffers)@.claims(
            OwnedBufferDirection::Read,
            start,
            len,
            match r {
                Some(x) => Some(x@),
                None => None,
            },
            final(buffers)@,
        ),
{
    match buffers.claim(OwnedBufferDirection::Read, start, len) {
        Some((id, start, len)) => Some(OwnedReadBufferLease { inner: Box::new(Use { id, start, len }) }),
        None => None,
    }
}

/// Uses a part of registered memory for one write, in the same way.
pub fn claim_owned_write_buffer(buffers: &mut OwnedBuffers, start: usize, len: usize) -> (r: Option<
    OwnedWriteBufferLease,
>)
    requires
        old(buffers)@.wf(),
    ensures
        final(buffers)@.wf(),
        old(buffers)@.claims(
            OwnedBufferDirection::Write,
            start,
            len,
            match r {
                Some(x) => Some(x@),
                None => None,
            },
            final(buffers)@,
        ),
{
    match buffers.claim(OwnedBufferDirection::Write, start, len) {
        Some((id, start, len)) => Some(OwnedWriteBufferLease { inner: Box::new(Use { id, start, len }) }),
        None => None,
    }
}

/// While a request uses memory, giving the registration back does not let the
/// memory go; it goes when the request ends.
pub proof fn lemma_used_memory_stays(s: Buffers, i: int, r: Option<u64>, after: Buffers)
    requires
        s.wf(),
        0 <= i < s.ranges.len(),
        s.ranges[i].claimed,
        s.unregisters(s.ranges[i].id, r, after),
    ensures
        r is None,
        after.ranges.len() == s.ranges.len(),
        after.ranges[i].claimed,
        after.ranges[i].owner == s.ranges[i].owner,
        !after.ranges[i].registered,
{
    let id = s.ranges[i].id;
    assert forall|k: int| 0 <= k < s.ranges.len() && (#[trigger] s.ranges[k]).id == id implies k
        == i by {
        if k < i {
            assert(s.ranges[k].id != s.ranges[i].id);
        } else if i < k {
            assert(s.ranges[i].id != s.ranges[k].id);
        }
    }
    if !s.ranges[i].registered {
        assert(after == s);
    }
}

/// A part of memory lies in at most one registered memory: it does not matter
/// where one looks for it.
pub proof fn lemma_one_holds(s: Buffers, i: int, j: int, start: int, end: int)
    requires
        s.wf(),
        0 <= i < s.ranges.len(),
        0 <= j < s.ranges.len(),
        start < end,
        s.ranges[i].holds(start, end),
        s.ranges[j].holds(start, end),
    ensures
        i == j,
{
    if i != j {
        assert(!s.ranges[j].meets(s.ranges[i].start as int, s.ranges[i].end as int));
    }
}

/// Memory that is registered for one direction and not in use can be used in that
/// direction; it is then in use, and as long as it is, nobody else can use any
/// part of it.
pub proof fn lemma_use_is_exclusive(
    s: Buffers,
    direction: OwnedBufferDirection,
    start: usize,
    len: usize,
    r: Option<(u64, usize, usize)>,
    after: Buffers,
    other_direction: OwnedBufferDirection,
    other_start: usize,
    other_len: usize,
    other: Option<(u64, usize, usize)>,
    end: Buffers,
)
    requires
        s.wf(),
        s.claims(direction, start, len, r, after),
        r is Some,
        after.claims(other_direction, other_start, other_len, other, end),
        other_start < start + len,
        start < other_start + other_len,
    ensures
        other is None,
        end == after,
        exists|i: int|
            0 <= i < s.ranges.len() && (#[trigger] s.ranges[i]).id == (r->0).0
                && s.ranges[i].registered && !s.ranges[i].claimed && s.ranges[i].direction
                == direction && s.ranges[i].start <= start && start + len <= s.ranges[i].end
                && after.ranges[i].claimed && after.ranges[i].claim_start == start
                && after.ranges[i].claim_len == len,
{
    let i = choose|i: int|
        0 <= i < s.ranges.len() && #[trigger] s.free_at(i, direction, start as int, start + len)
            && (r->0).0 == s.ranges[i].id && after == (Buffers {
            ranges: s.ranges.update(
                i,
                OwnedBufferRange {
                    claimed: true,
                    claim_start: start,
                    claim_len: len,
                    ..s.ranges[i]
                },
            ),
            ..s
        });
    assert(s.ranges[i].id == (r->0).0);
    if other is Some {
        let lo = other_start as int;
        let hi = other_start + other_len;
        let j = choose|j: int|
            0 <= j < after.ranges.len() && #[trigger] after.free_at(j, other_direction, lo, hi)
                && (other->0).0 == after.ranges[j].id;
        assert(j != i);
        assert(after.ranges[j] == s.ranges[j]);
        assert(!s.ranges[j].meets(s.ranges[i].start as int, s.ranges[i].end as int));
    }
}

/// Memory that shares a byte with registered memory cannot be registered again.
pub proof fn lemma_registered_memory_is_taken(
    s: Buffers,
    direction: OwnedBufferDirection,
    start: usize,
    len: usize,
    owner: u64,
    r: DevResult<u64>,
    after: Buffers,
    i: int,
)
    requires
        s.registers(direction, start, len, owner, r, after),
        0 <= i < s.ranges.len(),
        s.ranges[i].registered,
        len > 0,
        start + len <= usize::MAX,
        start < s.ranges[i].end,
        s.ranges[i].start < start + len,
    ensures
        r == Err::<u64, DevError>(DevError::ResourceBusy),
        after == s,
{
    assert(s.ranges[i].meets(start as int, start + len));
}

/// What keeps memory alive is handed back when the memory is neither registered
/// nor in use any more, and not before.
pub proof fn lemma_owner_is_let_go_last(s: Buffers, i: int, r: Option<u64>, after: Buffers)
    requires
        s.wf(),
        0 <= i < s.ranges.len(),
        s.ranges[i].claimed,
        s.releases(s.ranges[i].id, r, after),
    ensures
        s.ranges[i].registered ==> r is None && after.ranges.len() == s.ranges.len()
            && !after.ranges[i].claimed && after.ranges[i].registered,
        !s.ranges[i].registered ==> r == Some(s.ranges[i].owner) && after.ranges.len()
            == s.ranges.len() - 1,
{
    let id = s.ranges[i].id;
    assert forall|k: int| 0 <= k < s.ranges.len() && (#[trigger] s.ranges[k]).id == id implies k
        == i by {
        if k < i {
            assert(s.ranges[k].id != s.ranges[i].id);
        } else if i < k {
            assert(s.ranges[i].id != s.ranges[k].id);
        }
    }
    assert(s.ranges[i].id == id && s.ranges[i].claimed);
    let k = choose|k: int|
        0 <= k < s.ranges.len() && (#[trigger] s.ranges[k]).id == id && s.ranges[k].claimed
            && after == s.settled(k, OwnedBufferRange { claimed: false, ..s.ranges[k] }) && r
            == Buffers::let_go(OwnedBufferRange { claimed: false, ..s.ranges[k] });
    assert(k == i);
}

} // verus!
