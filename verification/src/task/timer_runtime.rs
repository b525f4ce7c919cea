//! The timers of futures.
use vstd::prelude::*;

use crate::error::AxError;
use super::time::TimeValue;

verus! {

/// Names a timer: when it goes off, and which of those at that time it is.
#[derive(Clone, Copy, Debug, PartialEq, Eq, Structural)]
pub struct TimerKey {
    pub deadline: TimeValue,
    pub key: u64,
}

impl TimerKey {
    /// The order of timers.
    pub open spec fn before(self, other: TimerKey) -> bool {
        self.deadline.nanos() < other.deadline.nanos() || (self.deadline.nanos()
            == other.deadline.nanos() && self.key < other.key)
    }

    fn is_before(&self, other: &TimerKey) -> (r: bool)
        requires
            self.deadline.wf(),
            other.deadline.wf(),
        ensures
            r == self.before(*other),
    {
        if self.deadline.earlier(&other.deadline) {
            true
        } else if other.deadline.earlier(&self.deadline) {
            false
        } else {
            self.key < other.key
        }
    }
}

/// A timer and the waker that it wakes.
#[derive(Clone, Copy, Debug, PartialEq, Eq, Structural)]
pub struct TimerEntry {
    pub key: TimerKey,
    pub waker: u64,
}

/// The waker that wakes nobody.
pub const NOOP_WAKER: u64 = 0;

/// The timers that have not gone off, in order.
pub struct TimerRuntime {
    key: u64,
    wheel: Vec<TimerEntry>,
}

/// The first entry from the `i`-th on that is not before `key`; the length where
/// there is none.
pub open spec fn place(wheel: Seq<TimerEntry>, key: TimerKey, i: int) -> int
    decreases wheel.len() - i,
{
    if i < 0 || i >= wheel.len() {
        wheel.len() as int
    } else if wheel[i].key.before(key) {
        place(wheel, key, i + 1)
    } else {
        i
    }
}

/// Whether a timer is there.
pub open spec fn is_set(wheel: Seq<TimerEntry>, key: TimerKey) -> bool {
    place(wheel, key, 0) < wheel.len() && wheel[place(wheel, key, 0)].key == key
}

/// The wakers of some timers.
pub open spec fn wakers(wheel: Seq<TimerEntry>) -> Seq<u64> {
    wheel.map_values(|e: TimerEntry| e.waker)
}

proof fn lemma_place(wheel: Seq<TimerEntry>, key: TimerKey, i: int)
    requires
        0 <= i <= wheel.len(),
    ensures
        i <= place(wheel, key, i) <= wheel.len(),
        forall|k: int| i <= k < place(wheel, key, i) ==> (#[trigger] wheel[k]).key.before(key),
        place(wheel, key, i) < wheel.len() ==> !wheel[place(wheel, key, i)].key.before(key),
    decreases wheel.len() - i,
{
    if i < wheel.len() && wheel[i].key.before(key) {
        lemma_place(wheel, key, i + 1);
    }
}

impl TimerRuntime {
    pub closed spec fn view(&self) -> Seq<TimerEntry> {
        self.wheel@
    }

    /// How many timers there have been.
    pub closed spec fn next_key(&self) -> u64 {
        self.key
    }

    /// The timers are in order, and each has a number of its own.
    pub open spec fn wf(&self) -> bool {
        &&& forall|i: int|
            0 <= i < self@.len() ==> (#[trigger] self@[i]).key.key < self.next_key()
                && self@[i].key.deadline.wf()
        &&& forall|i: int, j: int|
            0 <= i < j < self@.len() ==> (#[trigger] self@[i]).key.before((#[trigger] self@[j]).key)
    }

    pub fn new() -> (r: Self)
        ensures
            r.wf(),
            r@ == Seq::<TimerEntry>::empty(),
            r.next_key() == 0,
    {
        TimerRuntime { key: 0, wheel: Vec::new() }
    }

    fn find_place(&self, key: &TimerKey) -> (r: usize)
        requires
            self.wf(),
            key.deadline.wf(),
        ensures
            r == place(self@, *key, 0),
            r <= self@.len(),
    {
        let mut i: usize = 0;
        while i < self.wheel.len()
            invariant_except_break
                i <= self@.len(),
                self.wf(),
                key.deadline.wf(),
                place(self@, *key, 0) == place(self@, *key, i as int),
            ensures
                i <= self@.len(),
                i == place(self@, *key, 0),
            decreases self@.len() - i,
        {
            assert(self@[i as int].key.deadline.wf());
            if !self.wheel[i].key.is_before(key) {
                break;
            }
            i = i + 1;
        }
        i
    }

    /// Sets a timer, unless its time has come. It wakes nobody until it is
    /// polled.
    pub fn add(&mut self, deadline: TimeValue, now: TimeValue) -> (r: Option<TimerKey>)
        requires
            old(self).wf(),
            deadline.wf(),
            now.wf(),
            old(self).next_key() < u64::MAX,
        ensures
            final(self).wf(),
            if deadline.nanos() <= now.nanos() {
                r is None && final(self)@ == old(self)@ && final(self).next_key() == old(
                    self,
                ).next_key()
            } else {
                let key = TimerKey { deadline, key: old(self).next_key() };
                &&& r == Some(key)
                &&& final(self).next_key() == old(self).next_key() + 1
                &&& final(self)@ == old(self)@.insert(
                    place(old(self)@, key, 0),
                    TimerEntry { key, waker: NOOP_WAKER },
                )
            },
    {
        if !now.earlier(&deadline) {
            return None;
        }
        let key: TimerKey = TimerKey { deadline, key: self.key };
        let p: usize = self.find_place(&key);
        let ghost w = self@;
        self.wheel.insert(p, TimerEntry { key, waker: NOOP_WAKER });
        self.key = self.key + 1;
        proof {
            lemma_place(w, key, 0);
            let v = self@;
            assert(v == w.insert(p as int, TimerEntry { key, waker: NOOP_WAKER }));
            assert forall|i: int| 0 <= i < v.len() implies (#[trigger] v[i]).key.key
                < self.next_key() && v[i].key.deadline.wf() by {
                if i < p {
                    assert(v[i] == w[i]);
                } else if i > p {
                    assert(v[i] == w[i - 1]);
                }
            }
            assert forall|i: int, j: int| 0 <= i < j < v.len() implies (#[trigger] v[i]).key.before(
                (#[trigger] v[j]).key,
            ) by {
                let a = if i < p {
                    i
                } else {
                    i - 1
                };
                let b = if j < p {
                    j
                } else {
                    j - 1
                };
                if i != p && j != p {
                    assert(w[a].key.before(w[b].key));
                } else if i == p {
                    assert(w[b].key.key < key.key);
                    if b > p {
                        assert(w[p as int].key.before(w[b].key));
                    }
                } else {
                    assert(w[a].key.before(key));
                }
            }
        }
        Some(key)
    }

    /// Tells whether a timer has gone off; if not, it wakes `waker` from now on.
    pub fn poll(&mut self, key: &TimerKey, waker: u64) -> (ready: bool)
        requires
            old(self).wf(),
            key.deadline.wf(),
        ensures
            final(self).wf(),
            final(self).next_key() == old(self).next_key(),
            ready == !is_set(old(self)@, *key),
            final(self)@ == if ready {
                old(self)@
            } else {
                old(self)@.update(place(old(self)@, *key, 0), TimerEntry { key: *key, waker })
            },
    {
        let p: usize = self.find_place(key);
        if p < self.wheel.len() && self.wheel[p].key == *key {
            let ghost w = self@;
            self.wheel.set(p, TimerEntry { key: *key, waker });
            proof {
                let v = self@;
                assert forall|i: int| 0 <= i < v.len() implies (#[trigger] v[i]).key.key
                    < self.next_key() && v[i].key.deadline.wf() by {
                    assert(w[i].key == v[i].key);
                }
                assert forall|i: int, j: int| 0 <= i < j < v.len() implies (
                #[trigger] v[i]).key.before((#[trigger] v[j]).key) by {
                    assert(w[i].key.before(w[j].key));
                }
            }
            false
        } else {
            true
        }
    }

    /// Takes a timer away.
    pub fn cancel(&mut self, key: &TimerKey)
        requires
            old(self).wf(),
            key.deadline.wf(),
        ensures
            final(self).wf(),
            final(self).next_key() == old(self).next_key(),
            final(self)@ == if is_set(old(self)@, *key) {
                old(self)@.remove(place(old(self)@, *key, 0))
            } else {
                old(self)@
            },
    {
        let p: usize = self.find_place(key);
        if p < self.wheel.len() && self.wheel[p].key == *key {
            let ghost w = self@;
            let _ = self.wheel.remove(p);
            proof {
                let v = self@;
                assert forall|i: int| 0 <= i < v.len() implies (#[trigger] v[i]).key.key
                    < self.next_key() && v[i].key.deadline.wf() by {
                    assert(v[i] == if i < p {
                        w[i]
                    } else {
                        w[i + 1]
                    });
                }
                assert forall|i: int, j: int| 0 <= i < j < v.len() implies (
                #[trigger] v[i]).key.before((#[trigger] v[j]).key) by {
                    let a = if i < p {
                        i
                    } else {
                        i + 1
                    };
                    let b = if j < p {
                        j
                    } else {
                        j + 1
                    };
                    assert(w[a].key.before(w[b].key));
                }
            }
        }
    }

    /// When the next timer goes off.
    pub fn next_deadline(&self) -> (r: Option<TimeValue>)
        ensures
            r == if self@.len() > 0 {
                Some(self@[0].key.deadline)
            } else {
                None
            },
    {
        if self.wheel.len() > 0 {
            Some(self.wheel[0].key.deadline)
        } else {
            None
        }
    }

    /// Takes the timers away whose time has come. Their wakers are handed out
    /// and not woken here: whoever is woken may set timers.
    pub fn drain_expired(&mut self, now: TimeValue) -> (r: Vec<u64>)
        requires
            old(self).wf(),
            now.wf(),
        ensures
            final(self).wf(),
            final(self).next_key() == old(self).next_key(),
            ({
                let p = place(old(self)@, TimerKey { deadline: now, key: u64::MAX }, 0);
                &&& r@ == wakers(old(self)@.take(p))
                &&& final(self)@ == old(self)@.skip(p)
            }),
    {
        let end: TimerKey = TimerKey { deadline: now, key: u64::MAX };
        let p: usize = self.find_place(&end);
        let ghost w = self@;
        let pending: Vec<TimerEntry> = self.wheel.split_off(p);
        let mut expired: Vec<u64> = Vec::new();
        let mut i: usize = 0;
        while i < p
            invariant
                i <= p <= w.len(),
                self.wheel@ == w.take(p as int),
                expired@.len() == i,
                forall|k: int| 0 <= k < i ==> expired@[k] == (#[trigger] w[k]).waker,
            decreases p - i,
        {
            expired.push(self.wheel[i].waker);
            i = i + 1;
        }
        assert(expired@ =~= wakers(w.take(p as int)));
        self.wheel = pending;
        proof {
            let v = self@;
            assert(v =~= w.skip(p as int));
            assert forall|i: int| 0 <= i < v.len() implies (#[trigger] v[i]).key.key
                < self.next_key() && v[i].key.deadline.wf() by {
                assert(v[i] == w[i + p]);
            }
            assert forall|i: int, j: int| 0 <= i < j < v.len() implies (#[trigger] v[i]).key.before(
                (#[trigger] v[j]).key,
            ) by {
                assert(w[i + p].key.before(w[j + p].key));
            }
        }
        expired
    }
}

/// The timers that are drained are those whose time has come, and all of them.
pub proof fn lemma_drain_splits_by_time(r: TimerRuntime, now: TimeValue, i: int)
    requires
        r.wf(),
        0 <= i < r@.len(),
    ensures
        i < place(r@, TimerKey { deadline: now, key: u64::MAX }, 0) <==> r@[i].key.deadline.nanos()
            <= now.nanos(),
{
    let end = TimerKey { deadline: now, key: u64::MAX };
    lemma_place(r@, end, 0);
    let p = place(r@, end, 0);
    assert(r@[i].key.key < r.next_key());
    if i >= p {
        assert(r@[p].key.key < r.next_key());
        if i > p {
            assert(r@[p].key.before(r@[i].key));
        }
    }
}

/// A timer that was set is there.
pub proof fn lemma_timer_is_set(r: TimerRuntime, key: TimerKey)
    requires
        r.wf(),
        key.key == r.next_key(),
    ensures
        is_set(
            r@.insert(place(r@, key, 0), TimerEntry { key, waker: NOOP_WAKER }),
            key,
        ),
{
    let p = place(r@, key, 0);
    let e = TimerEntry { key, waker: NOOP_WAKER };
    lemma_place(r@, key, 0);
    let v = r@.insert(p, e);
    lemma_place(v, key, 0);
    let q = place(v, key, 0);
    if q < p {
        assert(v[q] == r@[q]);
        assert(r@[q].key.before(key));
    }
    if q > p {
        assert(v[p].key.before(key));
    }
}

/// The time of a future ran out.
#[derive(Clone, Copy, Debug, PartialEq, Eq, Structural)]
pub struct Elapsed;

impl Elapsed {
    pub fn to_ax_error(self) -> (r: AxError)
        ensures
            r == AxError::TimedOut,
    {
        AxError::TimedOut
    }
}

/// When a future that may take a while has to be ready; never, where the time
/// does not fit.
pub fn timeout(duration: Option<TimeValue>, now: TimeValue) -> (r: Option<TimeValue>)
    requires
        now.wf(),
        duration matches Some(d) ==> d.wf(),
    ensures
        match duration {
            None => r is None,
            Some(d) => match r {
                Some(t) => t.wf() && t.nanos() == d.nanos() + now.nanos(),
                None => !TimeValue::fits(d.nanos() + now.nanos()),
            },
        },
{
    match duration {
        None => None,
        Some(d) => d.checked_add(&now),
    }
}

/// How a future with a deadline goes on after both it and the timer were
/// polled: the future counts first.
pub fn timeout_at<T>(output: Option<T>, elapsed: bool) -> (r: Option<Result<T, Elapsed>>)
    ensures
        r == match output {
            Some(x) => Some(Ok::<T, Elapsed>(x)),
            None => if elapsed {
                Some(Err(Elapsed))
            } else {
                None
            },
        },
{
    match output {
        Some(x) => Some(Ok(x)),
        None => if elapsed {
            Some(Err(Elapsed))
        } else {
            None
        },
    }
}

} // verus!
