//! Polling for input and output.
use vstd::prelude::*;

use crate::error::{AxError, AxResult};

verus! {

/// How an attempt at input or output goes on.
pub enum PollStep<T> {
    Ready(AxResult<T>),
    /// The task registers for events, and tries again.
    Register,
}

/// After the first attempt: what would block is tried again, unless the caller
/// does not want to wait.
pub fn poll_io<T>(attempt: AxResult<T>, non_blocking: bool) -> (r: PollStep<T>)
    ensures
        match attempt {
            Err(AxError::WouldBlock) if !non_blocking => r is Register,
            _ => r == PollStep::Ready(attempt),
        },
{
    match attempt {
        Ok(value) => PollStep::Ready(Ok(value)),
        Err(e) => {
            if e == AxError::WouldBlock && !non_blocking {
                PollStep::Register
            } else {
                PollStep::Ready(Err(e))
            }
        },
    }
}

/// After the attempt that follows registering: what would still block waits for
/// an event.
pub fn poll_io_again<T>(attempt: AxResult<T>) -> (r: Option<AxResult<T>>)
    ensures
        r == match attempt {
            Err(AxError::WouldBlock) => None,
            _ => Some(attempt),
        },
{
    match attempt {
        Ok(value) => Some(Ok(value)),
        Err(e) => {
            if e == AxError::WouldBlock {
                None
            } else {
                Some(Err(e))
            }
        },
    }
}

/// The wakers of an interrupt line.
#[derive(Clone, Copy, Debug, PartialEq, Eq, Structural)]
pub struct IrqPollState {
    pub irq: usize,
    /// Whether the line was raised since its wakers were woken.
    pub pending: bool,
    /// The wakers.
    pub poll: u64,
}

/// The interrupt lines with wakers, by their numbers. Interrupts only mark
/// lines; a task of its own wakes the wakers.
pub struct IrqWakers {
    states: Vec<IrqPollState>,
    drain_spawned: bool,
}

/// The first line from the `i`-th on whose number is not below `irq`.
pub open spec fn line_place(states: Seq<IrqPollState>, irq: usize, i: int) -> int
    decreases states.len() - i,
{
    if i < 0 || i >= states.len() {
        states.len() as int
    } else if states[i].irq < irq {
        line_place(states, irq, i + 1)
    } else {
        i
    }
}

/// Whether a line has wakers.
pub open spec fn is_registered(states: Seq<IrqPollState>, irq: usize) -> bool {
    line_place(states, irq, 0) < states.len() && states[line_place(states, irq, 0)].irq == irq
}

/// The wakers of the lines that are marked, from the `i`-th on.
pub open spec fn pending_polls(states: Seq<IrqPollState>, i: int) -> Seq<u64>
    decreases states.len() - i,
{
    if i < 0 || i >= states.len() {
        Seq::empty()
    } else if states[i].pending {
        seq![states[i].poll] + pending_polls(states, i + 1)
    } else {
        pending_polls(states, i + 1)
    }
}

/// The lines with no marks.
pub open spec fn unmarked(states: Seq<IrqPollState>) -> Seq<IrqPollState> {
    states.map_values(|s: IrqPollState| IrqPollState { pending: false, ..s })
}

/// Lines in the order of their numbers.
pub open spec fn in_order(states: Seq<IrqPollState>) -> bool {
    forall|i: int, j: int|
        0 <= i < j < states.len() ==> (#[trigger] states[i]).irq < (#[trigger] states[j]).irq
}

proof fn lemma_line_place(states: Seq<IrqPollState>, irq: usize, i: int)
    requires
        0 <= i <= states.len(),
    ensures
        i <= line_place(states, irq, i) <= states.len(),
        forall|k: int| i <= k < line_place(states, irq, i) ==> (#[trigger] states[k]).irq < irq,
        line_place(states, irq, i) < states.len() ==> states[line_place(states, irq, i)].irq >= irq,
    decreases states.len() - i,
{
    if i < states.len() && states[i].irq < irq {
        lemma_line_place(states, irq, i + 1);
    }
}

impl IrqWakers {
    pub closed spec fn view(&self) -> Seq<IrqPollState> {
        self.states@
    }

    pub closed spec fn spawned(&self) -> bool {
        self.drain_spawned
    }

    pub open spec fn wf(&self) -> bool {
        in_order(self@)
    }

    pub fn new() -> (r: Self)
        ensures
            r.wf(),
            r@ == Seq::<IrqPollState>::empty(),
            !r.spawned(),
    {
        IrqWakers { states: Vec::new(), drain_spawned: false }
    }

    fn find_place(&self, irq: usize) -> (r: usize)
        ensures
            r == line_place(self@, irq, 0),
            r <= self@.len(),
    {
        let mut i: usize = 0;
        while i < self.states.len()
            invariant_except_break
                i <= self@.len(),
                line_place(self@, irq, 0) == line_place(self@, irq, i as int),
            ensures
                i <= self@.len(),
                i == line_place(self@, irq, 0),
            decreases self@.len() - i,
        {
            if self.states[i].irq >= irq {
                break;
            }
            i = i + 1;
        }
        i
    }

    /// A line is raised: it is marked, and where it has wakers the task that
    /// wakes them is notified.
    pub fn irq_hook(&mut self, irq: usize) -> (notify: bool)
        requires
            old(self).wf(),
        ensures
            final(self).wf(),
            final(self).spawned() == old(self).spawned(),
            notify == is_registered(old(self)@, irq),
            final(self)@ == if notify {
                old(self)@.update(
                    line_place(old(self)@, irq, 0),
                    IrqPollState {
                        pending: true,
                        ..old(self)@[line_place(old(self)@, irq, 0)]
                    },
                )
            } else {
                old(self)@
            },
    {
        let p: usize = self.find_place(irq);
        if p < self.states.len() && self.states[p].irq == irq {
            let s: IrqPollState = self.states[p];
            self.states.set(p, IrqPollState { irq: s.irq, pending: true, poll: s.poll });
            true
        } else {
            false
        }
    }

    /// Tells whether the task that wakes wakers is to be started: once.
    pub fn ensure_drain_task(&mut self) -> (spawn: bool)
        ensures
            spawn == !old(self).spawned(),
            final(self).spawned(),
            final(self)@ == old(self)@,
    {
        if self.drain_spawned {
            false
        } else {
            self.drain_spawned = true;
            true
        }
    }

    /// Whether a line is marked.
    pub fn any_pending(&self) -> (r: bool)
        ensures
            r == exists|i: int| 0 <= i < self@.len() && (#[trigger] self@[i]).pending,
    {
        let mut i: usize = 0;
        while i < self.states.len()
            invariant
                i <= self@.len(),
                forall|k: int| 0 <= k < i ==> !(#[trigger] self@[k]).pending,
            decreases self@.len() - i,
        {
            if self.states[i].pending {
                assert(self@[i as int].pending);
                return true;
            }
            i = i + 1;
        }
        false
    }

    /// Takes the marks away and hands out the wakers of the lines that had one,
    /// in the order of the lines.
    pub fn drain(&mut self) -> (r: Vec<u64>)
        requires
            old(self).wf(),
        ensures
            final(self).wf(),
            final(self).spawned() == old(self).spawned(),
            r@ == pending_polls(old(self)@, 0),
            final(self)@ == unmarked(old(self)@),
    {
        let ghost s = self@;
        let mut polls: Vec<u64> = Vec::new();
        let mut i: usize = 0;
        assert(polls@ + pending_polls(s, 0) =~= pending_polls(s, 0));
        while i < self.states.len()
            invariant
                i <= s.len(),
                self.states@.len() == s.len(),
                self.drain_spawned == old(self).spawned(),
                forall|k: int|
                    0 <= k < i ==> self.states@[k] == (IrqPollState {
                        pending: false,
                        ..#[trigger] s[k]
                    }),
                forall|k: int| i <= k < s.len() ==> self.states@[k] == #[trigger] s[k],
                polls@ + pending_polls(s, i as int) == pending_polls(s, 0),
            decreases s.len() - i,
        {
            let ghost before = polls@;
            let st: IrqPollState = self.states[i];
            assert(st == s[i as int]);
            if st.pending {
                polls.push(st.poll);
                assert(polls@ + pending_polls(s, i + 1) =~= before + (seq![st.poll]
                    + pending_polls(s, i + 1)));
                self.states.set(i, IrqPollState { irq: st.irq, pending: false, poll: st.poll });
            }
            i = i + 1;
        }
        assert(polls@ + pending_polls(s, s.len() as int) =~= polls@);
        assert(self@ =~= unmarked(s));
        proof {
            assert forall|a: int, b: int| 0 <= a < b < self@.len() implies (
            #[trigger] self@[a]).irq < (#[trigger] self@[b]).irq by {
                assert(s[a].irq < s[b].irq);
            }
        }
        polls
    }

    /// The wakers of a line, and whether the line has none yet: then it gets
    /// `fresh`, and its handler is installed.
    pub fn register_irq_waker(&mut self, irq: usize, fresh: u64) -> (r: (u64, bool))
        requires
            old(self).wf(),
        ensures
            final(self).wf(),
            final(self).spawned() == old(self).spawned(),
            ({
                let p = line_place(old(self)@, irq, 0);
                if is_registered(old(self)@, irq) {
                    r == (old(self)@[p].poll, false) && final(self)@ == old(self)@
                } else {
                    &&& r == (fresh, true)
                    &&& final(self)@ == old(self)@.insert(
                        p,
                        IrqPollState { irq, pending: false, poll: fresh },
                    )
                }
            }),
    {
        let p: usize = self.find_place(irq);
        if p < self.states.len() && self.states[p].irq == irq {
            return (self.states[p].poll, false);
        }
        let ghost s = self@;
        self.states.insert(p, IrqPollState { irq, pending: false, poll: fresh });
        proof {
            lemma_line_place(s, irq, 0);
            let v = self@;
            assert forall|a: int, b: int| 0 <= a < b < v.len() implies (#[trigger] v[a]).irq < (
            #[trigger] v[b]).irq by {
                let i = if a < p {
                    a
                } else {
                    a - 1
                };
                let j = if b < p {
                    b
                } else {
                    b - 1
                };
                if a != p && b != p {
                    assert(s[i].irq < s[j].irq);
                } else if a == p {
                    assert(s[p as int].irq > irq);
                    if j > p {
                        assert(s[p as int].irq < s[j].irq);
                    }
                } else {
                    assert(s[i].irq < irq);
                }
            }
        }
        (fresh, true)
    }
}

/// After the wakers were handed out, none are left to hand out until a line is
/// raised again.
pub proof fn lemma_drained(states: Seq<IrqPollState>, i: int)
    requires
        0 <= i <= states.len(),
    ensures
        pending_polls(unmarked(states), i) == Seq::<u64>::empty(),
    decreases states.len() - i,
{
    if i < states.len() {
        lemma_drained(states, i + 1);
    }
}

/// Every line that is marked has its wakers polled, and no other has.
pub proof fn lemma_marked_lines_are_polled(states: Seq<IrqPollState>, i: int, k: int)
    requires
        0 <= i <= k < states.len(),
    ensures
        states[k].pending ==> pending_polls(states, i).contains(states[k].poll),
        !unmarked(states)[k].pending,
        unmarked(states)[k].irq == states[k].irq,
        unmarked(states)[k].poll == states[k].poll,
        (forall|j: int| i <= j < states.len() ==> !(#[trigger] states[j]).pending) ==> pending_polls(
            states,
            i,
        ).len() == 0,
    decreases states.len() - i,
{
    let all = pending_polls(states, i);
    let rest = pending_polls(states, i + 1);
    if i < k {
        lemma_marked_lines_are_polled(states, i + 1, k);
        if states[k].pending {
            let j = choose|j: int| 0 <= j < rest.len() && rest[j] == states[k].poll;
            if states[i].pending {
                assert(all[j + 1] == rest[j]);
            }
        }
    } else {
        if states[k].pending {
            assert(all[0] == states[k].poll);
        }
        if i + 1 < states.len() {
            lemma_marked_lines_are_polled(states, i + 1, i + 1);
        }
    }
}

} // verus!
