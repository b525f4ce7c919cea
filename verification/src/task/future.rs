//! Futures that run on tasks.
use vstd::prelude::*;

use crate::error::AxError;
use super::context::{WaitContext, WaitReason};
use super::state::{AxTaskRef, TaskInner, next_count};
use super::wait_queue::{
    WaitQueue,
    WakerEntry,
    WakerRegistration,
    Waiters,
    first_with_id,
    replaced,
    without_id,
};

verus! {

/// Wakes the task that runs a future.
#[derive(Clone, Copy, Debug, PartialEq, Eq, Structural)]
pub struct AxWaker {
    pub task: AxTaskRef,
    /// Whether the task still runs the future.
    pub active: bool,
    /// Whether the task was woken since the future was last polled.
    pub woke: bool,
}

impl AxWaker {
    pub fn new(task: AxTaskRef) -> (r: Self)
        ensures
            r == (AxWaker { task, active: true, woke: false }),
    {
        AxWaker { task, active: true, woke: false }
    }

    pub fn task(&self) -> (r: AxTaskRef)
        ensures
            r == self.task,
    {
        self.task
    }

    /// Whoever still holds the waker wakes nobody from now on.
    pub fn deactivate(&mut self)
        ensures
            *final(self) == (AxWaker { active: false, ..*old(self) }),
    {
        self.active = false;
    }

    /// Tells whether the task goes to a run queue; `alive` is whether there
    /// still is such a task.
    pub fn wake_by_ref(&mut self, alive: bool) -> (r: bool)
        ensures
            r == (alive && old(self).active),
            *final(self) == if r {
                AxWaker { woke: true, ..*old(self) }
            } else {
                *old(self)
            },
    {
        if !alive || !self.active {
            return false;
        }
        self.woke = true;
        true
    }
}

/// Says what the next suspension of the current task is for, if there is a
/// current task.
pub fn set_current_wait_context(
    current: Option<AxTaskRef>,
    tasks: &mut Vec<TaskInner>,
    context: WaitContext,
)
    requires
        current matches Some(t) ==> t < old(tasks)@.len(),
    ensures
        final(tasks)@ == match current {
            Some(t) => old(tasks)@.update(
                t as int,
                TaskInner { pending_wait_context: Some(context), ..old(tasks)@[t as int] },
            ),
            None => old(tasks)@,
        },
{
    if let Some(t) = current {
        tasks[t].set_qperf_pending_wait_context(context);
    }
}

/// What a task does whose future is not ready.
#[derive(Clone, Copy, Debug, PartialEq, Eq, Structural)]
pub enum BlockOnStep {
    /// It was woken meanwhile and polls again.
    PollAgain,
    /// It blocks.
    Block { context: WaitContext },
}

/// Gets ready to poll a future: neither a wake nor a context is left over.
pub fn before_poll(waker: &mut AxWaker, task: &mut TaskInner)
    ensures
        *final(waker) == (AxWaker { woke: false, ..*old(waker) }),
        *final(task) == (TaskInner { pending_wait_context: None, ..*old(task) }),
{
    waker.woke = false;
    task.clear_qperf_pending_wait_context();
}

/// A future is not ready. The task blocks for what the future said it waits for,
/// or for the future at `address`, unless it was woken while it polled.
pub fn after_pending(waker: &AxWaker, task: &mut TaskInner, address: u64) -> (r: BlockOnStep)
    ensures
        *final(task) == (TaskInner { pending_wait_context: None, ..*old(task) }),
        r == if waker.woke {
            BlockOnStep::PollAgain
        } else {
            BlockOnStep::Block {
                context: match old(task).pending_wait_context {
                    Some(c) => c,
                    None => WaitContext {
                        reason: WaitReason::Future,
                        resource_id: address,
                        resource_detail: 0,
                    },
                },
            }
        },
{
    let context: WaitContext = match task.take_qperf_pending_wait_context() {
        Some(c) => c,
        None => WaitContext::new(WaitReason::Future, address, 0),
    };
    if waker.woke {
        BlockOnStep::PollAgain
    } else {
        BlockOnStep::Block { context }
    }
}

/// A task was interrupted while it ran an interruptible future.
#[derive(Clone, Copy, Debug, PartialEq, Eq, Structural)]
pub struct Interrupted;

impl Interrupted {
    pub fn to_ax_error(self) -> (r: AxError)
        ensures
            r == AxError::Interrupted,
    {
        AxError::Interrupted
    }
}

/// Whether a future is polled that an interruption ends: the task keeps the
/// waker, and an interruption comes first.
pub fn interruptible(task: &mut TaskInner, waker: u64) -> (r: Result<(), Interrupted>)
    ensures
        r == if old(task).interrupted {
            Err::<(), Interrupted>(Interrupted)
        } else {
            Ok(())
        },
        *final(task) == (TaskInner {
            interrupted: false,
            interrupt_waker: Some(waker),
            ..*old(task)
        }),
{
    if task.poll_interrupt(waker) {
        Err(Interrupted)
    } else {
        Ok(())
    }
}

/// Lets other tasks run once.
pub struct YieldNow(bool);

/// A future that is ready the second time it is polled.
pub fn yield_now() -> (r: YieldNow)
    ensures
        !r@,
{
    YieldNow(false)
}

impl YieldNow {
    /// Whether it was polled.
    pub closed spec fn view(&self) -> bool {
        self.0
    }

    /// Tells whether it is ready; if not, the task is woken at once.
    pub fn poll(&mut self) -> (ready: bool)
        ensures
            ready == old(self)@,
            final(self)@,
    {
        if self.0 {
            true
        } else {
            self.0 = true;
            false
        }
    }
}

/// Waits for a notification of a queue.
pub struct WaitFuture {
    polled: bool,
    registration: Option<WakerRegistration>,
}

/// What a [`WaitFuture`] is about: whether it was polled, and its registration
/// while it waits.
pub ghost struct Waiting {
    pub polled: bool,
    pub registration: Option<u64>,
}

/// What a first poll adds to the wakers of a queue.
pub open spec fn joined(
    w: Waiting,
    wakers: Seq<WakerEntry>,
    waker: u64,
    task_id: u64,
    counter: u64,
) -> Seq<WakerEntry> {
    if w.polled {
        wakers
    } else {
        wakers.push(WakerEntry { id: counter, task_id, waker })
    }
}

/// The registration of a future that is polled.
pub open spec fn registered(w: Waiting, counter: u64) -> Option<u64> {
    if w.polled {
        w.registration
    } else {
        Some(counter)
    }
}

impl WaitFuture {
    pub closed spec fn view(&self) -> Waiting {
        Waiting {
            polled: self.polled,
            registration: match self.registration {
                Some(r) => Some(r@),
                None => None,
            },
        }
    }

    pub fn new() -> (r: Self)
        ensures
            !r@.polled,
            r@.registration is None,
    {
        WaitFuture { polled: false, registration: None }
    }

    /// Polls the future: the first time it registers the waker, later it sees to
    /// it that the waker of the last poll is woken. `notified` is whether a
    /// notification took the registration. Tells whether the future is ready.
    pub fn poll(
        &mut self,
        wq: &mut WaitQueue,
        waker: u64,
        task_id: u64,
        counter: &mut u64,
        notified: bool,
    ) -> (ready: bool)
        ensures
            ready == notified,
            *final(counter) == if old(self)@.polled {
                *old(counter)
            } else {
                next_count(*old(counter))
            },
            ({
                let w = joined(old(self)@, old(wq)@.wakers, waker, task_id, *old(counter));
                match registered(old(self)@, *old(counter)) {
                    None => {
                        &&& final(self)@ == (Waiting { polled: true, registration: None })
                        &&& final(wq)@ == old(wq)@
                    },
                    Some(id) => {
                        let v = replaced(w, first_with_id(w, id, 0), waker);
                        &&& final(self)@ == (Waiting {
                            polled: true,
                            registration: if notified {
                                None
                            } else {
                                Some(id)
                            },
                        })
                        &&& final(wq)@ == (Waiters {
                            wakers: if notified {
                                without_id(v, id)
                            } else {
                                v
                            },
                            ..old(wq)@
                        })
                    },
                }
            }),
    {
        if !self.polled {
            self.registration = Some(wq.register_owned_waker(waker, task_id, counter));
            self.polled = true;
        }
        match &self.registration {
            Some(r) => {
                wq.update_registered_waker(r, waker);
            },
            None => {},
        }
        if notified {
            self.cancel(wq);
            true
        } else {
            false
        }
    }

    /// Takes the registration out of the queue, as when the future is dropped.
    pub fn cancel(&mut self, wq: &mut WaitQueue)
        ensures
            final(self)@ == (Waiting { registration: None, ..old(self)@ }),
            final(wq)@ == match old(self)@.registration {
                Some(id) => Waiters { wakers: without_id(old(wq)@.wakers, id), ..old(wq)@ },
                None => old(wq)@,
            },
    {
        match self.registration.take() {
            Some(r) => {
                wq.unregister_waker(r);
            },
            None => {},
        }
    }
}

/// Once deactivated, a waker never wakes its task again, and a wake during a
/// poll is not lost.
pub proof fn lemma_wake_is_seen_or_too_late(before: AxWaker, after: AxWaker, alive: bool)
    requires
        after == if alive && before.active {
            AxWaker { woke: true, ..before }
        } else {
            before
        },
    ensures
        !before.active ==> after == before,
        alive && before.active ==> after.woke,
{
}

/// A future that is dropped leaves no waker behind.
pub proof fn lemma_dropped_future_is_gone(wakers: Seq<WakerEntry>, id: u64)
    ensures
        first_with_id(without_id(wakers, id), id, 0) == without_id(wakers, id).len(),
{
    lemma_without_id(wakers, id);
    lemma_nowhere(without_id(wakers, id), id, 0);
}

proof fn lemma_without_id(wakers: Seq<WakerEntry>, id: u64)
    ensures
        forall|k: int|
            0 <= k < without_id(wakers, id).len() ==> (#[trigger] without_id(wakers, id)[k]).id
                != id,
    decreases wakers.len(),
{
    if wakers.len() > 0 {
        let v = without_id(wakers.drop_last(), id);
        lemma_without_id(wakers.drop_last(), id);
        assert forall|k: int| 0 <= k < without_id(wakers, id).len() implies (
        #[trigger] without_id(wakers, id)[k]).id != id by {
            if k < v.len() {
                assert(without_id(wakers, id)[k] == v[k]);
            }
        }
    }
}

proof fn lemma_nowhere(wakers: Seq<WakerEntry>, id: u64, i: int)
    requires
        0 <= i <= wakers.len(),
        forall|k: int| 0 <= k < wakers.len() ==> (#[trigger] wakers[k]).id != id,
    ensures
        first_with_id(wakers, id, i) == wakers.len(),
    decreases wakers.len() - i,
{
    if i < wakers.len() {
        lemma_nowhere(wakers, id, i + 1);
    }
}

} // verus!
