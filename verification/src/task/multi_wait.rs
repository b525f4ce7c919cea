//! Waiting until something happens, in one queue or in several.
use vstd::prelude::*;

use super::context::{WaitContext, WaitReason};
use super::state::{AxTaskRef, TaskInner, TaskState};
use super::wait_queue::{WaitQueue, Waiters, lemma_without, without};

verus! {

/// What a task does that waits with a deadline.
#[derive(Clone, Copy, Debug, PartialEq, Eq, Structural)]
pub enum WaitStep {
    /// It stops waiting; tells whether the time ran out.
    Done { timeout: bool },
    /// It blocks.
    Block,
}

/// The next step of a wait: the time counts before the condition.
pub fn wait_step(expired: bool, ready: bool) -> (r: WaitStep)
    ensures
        r == if expired {
            WaitStep::Done { timeout: true }
        } else if ready {
            WaitStep::Done { timeout: false }
        } else {
            WaitStep::Block
        },
{
    if expired {
        WaitStep::Done { timeout: true }
    } else if ready {
        WaitStep::Done { timeout: false }
    } else {
        WaitStep::Block
    }
}

/// A task wakes that waited for a notification or a deadline: it leaves the
/// queue, and where it was still in it the time ran out.
pub fn end_timed_wait(wq: &mut WaitQueue, task: AxTaskRef, tasks: &mut Vec<TaskInner>) -> (timeout:
    bool)
    requires
        task < old(tasks)@.len(),
    ensures
        timeout == old(wq)@.queue.contains(task),
        final(wq)@ == (Waiters { queue: without(old(wq)@.queue, task), ..old(wq)@ }),
        final(tasks)@ == old(tasks)@.update(
            task as int,
            TaskInner {
                in_wait_queue: if timeout {
                    false
                } else {
                    old(tasks)@[task as int].in_wait_queue
                },
                timer_ticket_id: 0,
                ..old(tasks)@[task as int]
            },
        ),
{
    let timeout: bool = wq.lists(task);
    wq.cancel_events(task, tasks, true);
    timeout
}

pub open spec fn views(queues: Seq<WaitQueue>) -> Seq<Waiters> {
    queues.map_values(|q: WaitQueue| q@)
}

/// A queue with a task in it.
pub open spec fn with_task(w: Waiters, task: AxTaskRef) -> Waiters {
    Waiters {
        queue: if w.queue.contains(task) {
            w.queue
        } else {
            w.queue.push(task)
        },
        ..w
    }
}

/// A queue with a task out of it.
pub open spec fn without_task(w: Waiters, task: AxTaskRef) -> Waiters {
    Waiters { queue: without(w.queue, task), ..w }
}

/// The queues after a task entered some of them.
pub open spec fn enrolled(queues: Seq<Waiters>, ids: Seq<usize>, task: AxTaskRef) -> Seq<Waiters> {
    Seq::new(
        queues.len(),
        |q: int|
            if ids.contains(q as usize) {
                with_task(queues[q], task)
            } else {
                queues[q]
            },
    )
}

/// The queues after a task left some of them.
pub open spec fn abandoned(queues: Seq<Waiters>, ids: Seq<usize>, task: AxTaskRef) -> Seq<Waiters> {
    Seq::new(
        queues.len(),
        |q: int|
            if ids.contains(q as usize) {
                without_task(queues[q], task)
            } else {
                queues[q]
            },
    )
}

/// Whether all of `ids` are queues.
pub open spec fn are_queues(ids: Seq<usize>, n: nat) -> bool {
    forall|i: int| 0 <= i < ids.len() ==> (#[trigger] ids[i]) < n
}

/// The first of the queues from the `i`-th on that a task is not in.
pub open spec fn first_left(queues: Seq<Waiters>, ids: Seq<usize>, task: AxTaskRef, i: int) -> Option<
    int,
>
    decreases ids.len() - i,
{
    if i < 0 || i >= ids.len() {
        None
    } else if !queues[ids[i] as int].queue.contains(task) {
        Some(i)
    } else {
        first_left(queues, ids, task, i + 1)
    }
}

/// What a task does after it entered its queues.
#[derive(Clone, Copy, Debug, PartialEq, Eq, Structural)]
pub enum BlockStep {
    /// It stops waiting.
    Finish,
    /// It was woken before it blocked, and goes on.
    GoOn,
    /// It gives up its CPU.
    Resched,
}

/// A task that waits in several queues at once.
///
/// One round is: `first_check`, `second_check`, giving up the CPU where that is
/// the step, `after_block`. The first of them that ends the wait leads to
/// `finish`. Between them other tasks run, and notifiers take entries out of the
/// queues.
pub struct MultiWait {
    pub task: AxTaskRef,
    /// The queues that it waits in.
    pub ids: Vec<usize>,
    pub has_deadline: bool,
    /// What is told where no queue woke the task.
    pub timeout: bool,
    /// Which of its queues woke the task.
    pub woken_by: Option<usize>,
}

impl MultiWait {
    pub open spec fn wf(&self, queues: Seq<WaitQueue>, tasks: Seq<TaskInner>) -> bool {
        &&& self.task < tasks.len()
        &&& are_queues(self.ids@, queues.len())
    }

    /// Whether two waits differ only in what they found out.
    pub open spec fn same_wait(&self, other: MultiWait) -> bool {
        self.task == other.task && self.ids == other.ids && self.has_deadline == other.has_deadline
    }

    pub fn new(task: AxTaskRef, ids: Vec<usize>, has_deadline: bool) -> (r: Self)
        ensures
            r.task == task,
            r.ids == ids,
            r.has_deadline == has_deadline,
            r.timeout == has_deadline,
            r.woken_by is None,
    {
        MultiWait { task, ids, has_deadline, timeout: has_deadline, woken_by: None }
    }

    /// What the task waits for: the address of its first queue, and how many
    /// queues there are.
    pub fn wait_context(&self, first_address: u64) -> (r: WaitContext)
        ensures
            r.reason == WaitReason::MultiWait,
            r.resource_id == if self.ids@.len() > 0 {
                first_address
            } else {
                0
            },
            r.resource_detail == self.ids@.len() as u64,
    {
        let id: u64 = if self.ids.len() > 0 {
            first_address
        } else {
            0
        };
        WaitContext::new(WaitReason::MultiWait, id, self.ids.len() as u64)
    }

    /// Looks at the time and at the condition while the task still runs; if
    /// neither ends the wait, the task enters its queues. Tells whether the wait
    /// ends.
    pub fn first_check(
        &mut self,
        expired: bool,
        ready: bool,
        queues: &mut Vec<WaitQueue>,
        tasks: &mut Vec<TaskInner>,
    ) -> (done: bool)
        requires
            old(self).wf(old(queues)@, old(tasks)@),
        ensures
            final(self).wf(final(queues)@, final(tasks)@),
            final(self).same_wait(*old(self)),
            final(self).woken_by == old(self).woken_by,
            done == ((old(self).has_deadline && expired) || ready),
            final(self).timeout == if ready && !(old(self).has_deadline && expired) {
                false
            } else {
                old(self).timeout
            },
            done ==> final(queues)@ == old(queues)@ && final(tasks)@ == old(tasks)@,
            !done ==> {
                &&& views(final(queues)@) == enrolled(
                    views(old(queues)@),
                    old(self).ids@,
                    old(self).task,
                )
                &&& final(tasks)@ == old(tasks)@.update(
                    old(self).task as int,
                    TaskInner { in_wait_queue: true, ..old(tasks)@[old(self).task as int] },
                )
            },
    {
        if self.has_deadline && expired {
            return true;
        }
        if ready {
            self.timeout = false;
            return true;
        }
        let task: AxTaskRef = self.task;
        tasks[task].set_in_wait_queue(true);
        let ghost start = views(queues@);
        let ghost ids = self.ids@;
        let n: usize = queues.len();
        let mut i: usize = 0;
        assert(views(queues@) =~= enrolled(start, ids.take(0), task));
        while i < self.ids.len()
            invariant
                i <= self.ids@.len(),
                ids == self.ids@,
                self.task == task,
                are_queues(self.ids@, queues@.len()),
                queues@.len() == start.len(),
                queues@.len() == n,
                views(queues@) == enrolled(start, ids.take(i as int), task),
            decreases self.ids@.len() - i,
        {
            let q: usize = self.ids[i];
            let ghost before = queues@;
            assert(q < queues@.len());
            queues[q].enroll(task);
            proof {
                lemma_prefix_grows(ids, i as int);
                assert(views(before)[q as int] == before[q as int]@);
                assert(views(queues@)[q as int] == queues@[q as int]@);
                assert forall|k: int| 0 <= k < queues@.len() implies #[trigger] views(queues@)[k]
                    == enrolled(start, ids.take(i + 1), task)[k] by {
                    assert(views(before)[k] == enrolled(start, ids.take(i as int), task)[k]);
                    if k == q {
                        lemma_enter_twice(start[k], task);
                    } else {
                        assert(queues@[k] == before[k]);
                        assert(k as usize != q);
                    }
                }
                assert(views(queues@) =~= enrolled(start, ids.take(i + 1), task));
            }
            i = i + 1;
        }
        assert(ids.take(ids.len() as int) =~= ids);
        false
    }

    /// Looks at the condition again, now that notifiers see the task, and blocks
    /// the task if it does not hold. Where a notifier took an entry before the
    /// task blocked, the task goes on at once.
    pub fn second_check(&mut self, ready: bool, tasks: &mut Vec<TaskInner>) -> (r: BlockStep)
        requires
            old(self).task < old(tasks)@.len(),
        ensures
            final(self).same_wait(*old(self)),
            final(self).woken_by == old(self).woken_by,
            final(self).timeout == if ready {
                false
            } else {
                old(self).timeout
            },
            ({
                let t = old(tasks)@[old(self).task as int];
                &&& r == if ready {
                    BlockStep::Finish
                } else if t.in_wait_queue {
                    BlockStep::Resched
                } else {
                    BlockStep::GoOn
                }
                &&& final(tasks)@ == if ready {
                    old(tasks)@
                } else {
                    old(tasks)@.update(
                        old(self).task as int,
                        TaskInner {
                            state: if t.in_wait_queue {
                                TaskState::Blocked
                            } else {
                                TaskState::Running
                            },
                            ..t
                        },
                    )
                }
            }),
    {
        if ready {
            self.timeout = false;
            return BlockStep::Finish;
        }
        let task: AxTaskRef = self.task;
        tasks[task].set_state(TaskState::Blocked);
        if !tasks[task].in_wait_queue() && tasks[task].transition_state(
            TaskState::Blocked,
            TaskState::Running,
        ) {
            BlockStep::GoOn
        } else {
            BlockStep::Resched
        }
    }

    /// The task runs again: the first of its queues that it is no longer in woke
    /// it. Tells whether there is one.
    pub fn after_block(&mut self, queues: &Vec<WaitQueue>) -> (done: bool)
        requires
            are_queues(old(self).ids@, queues@.len()),
        ensures
            final(self).same_wait(*old(self)),
            final(self).timeout == old(self).timeout,
            match first_left(views(queues@), old(self).ids@, old(self).task, 0) {
                Some(i) => done && final(self).woken_by == Some(i as usize),
                None => !done && final(self).woken_by == old(self).woken_by,
            },
    {
        let ghost v = views(queues@);
        let mut i: usize = 0;
        while i < self.ids.len()
            invariant
                i <= self.ids@.len(),
                *self == *old(self),
                v == views(queues@),
                are_queues(self.ids@, queues@.len()),
                first_left(v, self.ids@, self.task, 0) == first_left(
                    v,
                    self.ids@,
                    self.task,
                    i as int,
                ),
            decreases self.ids@.len() - i,
        {
            let q: usize = self.ids[i];
            assert(q < queues@.len());
            assert(v[q as int] == queues@[q as int]@);
            if !queues[q].lists(self.task) {
                self.woken_by = Some(i);
                return true;
            }
            i = i + 1;
        }
        false
    }

    /// The wait ends: the task leaves its queues, and no timer of the wait wakes
    /// it any more. Tells which queue woke it, or else whether the time ran out.
    pub fn finish(self, queues: &mut Vec<WaitQueue>, tasks: &mut Vec<TaskInner>) -> (r: Result<
        usize,
        bool,
    >)
        requires
            self.wf(old(queues)@, old(tasks)@),
        ensures
            r == match self.woken_by {
                Some(i) => Ok::<usize, bool>(i),
                None => Err(self.timeout),
            },
            views(final(queues)@) == abandoned(views(old(queues)@), self.ids@, self.task),
            final(tasks)@ == old(tasks)@.update(
                self.task as int,
                TaskInner {
                    in_wait_queue: false,
                    timer_ticket_id: if self.has_deadline && self.ids@.len() > 0 {
                        0
                    } else {
                        old(tasks)@[self.task as int].timer_ticket_id
                    },
                    ..old(tasks)@[self.task as int]
                },
            ),
    {
        let task: AxTaskRef = self.task;
        let ghost start = views(queues@);
        let ghost ids = self.ids@;
        let ghost t0 = tasks@;
        let n: usize = queues.len();
        let mut i: usize = 0;
        assert(views(queues@) =~= abandoned(start, ids.take(0), task));
        assert(tasks@ =~= t0.update(task as int, t0[task as int]));
        while i < self.ids.len()
            invariant
                i <= self.ids@.len(),
                ids == self.ids@,
                self.task == task,
                are_queues(self.ids@, queues@.len()),
                queues@.len() == start.len(),
                queues@.len() == n,
                task < tasks@.len(),
                tasks@.len() == t0.len(),
                tasks@ == t0.update(
                    task as int,
                    TaskInner {
                        in_wait_queue: tasks@[task as int].in_wait_queue,
                        ..t0[task as int]
                    },
                ),
                views(queues@) == abandoned(start, ids.take(i as int), task),
            decreases self.ids@.len() - i,
        {
            let q: usize = self.ids[i];
            let ghost before = queues@;
            let ghost tb = tasks@;
            assert(q < queues@.len());
            queues[q].cancel_events(task, tasks, false);
            proof {
                lemma_prefix_grows(ids, i as int);
                assert(views(before)[q as int] == before[q as int]@);
                assert(views(queues@)[q as int] == queues@[q as int]@);
                assert forall|k: int| 0 <= k < queues@.len() implies #[trigger] views(queues@)[k]
                    == abandoned(start, ids.take(i + 1), task)[k] by {
                    assert(views(before)[k] == abandoned(start, ids.take(i as int), task)[k]);
                    if k == q {
                        lemma_leave_twice(start[k], task);
                    } else {
                        assert(queues@[k] == before[k]);
                        assert(k as usize != q);
                    }
                }
                assert(views(queues@) =~= abandoned(start, ids.take(i + 1), task));
                assert(tasks@ =~= t0.update(
                    task as int,
                    TaskInner {
                        in_wait_queue: tasks@[task as int].in_wait_queue,
                        ..t0[task as int]
                    },
                ));
            }
            i = i + 1;
        }
        assert(ids.take(ids.len() as int) =~= ids);
        tasks[task].set_in_wait_queue(false);
        if self.has_deadline && self.ids.len() > 0 {
            let q: usize = self.ids[0];
            let ghost before = queues@;
            assert(q < queues@.len());
            queues[q].cancel_events(task, tasks, true);
            proof {
                assert(ids.contains(ids[0]));
                assert(views(before)[q as int] == before[q as int]@);
                assert(views(queues@)[q as int] == queues@[q as int]@);
                assert forall|k: int| 0 <= k < queues@.len() implies #[trigger] views(queues@)[k]
                    == abandoned(start, ids, task)[k] by {
                    assert(views(before)[k] == abandoned(start, ids, task)[k]);
                    if k == q {
                        lemma_leave_twice(start[k], task);
                    } else {
                        assert(queues@[k] == before[k]);
                    }
                }
                assert(views(queues@) =~= abandoned(start, ids, task));
            }
        }
        assert(tasks@ =~= t0.update(
            task as int,
            TaskInner {
                in_wait_queue: false,
                timer_ticket_id: if self.has_deadline && ids.len() > 0 {
                    0
                } else {
                    t0[task as int].timer_ticket_id
                },
                ..t0[task as int]
            },
        ));
        match self.woken_by {
            Some(idx) => Ok(idx),
            None => Err(self.timeout),
        }
    }
}

proof fn lemma_prefix_grows(ids: Seq<usize>, i: int)
    requires
        0 <= i < ids.len(),
    ensures
        forall|x: usize| #[trigger]
            ids.take(i + 1).contains(x) <==> ids.take(i).contains(x) || x == ids[i],
{
    let a = ids.take(i);
    let b = ids.take(i + 1);
    assert forall|x: usize| #[trigger] b.contains(x) <==> a.contains(x) || x == ids[i] by {
        if b.contains(x) && x != ids[i] {
            let k = choose|k: int| 0 <= k < b.len() && b[k] == x;
            assert(a[k] == x);
        }
        if a.contains(x) {
            let k = choose|k: int| 0 <= k < a.len() && a[k] == x;
            assert(b[k] == x);
        }
        assert(b[i] == ids[i]);
    }
}

/// Entering a queue twice is entering it once.
pub proof fn lemma_enter_twice(w: Waiters, task: AxTaskRef)
    ensures
        with_task(w, task).queue.contains(task),
        with_task(with_task(w, task), task) == with_task(w, task),
{
    if !w.queue.contains(task) {
        assert(w.queue.push(task)[w.queue.len() as int] == task);
    }
}

/// Leaving a queue twice is leaving it once.
pub proof fn lemma_leave_twice(w: Waiters, task: AxTaskRef)
    ensures
        !without_task(w, task).queue.contains(task),
        without_task(without_task(w, task), task) == without_task(w, task),
{
    lemma_without(w.queue, task);
    lemma_without(without(w.queue, task), task);
}

/// A task that entered its queues is in all of them; one that left them is in
/// none.
pub proof fn lemma_in_all_or_none(
    queues: Seq<Waiters>,
    ids: Seq<usize>,
    task: AxTaskRef,
    i: int,
)
    requires
        are_queues(ids, queues.len()),
        0 <= i < ids.len(),
    ensures
        enrolled(queues, ids, task)[ids[i] as int].queue.contains(task),
        !abandoned(queues, ids, task)[ids[i] as int].queue.contains(task),
{
    assert(ids.contains(ids[i]));
    assert(ids[i] < queues.len());
    assert((ids[i] as int) as usize == ids[i]);
    lemma_enter_twice(queues[ids[i] as int], task);
    lemma_leave_twice(queues[ids[i] as int], task);
}

/// A task that is in all of its queues was woken by none of them.
pub proof fn lemma_not_woken_while_in_all(
    queues: Seq<Waiters>,
    ids: Seq<usize>,
    task: AxTaskRef,
    i: int,
)
    requires
        are_queues(ids, queues.len()),
        0 <= i <= ids.len(),
    ensures
        first_left(enrolled(queues, ids, task), ids, task, i) is None,
    decreases ids.len() - i,
{
    if i < ids.len() {
        lemma_in_all_or_none(queues, ids, task, i);
        lemma_not_woken_while_in_all(queues, ids, task, i + 1);
    }
}

/// A task that enters some queues is in each of them, and in those only it is that
/// comes in; a task that leaves them is in none. Other queues, other tasks and the
/// wakers are as they were.
pub proof fn lemma_entered_and_left(
    queues: Seq<Waiters>,
    ids: Seq<usize>,
    task: AxTaskRef,
    q: usize,
    other: AxTaskRef,
)
    requires
        q < queues.len(),
        other != task,
    ensures
        ids.contains(q) ==> enrolled(queues, ids, task)[q as int].queue.contains(task),
        ids.contains(q) ==> !abandoned(queues, ids, task)[q as int].queue.contains(task),
        !ids.contains(q) ==> enrolled(queues, ids, task)[q as int] == queues[q as int],
        !ids.contains(q) ==> abandoned(queues, ids, task)[q as int] == queues[q as int],
        enrolled(queues, ids, task)[q as int].queue.contains(other) <==> queues[q as int].queue.contains(
            other,
        ),
        abandoned(queues, ids, task)[q as int].queue.contains(other) <==> queues[q as int].queue.contains(
            other,
        ),
        enrolled(queues, ids, task)[q as int].wakers == queues[q as int].wakers,
        abandoned(queues, ids, task)[q as int].wakers == queues[q as int].wakers,
{
    let w = queues[q as int].queue;
    lemma_without(w, task);
    let p = w.push(task);
    assert(p[w.len() as int] == task);
    if w.contains(other) {
        let i = choose|i: int| 0 <= i < w.len() && w[i] == other;
        assert(p[i] == other);
    }
    if p.contains(other) {
        let i = choose|i: int| 0 <= i < p.len() && p[i] == other;
        assert(w[i] == other);
    }
}

} // verus!
