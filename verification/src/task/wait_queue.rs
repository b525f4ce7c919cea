//! Queues of tasks that wait for something.
use vstd::prelude::*;

use std::collections::VecDeque;

use super::context::{WaitContext, WaitReason};
use super::state::{AxTaskRef, TaskInner, TaskState, next_count};

verus! {

/// A waker that waits in a queue.
#[derive(Clone, Copy, Debug, PartialEq, Eq, Structural)]
pub struct WakerEntry {
    pub id: u64,
    /// The task that registered it.
    pub task_id: u64,
    pub waker: u64,
}

/// Stands for one registered waker.
pub struct WakerRegistration(u64);

impl WakerRegistration {
    pub closed spec fn view(&self) -> u64 {
        self.0
    }
}

/// Who is woken.
#[derive(Clone, Copy, Debug, PartialEq, Eq, Structural)]
pub enum Wake {
    /// A blocked task, which goes to a run queue.
    Task { task: AxTaskRef },
    /// A task that was about to block and will see that its entry is gone.
    Running { task: AxTaskRef },
    /// A waker; whoever registered it is told before it is woken.
    Waker { entry: WakerEntry },
    Nobody,
}

/// The tasks and wakers that wait, in the order in which they came.
pub struct WaitQueue {
    queue: VecDeque<AxTaskRef>,
    wakers: VecDeque<WakerEntry>,
}

pub ghost struct Waiters {
    pub queue: Seq<AxTaskRef>,
    pub wakers: Seq<WakerEntry>,
}

/// Whether all entries of a queue are tasks.
pub open spec fn are_tasks(queue: Seq<AxTaskRef>, tasks: Seq<TaskInner>) -> bool {
    forall|i: int| 0 <= i < queue.len() ==> (#[trigger] queue[i]) < tasks.len()
}

/// A queue without the entries of one task.
pub open spec fn without(queue: Seq<AxTaskRef>, task: AxTaskRef) -> Seq<AxTaskRef>
    decreases queue.len(),
{
    if queue.len() == 0 {
        Seq::empty()
    } else if queue.last() == task {
        without(queue.drop_last(), task)
    } else {
        without(queue.drop_last(), task).push(queue.last())
    }
}

/// The entries of a queue whose task is in a state, or is not.
pub open spec fn in_state(
    queue: Seq<AxTaskRef>,
    tasks: Seq<TaskInner>,
    state: TaskState,
    is: bool,
) -> Seq<AxTaskRef>
    decreases queue.len(),
{
    if queue.len() == 0 {
        Seq::empty()
    } else if (tasks[queue.last() as int].state == state) == is {
        in_state(queue.drop_last(), tasks, state, is).push(queue.last())
    } else {
        in_state(queue.drop_last(), tasks, state, is)
    }
}

/// The wakers but one.
pub open spec fn without_id(wakers: Seq<WakerEntry>, id: u64) -> Seq<WakerEntry>
    decreases wakers.len(),
{
    if wakers.len() == 0 {
        Seq::empty()
    } else if wakers.last().id == id {
        without_id(wakers.drop_last(), id)
    } else {
        without_id(wakers.drop_last(), id).push(wakers.last())
    }
}

/// The first waker from the `i`-th on with an identifier; the length where there
/// is none.
pub open spec fn first_with_id(wakers: Seq<WakerEntry>, id: u64, i: int) -> int
    decreases wakers.len() - i,
{
    if i < 0 || i >= wakers.len() {
        wakers.len() as int
    } else if wakers[i].id == id {
        i
    } else {
        first_with_id(wakers, id, i + 1)
    }
}

/// The first waker from the `i`-th on that a task registered; the length where
/// there is none.
pub open spec fn first_of_task(wakers: Seq<WakerEntry>, task_id: u64, i: int) -> int
    decreases wakers.len() - i,
{
    if i < 0 || i >= wakers.len() {
        wakers.len() as int
    } else if wakers[i].task_id == task_id {
        i
    } else {
        first_of_task(wakers, task_id, i + 1)
    }
}

/// The wakers after that of an entry was replaced, if there is such an entry.
pub open spec fn replaced(wakers: Seq<WakerEntry>, i: int, waker: u64) -> Seq<WakerEntry> {
    if 0 <= i < wakers.len() {
        wakers.update(i, WakerEntry { waker, ..wakers[i] })
    } else {
        wakers
    }
}

/// The tasks after those of the first `n` entries were told that they left.
pub open spec fn told(tasks: Seq<TaskInner>, queue: Seq<AxTaskRef>, n: int) -> Seq<TaskInner>
    decreases n,
{
    if n <= 0 || n > queue.len() {
        tasks
    } else {
        let before = told(tasks, queue, n - 1);
        let t = queue[n - 1] as int;
        before.update(t, TaskInner { in_wait_queue: false, ..before[t] })
    }
}

/// Whether a task can be woken through a queue: it is blocked, or it has an entry
/// and is about to block.
pub open spec fn can_wake(task: TaskInner) -> bool {
    task.state == TaskState::Blocked || (task.state == TaskState::Running && task.in_wait_queue)
}

/// The first entry from the `i`-th on whose task can be woken; the length where
/// there is none.
pub open spec fn first_waiter(queue: Seq<AxTaskRef>, tasks: Seq<TaskInner>, i: int) -> int
    decreases queue.len() - i,
{
    if i < 0 || i >= queue.len() {
        queue.len() as int
    } else if can_wake(tasks[queue[i] as int]) {
        i
    } else {
        first_waiter(queue, tasks, i + 1)
    }
}

/// Telling tasks that they left changes nothing else, and nothing about other
/// tasks.
pub(crate) proof fn lemma_told(tasks: Seq<TaskInner>, queue: Seq<AxTaskRef>, n: int)
    requires
        0 <= n <= queue.len(),
        are_tasks(queue, tasks),
    ensures
        told(tasks, queue, n).len() == tasks.len(),
        forall|t: int|
            0 <= t < tasks.len() ==> (#[trigger] told(tasks, queue, n)[t]) == tasks[t] || told(
                tasks,
                queue,
                n,
            )[t] == (TaskInner { in_wait_queue: false, ..tasks[t] }),
        forall|k: int| 0 <= k < n ==> !told(tasks, queue, n)[#[trigger] queue[k] as int].in_wait_queue,
        forall|t: int|
            0 <= t < tasks.len() && (forall|k: int| 0 <= k < n ==> queue[k] != t)
                ==> #[trigger] told(tasks, queue, n)[t] == tasks[t],
    decreases n,
{
    if n > 0 {
        lemma_told(tasks, queue, n - 1);
        assert(queue[n - 1] < tasks.len());
    }
}

proof fn lemma_first_waiter(queue: Seq<AxTaskRef>, tasks: Seq<TaskInner>, i: int)
    requires
        0 <= i <= queue.len(),
    ensures
        i <= first_waiter(queue, tasks, i) <= queue.len(),
        forall|k: int|
            i <= k < first_waiter(queue, tasks, i) ==> !can_wake(tasks[#[trigger] queue[k] as int]),
        first_waiter(queue, tasks, i) < queue.len() ==> can_wake(
            tasks[queue[first_waiter(queue, tasks, i)] as int],
        ),
    decreases queue.len() - i,
{
    if i < queue.len() && !can_wake(tasks[queue[i] as int]) {
        lemma_first_waiter(queue, tasks, i + 1);
    }
}

fn tell(tasks: &mut Vec<TaskInner>, task: AxTaskRef)
    requires
        task < old(tasks)@.len(),
    ensures
        final(tasks)@ == old(tasks)@.update(
            task as int,
            TaskInner { in_wait_queue: false, ..old(tasks)@[task as int] },
        ),
{
    tasks[task].set_in_wait_queue(false);
}

impl WaitQueue {
    pub closed spec fn view(&self) -> Waiters {
        Waiters { queue: self.queue@, wakers: self.wakers@ }
    }

    pub fn new() -> (r: Self)
        ensures
            r@.queue == Seq::<AxTaskRef>::empty(),
            r@.wakers == Seq::<WakerEntry>::empty(),
    {
        WaitQueue { queue: VecDeque::new(), wakers: VecDeque::new() }
    }

    /// An empty queue with room for some entries.
    pub fn with_capacity(capacity: usize) -> (r: Self)
        ensures
            r@.queue == Seq::<AxTaskRef>::empty(),
            r@.wakers == Seq::<WakerEntry>::empty(),
    {
        WaitQueue {
            queue: VecDeque::with_capacity(capacity),
            wakers: VecDeque::with_capacity(capacity),
        }
    }

    /// What a task waits for that waits in the queue at an address.
    pub fn wait_context(address: u64) -> (r: WaitContext)
        ensures
            r == (WaitContext {
                reason: WaitReason::WaitQueue,
                resource_id: address,
                resource_detail: 0,
            }),
    {
        WaitContext::new(WaitReason::WaitQueue, address, 0)
    }

    pub fn len(&self) -> (r: usize)
        ensures
            r == self@.queue.len(),
    {
        self.queue.len()
    }

    pub fn is_empty(&self) -> (r: bool)
        ensures
            r == (self@.queue.len() == 0),
    {
        self.queue.len() == 0
    }

    /// Where a task is in the queue.
    pub fn position(&self, task: AxTaskRef) -> (r: Option<usize>)
        ensures
            match r {
                Some(i) => i < self@.queue.len() && self@.queue[i as int] == task && forall|k: int|
                    0 <= k < i ==> self@.queue[k] != task,
                None => !self@.queue.contains(task),
            },
    {
        let mut i: usize = 0;
        while i < self.queue.len()
            invariant
                i <= self@.queue.len(),
                self@.queue == self.queue@,
                forall|k: int| 0 <= k < i ==> self@.queue[k] != task,
            decreases self@.queue.len() - i,
        {
            if self.queue[i] == task {
                return Some(i);
            }
            i = i + 1;
        }
        None
    }

    pub fn lists(&self, task: AxTaskRef) -> (r: bool)
        ensures
            r == self@.queue.contains(task),
    {
        self.position(task).is_some()
    }

    /// A task goes to the end of the queue.
    pub fn push(&mut self, task: AxTaskRef)
        ensures
            final(self)@ == (Waiters { queue: old(self)@.queue.push(task), ..old(self)@ }),
    {
        self.queue.push_back(task);
    }

    /// A task goes to the end of the queue, unless it is in it.
    pub fn enroll(&mut self, task: AxTaskRef)
        ensures
            final(self)@ == (Waiters {
                queue: if old(self)@.queue.contains(task) {
                    old(self)@.queue
                } else {
                    old(self)@.queue.push(task)
                },
                ..old(self)@
            }),
    {
        if !self.lists(task) {
            self.queue.push_back(task);
        }
    }

    fn remove_task(&mut self, task: AxTaskRef)
        ensures
            final(self)@ == (Waiters { queue: without(old(self)@.queue, task), ..old(self)@ }),
    {
        let ghost all = self.queue@;
        let mut kept: VecDeque<AxTaskRef> = VecDeque::new();
        let mut i: usize = 0;
        assert(all.take(0) =~= Seq::empty());
        while i < self.queue.len()
            invariant
                i <= all.len(),
                all == self.queue@,
                self@ == old(self)@,
                kept@ == without(all.take(i as int), task),
            decreases all.len() - i,
        {
            assert(all.take(i + 1).drop_last() =~= all.take(i as int));
            let t: AxTaskRef = self.queue[i];
            if t != task {
                kept.push_back(t);
            }
            i = i + 1;
        }
        assert(all.take(all.len() as int) =~= all);
        self.queue = kept;
    }

    /// A task has been woken, or gives up waiting: it leaves the queue. With
    /// `from_timer_list`, no timer wakes it any more.
    pub fn cancel_events(
        &mut self,
        task: AxTaskRef,
        tasks: &mut Vec<TaskInner>,
        from_timer_list: bool,
    )
        requires
            task < old(tasks)@.len(),
        ensures
            final(self)@ == (Waiters { queue: without(old(self)@.queue, task), ..old(self)@ }),
            final(tasks)@ == old(tasks)@.update(
                task as int,
                cancelled(
                    old(tasks)@[task as int],
                    old(self)@.queue.contains(task),
                    from_timer_list,
                ),
            ),
    {
        let ghost before = tasks@;
        let queued: bool = self.lists(task);
        self.remove_task(task);
        if queued {
            tell(tasks, task);
        }
        if from_timer_list {
            tasks[task].timer_ticket_expired();
        }
        assert(tasks@ =~= before.update(
            task as int,
            cancelled(before[task as int], queued, from_timer_list),
        ));
    }

    /// Wakes one waiter: the first task that can be woken, else the first waker.
    /// Entries before that task are left over from waits that ended otherwise.
    pub fn notify_one(&mut self, tasks: &mut Vec<TaskInner>) -> (r: Wake)
        requires
            are_tasks(old(self)@.queue, old(tasks)@),
        ensures
            ({
                let q = old(self)@.queue;
                let w = old(self)@.wakers;
                let k = first_waiter(q, old(tasks)@, 0);
                if k < q.len() {
                    &&& r == if old(tasks)@[q[k] as int].state == TaskState::Blocked {
                        Wake::Task { task: q[k] }
                    } else {
                        Wake::Running { task: q[k] }
                    }
                    &&& final(self)@ == (Waiters { queue: q.skip(k + 1), wakers: w })
                    &&& final(tasks)@ == told(old(tasks)@, q, k + 1)
                } else {
                    &&& r == if w.len() > 0 {
                        Wake::Waker { entry: w[0] }
                    } else {
                        Wake::Nobody
                    }
                    &&& final(self)@ == (Waiters {
                        queue: Seq::empty(),
                        wakers: if w.len() > 0 {
                            w.skip(1)
                        } else {
                            w
                        },
                    })
                    &&& final(tasks)@ == told(old(tasks)@, q, q.len() as int)
                }
            }),
    {
        let ghost q = self@.queue;
        let ghost all = tasks@;
        let ghost mut n: int = 0;
        assert(q.skip(0) =~= q);
        while self.queue.len() > 0
            invariant
                0 <= n <= q.len(),
                are_tasks(q, all),
                self.queue@ == q.skip(n),
                self@.wakers == old(self)@.wakers,
                q == old(self)@.queue,
                all == old(tasks)@,
                tasks@ == told(all, q, n),
                first_waiter(q, all, 0) == first_waiter(q, all, n),
                forall|k: int| 0 <= k < n ==> !can_wake(all[#[trigger] q[k] as int]),
            decreases q.len() - n,
        {
            proof {
                lemma_told(all, q, n);
            }
            assert(q.skip(n)[0] == q[n]);
            assert(q.skip(n).subrange(1, q.skip(n).len() as int) =~= q.skip(n + 1));
            let front: Option<AxTaskRef> = self.queue.pop_front();
            let task: AxTaskRef = match front {
                Some(t) => t,
                None => {
                    return Wake::Nobody;
                },
            };
            assert(task == q[n]);
            assert(tasks@[task as int].state == all[task as int].state);
            proof {
                // A flag that was taken away belongs to a task that cannot be woken.
                if tasks@[task as int] != all[task as int] {
                    assert(exists|k: int| 0 <= k < n && q[k] == task);
                    let k = choose|k: int| 0 <= k < n && q[k] == task;
                    assert(!can_wake(all[q[k] as int]));
                }
            }
            let state: TaskState = tasks[task].state();
            if state == TaskState::Blocked {
                tell(tasks, task);
                return Wake::Task { task };
            }
            if state == TaskState::Running && tasks[task].in_wait_queue() {
                tell(tasks, task);
                return Wake::Running { task };
            }
            tell(tasks, task);
            proof {
                n = n + 1;
            }
        }
        proof {
            assert(n == q.len());
            assert(self.queue@ =~= Seq::empty());
        }
        let ghost w = self.wakers@;
        match self.wakers.pop_front() {
            Some(entry) => {
                assert(w.subrange(1, w.len() as int) =~= w.skip(1));
                Wake::Waker { entry }
            },
            None => Wake::Nobody,
        }
    }

    /// Wakes all waiters: the blocked tasks, in order, then the wakers.
    pub fn notify_all(&mut self, tasks: &mut Vec<TaskInner>) -> (r: (
        Vec<AxTaskRef>,
        Vec<WakerEntry>,
    ))
        requires
            are_tasks(old(self)@.queue, old(tasks)@),
        ensures
            final(self)@ == (Waiters { queue: Seq::empty(), wakers: Seq::empty() }),
            r.0@ == in_state(old(self)@.queue, old(tasks)@, TaskState::Blocked, true),
            r.1@ == old(self)@.wakers,
            final(tasks)@ == told(old(tasks)@, old(self)@.queue, old(self)@.queue.len() as int),
    {
        let ghost q = self@.queue;
        let ghost all = tasks@;
        let mut blocked: Vec<AxTaskRef> = Vec::new();
        let mut i: usize = 0;
        assert(q.take(0) =~= Seq::empty());
        while i < self.queue.len()
            invariant
                i <= q.len(),
                are_tasks(q, all),
                self.queue@ == q,
                self@ == old(self)@,
                all == old(tasks)@,
                tasks@ == told(all, q, i as int),
                blocked@ == in_state(q.take(i as int), all, TaskState::Blocked, true),
            decreases q.len() - i,
        {
            proof {
                lemma_told(all, q, i as int);
                assert(q.take(i + 1).drop_last() =~= q.take(i as int));
            }
            let task: AxTaskRef = self.queue[i];
            assert(task == q[i as int]);
            if tasks[task].state() == TaskState::Blocked {
                blocked.push(task);
            }
            tell(tasks, task);
            i = i + 1;
        }
        assert(q.take(q.len() as int) =~= q);
        self.queue = VecDeque::new();
        let ghost w = self.wakers@;
        let mut entries: Vec<WakerEntry> = Vec::new();
        let mut j: usize = 0;
        while j < self.wakers.len()
            invariant
                j <= w.len(),
                self.wakers@ == w,
                self.queue@ == Seq::<AxTaskRef>::empty(),
                entries@ == w.take(j as int),
            decreases w.len() - j,
        {
            entries.push(self.wakers[j]);
            assert(w.take(j + 1) =~= w.take(j as int).push(w[j as int]));
            j = j + 1;
        }
        assert(w.take(w.len() as int) =~= w);
        self.wakers = VecDeque::new();
        (blocked, entries)
    }

    /// Wakes one task, if it is in the queue.
    pub fn notify_task(&mut self, task: AxTaskRef, tasks: &mut Vec<TaskInner>) -> (r: bool)
        requires
            task < old(tasks)@.len(),
        ensures
            r == old(self)@.queue.contains(task),
            !r ==> final(self)@ == old(self)@ && final(tasks)@ == old(tasks)@,
            r ==> exists|i: int|
                #![trigger old(self)@.queue[i]]
                0 <= i < old(self)@.queue.len() && old(self)@.queue[i] == task && (forall|k: int|
                    0 <= k < i ==> old(self)@.queue[k] != task) && final(self)@ == (Waiters {
                    queue: old(self)@.queue.remove(i),
                    ..old(self)@
                }),
            r ==> final(tasks)@ == old(tasks)@.update(
                task as int,
                TaskInner { in_wait_queue: false, ..old(tasks)@[task as int] },
            ),
    {
        match self.position(task) {
            None => false,
            Some(index) => {
                let _ = self.queue.remove(index);
                assert(old(self)@.queue[index as int] == task);
                tell(tasks, task);
                true
            },
        }
    }

    /// Moves tasks from the front of one queue to the end of another: `count` of
    /// them, or all where there are fewer. Tells how many.
    pub fn requeue(&mut self, count: usize, target: &mut WaitQueue) -> (r: usize)
        ensures
            r == if count <= old(self)@.queue.len() {
                count as int
            } else {
                old(self)@.queue.len() as int
            },
            final(self)@ == (Waiters { queue: old(self)@.queue.skip(r as int), ..old(self)@ }),
            final(target)@ == (Waiters {
                queue: old(target)@.queue + old(self)@.queue.take(r as int),
                ..old(target)@
            }),
    {
        let ghost q = self@.queue;
        let ghost t = target@.queue;
        let n: usize = if count < self.queue.len() {
            count
        } else {
            self.queue.len()
        };
        let mut i: usize = 0;
        assert(q.skip(0) =~= q);
        assert(t + q.take(0) =~= t);
        while i < n
            invariant
                i <= n <= q.len(),
                self@ == (Waiters { queue: q.skip(i as int), ..old(self)@ }),
                target@ == (Waiters { queue: t + q.take(i as int), ..old(target)@ }),
            decreases n - i,
        {
            assert(q.skip(i as int)[0] == q[i as int]);
            assert(q.skip(i as int).subrange(1, q.skip(i as int).len() as int) =~= q.skip(i + 1));
            assert((t + q.take(i as int)).push(q[i as int]) =~= t + q.take(i + 1));
            if let Some(task) = self.queue.pop_front() {
                target.queue.push_back(task);
            }
            i = i + 1;
        }
        n
    }

    /// Removes the tasks that have ended.
    pub fn prune_exited(&mut self, tasks: &Vec<TaskInner>)
        requires
            are_tasks(old(self)@.queue, tasks@),
        ensures
            final(self)@ == (Waiters {
                queue: in_state(old(self)@.queue, tasks@, TaskState::Exited, false),
                ..old(self)@
            }),
    {
        let ghost all = self.queue@;
        let mut kept: VecDeque<AxTaskRef> = VecDeque::new();
        let mut i: usize = 0;
        assert(all.take(0) =~= Seq::empty());
        while i < self.queue.len()
            invariant
                i <= all.len(),
                all == self.queue@,
                self@ == old(self)@,
                are_tasks(all, tasks@),
                kept@ == in_state(all.take(i as int), tasks@, TaskState::Exited, false),
            decreases all.len() - i,
        {
            assert(all.take(i + 1).drop_last() =~= all.take(i as int));
            let t: AxTaskRef = self.queue[i];
            assert(t == all[i as int]);
            if tasks[t].state() != TaskState::Exited {
                kept.push_back(t);
            }
            i = i + 1;
        }
        assert(all.take(all.len() as int) =~= all);
        self.queue = kept;
    }

    fn push_waker(&mut self, waker: u64, task_id: u64, counter: &mut u64) -> (r: u64)
        ensures
            r == *old(counter),
            *final(counter) == next_count(*old(counter)),
            final(self)@ == (Waiters {
                wakers: old(self)@.wakers.push(WakerEntry { id: r, task_id, waker }),
                ..old(self)@
            }),
    {
        let id: u64 = *counter;
        *counter = id.wrapping_add(1);
        self.wakers.push_back(WakerEntry { id, task_id, waker });
        id
    }

    fn replace_waker(&mut self, i: usize, waker: u64)
        requires
            i < old(self)@.wakers.len(),
        ensures
            final(self)@ == (Waiters {
                wakers: old(self)@.wakers.update(
                    i as int,
                    WakerEntry { waker, ..old(self)@.wakers[i as int] },
                ),
                ..old(self)@
            }),
    {
        let ghost w = self.wakers@;
        let e: WakerEntry = self.wakers[i];
        let _ = self.wakers.remove(i);
        self.wakers.insert(i, WakerEntry { id: e.id, task_id: e.task_id, waker });
        assert(self.wakers@ =~= w.update(i as int, WakerEntry { waker, ..w[i as int] }));
    }

    /// Registers a waker for a task. A task that has one already gets its waker
    /// replaced. Tells which registration it is.
    pub fn register_waker(&mut self, waker: u64, task_id: u64, counter: &mut u64) -> (r: u64)
        ensures
            ({
                let w = old(self)@.wakers;
                let i = first_of_task(w, task_id, 0);
                if i < w.len() {
                    &&& r == w[i].id
                    &&& *final(counter) == *old(counter)
                    &&& final(self)@ == (Waiters { wakers: replaced(w, i, waker), ..old(self)@ })
                } else {
                    &&& r == *old(counter)
                    &&& *final(counter) == next_count(*old(counter))
                    &&& final(self)@ == (Waiters {
                        wakers: w.push(WakerEntry { id: r, task_id, waker }),
                        ..old(self)@
                    })
                }
            }),
    {
        let ghost w = self@.wakers;
        let mut i: usize = 0;
        while i < self.wakers.len()
            invariant
                i <= w.len(),
                w == self.wakers@,
                self@ == old(self)@,
                w == old(self)@.wakers,
                *counter == *old(counter),
                first_of_task(w, task_id, 0) == first_of_task(w, task_id, i as int),
            decreases w.len() - i,
        {
            if self.wakers[i].task_id == task_id {
                let id: u64 = self.wakers[i].id;
                self.replace_waker(i, waker);
                return id;
            }
            i = i + 1;
        }
        self.push_waker(waker, task_id, counter)
    }

    /// Registers a waker that belongs to the registration alone.
    pub fn register_owned_waker(&mut self, waker: u64, task_id: u64, counter: &mut u64) -> (r:
        WakerRegistration)
        ensures
            r@ == *old(counter),
            *final(counter) == next_count(*old(counter)),
            final(self)@ == (Waiters {
                wakers: old(self)@.wakers.push(WakerEntry { id: r@, task_id, waker }),
                ..old(self)@
            }),
    {
        WakerRegistration(self.push_waker(waker, task_id, counter))
    }

    /// Replaces the waker of a registration, if it still waits.
    pub fn update_registered_waker(&mut self, registration: &WakerRegistration, waker: u64)
        ensures
            final(self)@ == (Waiters {
                wakers: replaced(
                    old(self)@.wakers,
                    first_with_id(old(self)@.wakers, registration@, 0),
                    waker,
                ),
                ..old(self)@
            }),
    {
        let ghost w = self@.wakers;
        let mut i: usize = 0;
        while i < self.wakers.len()
            invariant
                i <= w.len(),
                w == self.wakers@,
                self@ == old(self)@,
                w == old(self)@.wakers,
                first_with_id(w, registration@, 0) == first_with_id(w, registration@, i as int),
            decreases w.len() - i,
        {
            if self.wakers[i].id == registration.0 {
                self.replace_waker(i, waker);
                return;
            }
            i = i + 1;
        }
    }

    /// Takes a registration out of the queue.
    pub fn unregister_waker(&mut self, registration: WakerRegistration)
        ensures
            final(self)@ == (Waiters {
                wakers: without_id(old(self)@.wakers, registration@),
                ..old(self)@
            }),
    {
        let ghost all = self.wakers@;
        let mut kept: VecDeque<WakerEntry> = VecDeque::new();
        let mut i: usize = 0;
        assert(all.take(0) =~= Seq::empty());
        while i < self.wakers.len()
            invariant
                i <= all.len(),
                all == self.wakers@,
                self@ == old(self)@,
                kept@ == without_id(all.take(i as int), registration@),
            decreases all.len() - i,
        {
            assert(all.take(i + 1).drop_last() =~= all.take(i as int));
            let e: WakerEntry = self.wakers[i];
            if e.id != registration.0 {
                kept.push_back(e);
            }
            i = i + 1;
        }
        assert(all.take(all.len() as int) =~= all);
        self.wakers = kept;
    }
}

/// A task after it left a queue.
pub open spec fn cancelled(task: TaskInner, queued: bool, from_timer_list: bool) -> TaskInner {
    TaskInner {
        in_wait_queue: if queued {
            false
        } else {
            task.in_wait_queue
        },
        timer_ticket_id: if from_timer_list {
            0
        } else {
            task.timer_ticket_id
        },
        ..task
    }
}

/// A task that left a queue is not in it; the others stay, in order.
pub(crate) proof fn lemma_without(queue: Seq<AxTaskRef>, task: AxTaskRef)
    ensures
        !without(queue, task).contains(task),
        forall|t: AxTaskRef|
            t != task ==> (#[trigger] without(queue, task).contains(t) <==> queue.contains(t)),
        !queue.contains(task) ==> without(queue, task) == queue,
    decreases queue.len(),
{
    if queue.len() > 0 {
        let rest = queue.drop_last();
        lemma_without(rest, task);
        let w = without(queue, task);
        let v = without(rest, task);
        assert(queue =~= rest.push(queue.last()));
        assert forall|t: AxTaskRef| #[trigger] queue.contains(t) <==> rest.contains(t) || t
            == queue.last() by {
            if queue.contains(t) && t != queue.last() {
                let k = choose|k: int| 0 <= k < queue.len() && queue[k] == t;
                assert(rest[k] == t);
            }
            if rest.contains(t) {
                let k = choose|k: int| 0 <= k < rest.len() && rest[k] == t;
                assert(queue[k] == t);
            }
            assert(queue[queue.len() - 1] == queue.last());
        }
        if queue.last() != task {
            assert forall|t: AxTaskRef| #[trigger] w.contains(t) <==> v.contains(t) || t
                == queue.last() by {
                if w.contains(t) && t != queue.last() {
                    let k = choose|k: int| 0 <= k < w.len() && w[k] == t;
                    assert(v[k] == t);
                }
                if v.contains(t) {
                    let k = choose|k: int| 0 <= k < v.len() && v[k] == t;
                    assert(w[k] == t);
                }
                assert(w[w.len() - 1] == queue.last());
            }
            if !queue.contains(task) {
                assert(w =~= queue);
            }
        } else {
            assert(queue.contains(task));
        }
    }
}

/// Moving tasks between queues keeps all of them, in order.
pub proof fn lemma_requeue_keeps_tasks(from: Seq<AxTaskRef>, to: Seq<AxTaskRef>, n: int)
    requires
        0 <= n <= from.len(),
    ensures
        (to + from.take(n)) + from.skip(n) == to + from,
{
    assert((to + from.take(n)) + from.skip(n) =~= to + from);
}

/// A queue whose entries cannot be woken is emptied by one notification, and a
/// notification never takes an entry behind the one that it wakes.
pub proof fn lemma_one_waiter_is_woken(queue: Seq<AxTaskRef>, tasks: Seq<TaskInner>)
    ensures
        ({
            let k = first_waiter(queue, tasks, 0);
            &&& 0 <= k <= queue.len()
            &&& forall|i: int|
                0 <= i < k ==> {
                    let t = tasks[#[trigger] queue[i] as int];
                    t.state != TaskState::Blocked && !(t.state == TaskState::Running
                        && t.in_wait_queue)
                }
            &&& k < queue.len() ==> {
                let t = tasks[queue[k] as int];
                t.state == TaskState::Blocked || (t.state == TaskState::Running && t.in_wait_queue)
            }
            &&& k < queue.len() ==> queue.skip(k + 1).len() == queue.len() - k - 1
        }),
{
    lemma_first_waiter(queue, tasks, 0);
    let k = first_waiter(queue, tasks, 0);
    assert forall|i: int| 0 <= i < k implies ({
        let t = tasks[#[trigger] queue[i] as int];
        t.state != TaskState::Blocked && !(t.state == TaskState::Running && t.in_wait_queue)
    }) by {
        assert(!can_wake(tasks[queue[i] as int]));
    }
}

/// Who is picked from a queue by state is in it and in that state, and nobody who
/// is is left out.
pub proof fn lemma_picked_by_state(
    queue: Seq<AxTaskRef>,
    tasks: Seq<TaskInner>,
    state: TaskState,
    is: bool,
    task: AxTaskRef,
)
    ensures
        in_state(queue, tasks, state, is).contains(task) <==> queue.contains(task) && ((tasks[
            task as int].state == state) == is),
        in_state(queue, tasks, state, is).len() <= queue.len(),
        (forall|i: int| 0 <= i < queue.len() ==> (tasks[#[trigger] queue[i] as int].state == state) == is)
            ==> in_state(queue, tasks, state, is) == queue,
    decreases queue.len(),
{
    if queue.len() > 0 {
        let rest = queue.drop_last();
        let last = queue.last();
        lemma_picked_by_state(rest, tasks, state, is, task);
        let t = in_state(queue, tasks, state, is);
        let u = in_state(rest, tasks, state, is);
        assert(queue.contains(task) <==> rest.contains(task) || last == task) by {
            if queue.contains(task) {
                let i = choose|i: int| 0 <= i < queue.len() && queue[i] == task;
                if i < rest.len() {
                    assert(rest[i] == task);
                }
            }
            if rest.contains(task) {
                let i = choose|i: int| 0 <= i < rest.len() && rest[i] == task;
                assert(queue[i] == task);
            }
            assert(queue[queue.len() - 1] == last);
        }
        if (tasks[last as int].state == state) == is {
            assert(t == u.push(last));
            assert(t[u.len() as int] == last);
            assert(t.contains(task) <==> u.contains(task) || last == task) by {
                if t.contains(task) {
                    let i = choose|i: int| 0 <= i < t.len() && t[i] == task;
                    if i < u.len() {
                        assert(u[i] == task);
                    }
                }
                if u.contains(task) {
                    let i = choose|i: int| 0 <= i < u.len() && u[i] == task;
                    assert(t[i] == task);
                }
            }
        }
        if forall|i: int| 0 <= i < queue.len() ==> (tasks[#[trigger] queue[i] as int].state == state) == is {
            assert forall|i: int| 0 <= i < rest.len() implies (tasks[#[trigger] rest[i] as int].state
                == state) == is by {
                assert(rest[i] == queue[i]);
            }
            assert(queue[queue.len() - 1] == last);
            assert(t =~= queue);
        }
    }
}

/// Taking wakers away by their identifier takes no other, and leaves them in
/// order.
pub proof fn lemma_other_wakers_stay(wakers: Seq<WakerEntry>, id: u64, e: WakerEntry)
    ensures
        without_id(wakers, id).contains(e) <==> wakers.contains(e) && e.id != id,
        (forall|i: int| 0 <= i < wakers.len() ==> (#[trigger] wakers[i]).id != id) ==> without_id(
            wakers,
            id,
        ) == wakers,
    decreases wakers.len(),
{
    if wakers.len() > 0 {
        let rest = wakers.drop_last();
        let last = wakers.last();
        lemma_other_wakers_stay(rest, id, e);
        let t = without_id(wakers, id);
        let u = without_id(rest, id);
        assert(wakers.contains(e) <==> rest.contains(e) || last == e) by {
            if wakers.contains(e) {
                let i = choose|i: int| 0 <= i < wakers.len() && wakers[i] == e;
                if i < rest.len() {
                    assert(rest[i] == e);
                }
            }
            if rest.contains(e) {
                let i = choose|i: int| 0 <= i < rest.len() && rest[i] == e;
                assert(wakers[i] == e);
            }
            assert(wakers[wakers.len() - 1] == last);
        }
        if last.id != id {
            assert(t == u.push(last));
            assert(t[u.len() as int] == last);
            assert(t.contains(e) <==> u.contains(e) || last == e) by {
                if t.contains(e) {
                    let i = choose|i: int| 0 <= i < t.len() && t[i] == e;
                    if i < u.len() {
                        assert(u[i] == e);
                    }
                }
                if u.contains(e) {
                    let i = choose|i: int| 0 <= i < u.len() && u[i] == e;
                    assert(t[i] == e);
                }
            }
        }
        if forall|i: int| 0 <= i < wakers.len() ==> (#[trigger] wakers[i]).id != id {
            assert forall|i: int| 0 <= i < rest.len() implies (#[trigger] rest[i]).id != id by {
                assert(rest[i] == wakers[i]);
            }
            assert(wakers[wakers.len() - 1] == last);
            assert(t =~= wakers);
        }
    }
}

/// The waker that a task registered is found, the first one if there are several;
/// and so is the waker with an identifier.
pub proof fn lemma_waker_is_found(wakers: Seq<WakerEntry>, number: u64, i: int)
    requires
        0 <= i <= wakers.len(),
    ensures
        ({
            let k = first_of_task(wakers, number, i);
            &&& i <= k <= wakers.len()
            &&& k < wakers.len() ==> wakers[k].task_id == number
            &&& forall|j: int| i <= j < k ==> (#[trigger] wakers[j]).task_id != number
        }),
        ({
            let k = first_with_id(wakers, number, i);
            &&& i <= k <= wakers.len()
            &&& k < wakers.len() ==> wakers[k].id == number
            &&& forall|j: int| i <= j < k ==> (#[trigger] wakers[j]).id != number
        }),
    decreases wakers.len() - i,
{
    if i < wakers.len() {
        lemma_waker_is_found(wakers, number, i + 1);
    }
}

/// A task that leaves a queue it had an entry in is not waiting any more, and one
/// that leaves the timers has no timer. Nothing else about it changes.
pub proof fn lemma_task_that_left(task: TaskInner, queued: bool, from_timer_list: bool)
    ensures
        ({
            let t = cancelled(task, queued, from_timer_list);
            &&& queued ==> !t.in_wait_queue
            &&& !queued ==> t.in_wait_queue == task.in_wait_queue
            &&& from_timer_list ==> t.timer_ticket_id == 0
            &&& !from_timer_list ==> t.timer_ticket_id == task.timer_ticket_id
            &&& t.state == task.state
            &&& t.id == task.id
            &&& t.cpumask == task.cpumask
            &&& t.interrupted == task.interrupted
        }),
{
}

} // verus!
