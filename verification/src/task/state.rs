//! The state of a task.
use vstd::prelude::*;

use crate::error::{AxError, AxResult};
use super::context::WaitContext;

verus! {

/// Tasks are known by their place in the table of tasks.
pub type AxTaskRef = usize;

/// A number that no other task has.
#[derive(Clone, Copy, Debug, PartialEq, Eq, Structural)]
pub struct TaskId(u64);

impl TaskId {
    pub closed spec fn spec_number(self) -> u64 {
        self.0
    }

    /// The next number; after the last one the numbers start again.
    pub fn new(counter: &mut TaskIdCounter) -> (r: Self)
        ensures
            r.spec_number() == nth_number(old(counter).handed_out()),
            final(counter).handed_out() == old(counter).handed_out() + 1,
    {
        proof {
            use_type_invariant(&*counter);
        }
        let id: u64 = counter.next;
        let ghost count = counter.count@;
        *counter = TaskIdCounter { next: id.wrapping_add(1), count: Ghost(count + 1) };
        TaskId(id)
    }

    pub fn as_u64(&self) -> (r: u64)
        ensures
            r == self.spec_number(),
    {
        self.0
    }
}

/// The number that is handed out after `n` others: they start at 1, and again at
/// 0 after the last.
pub open spec fn nth_number(n: nat) -> u64 {
    ((n + 1) % 0x1_0000_0000_0000_0000) as u64
}

/// Hands out the numbers of tasks.
pub struct TaskIdCounter {
    next: u64,
    count: Ghost<nat>,
}

impl TaskIdCounter {
    #[verifier::type_invariant]
    closed spec fn next_follows(self) -> bool {
        self.next == nth_number(self.count@)
    }

    /// How many numbers it has handed out.
    pub closed spec fn handed_out(self) -> nat {
        self.count@
    }

    pub fn new() -> (r: Self)
        ensures
            r.handed_out() == 0,
    {
        TaskIdCounter { next: 1, count: Ghost(0) }
    }
}

/// While fewer than 2^64 numbers are handed out, no two are the same, and none
/// is 0.
pub proof fn lemma_task_numbers_differ(a: nat, b: nat)
    requires
        a < u64::MAX,
        b < u64::MAX,
        a != b,
    ensures
        nth_number(a) != nth_number(b),
        nth_number(a) != 0,
{
}

/// What a task is doing.
#[derive(Clone, Copy, Debug, PartialEq, Eq, Structural)]
pub enum TaskState {
    /// It runs on some CPU.
    Running,
    /// It waits in a run queue.
    Ready,
    /// It waits for something else and has left its CPU.
    Blocked,
    /// It has ended.
    Exited,
}

impl TaskState {
    pub open spec fn spec_number(self) -> u8 {
        match self {
            TaskState::Running => 1,
            TaskState::Ready => 2,
            TaskState::Blocked => 3,
            TaskState::Exited => 4,
        }
    }

    pub fn number(self) -> (r: u8)
        ensures
            r == self.spec_number(),
    {
        match self {
            TaskState::Running => 1,
            TaskState::Ready => 2,
            TaskState::Blocked => 3,
            TaskState::Exited => 4,
        }
    }

    /// The state with a number.
    pub fn from_number(n: u8) -> (r: Self)
        requires
            1 <= n <= 4,
        ensures
            r.spec_number() == n,
    {
        match n {
            1 => TaskState::Running,
            2 => TaskState::Ready,
            3 => TaskState::Blocked,
            _ => TaskState::Exited,
        }
    }
}

/// Whether a CPU still holds the context of a task, and the wake that came
/// meanwhile: for which CPU, and the task itself.
#[derive(Clone, Copy, Debug)]
pub struct SwitchState {
    pub on_cpu: bool,
    pub deferred_wake: Option<(u32, AxTaskRef)>,
}

/// What is known of a task.
pub struct TaskInner {
    pub id: TaskId,
    pub name: String,
    pub is_idle: bool,
    pub is_init: bool,
    pub state: TaskState,
    /// How often the task has blocked.
    pub block_sequence: u64,
    /// What the next suspension is for.
    pub pending_wait_context: Option<WaitContext>,
    /// The CPUs that the task may run on.
    pub cpumask: u64,
    pub in_wait_queue: bool,
    pub cpu_id: u32,
    pub switch_state: SwitchState,
    pub interrupted: bool,
    pub interrupt_waker: Option<u64>,
    pub block_on_waker: Option<u64>,
    /// Which timer may wake the task; zero is none.
    pub timer_ticket_id: u64,
    pub need_resched: bool,
    pub preempt_disable_count: usize,
    pub exit_code: i32,
}

pub open spec fn idle_name() -> Seq<char> {
    seq!['i', 'd', 'l', 'e']
}

/// The number of a block or a preemption guard after `n`.
pub open spec fn next_count(n: u64) -> u64 {
    if n == u64::MAX {
        0
    } else {
        (n + 1) as u64
    }
}

impl TaskInner {
    /// A task that is ready and has done nothing yet.
    pub open spec fn is_fresh(self, id: TaskId, name: Seq<char>, cpumask: u64) -> bool {
        &&& self.id == id
        &&& self.name@ == name
        &&& self.is_idle == (name == idle_name())
        &&& self.state == TaskState::Ready
        &&& self.block_sequence == 0
        &&& self.pending_wait_context is None
        &&& self.cpumask == cpumask
        &&& !self.in_wait_queue
        &&& self.cpu_id == 0
        &&& self.switch_state.deferred_wake is None
        &&& !self.interrupted
        &&& self.interrupt_waker is None
        &&& self.block_on_waker is None
        &&& self.timer_ticket_id == 0
        &&& !self.need_resched
        &&& self.preempt_disable_count == 0
        &&& self.exit_code == 0
    }

    fn new_common(id: TaskId, name: String, cpumask: u64) -> (r: Self)
        ensures
            r.is_fresh(id, name@, cpumask),
            !r.is_init,
            !r.switch_state.on_cpu,
    {
        let idle: String = "idle".to_owned();
        proof {
            reveal_strlit("idle");
            assert("idle"@ =~= idle_name());
        }
        let is_idle: bool = name == idle;
        TaskInner {
            id,
            name,
            is_idle,
            is_init: false,
            state: TaskState::Ready,
            block_sequence: 0,
            pending_wait_context: None,
            cpumask,
            in_wait_queue: false,
            cpu_id: 0,
            switch_state: SwitchState { on_cpu: false, deferred_wake: None },
            interrupted: false,
            interrupt_waker: None,
            block_on_waker: None,
            timer_ticket_id: 0,
            need_resched: false,
            preempt_disable_count: 0,
            exit_code: 0,
        }
    }

    /// A task that may run on the CPUs of a mask.
    pub fn new(counter: &mut TaskIdCounter, name: String, cpumask: u64) -> (r: Self)
        ensures
            r.is_fresh(r.id, name@, cpumask),
            r.id.spec_number() == nth_number(old(counter).handed_out()),
            final(counter).handed_out() == old(counter).handed_out() + 1,
            !r.is_init,
            !r.switch_state.on_cpu,
    {
        Self::new_common(TaskId::new(counter), name, cpumask)
    }

    /// The same, once it is known where the stack is. Without a stack there is
    /// no task; its number is not used again all the same.
    pub fn try_new(
        counter: &mut TaskIdCounter,
        name: String,
        cpumask: u64,
        stack: Option<usize>,
    ) -> (r: AxResult<Self>)
        ensures
            match r {
                Ok(t) => {
                    &&& stack is Some
                    &&& t.is_fresh(t.id, name@, cpumask)
                    &&& t.id.spec_number() == nth_number(old(counter).handed_out())
                    &&& !t.is_init
                    &&& !t.switch_state.on_cpu
                },
                Err(e) => stack is None && e == AxError::NoMemory,
            },
            final(counter).handed_out() == old(counter).handed_out() + 1,
    {
        let t: TaskInner = Self::new_common(TaskId::new(counter), name, cpumask);
        match stack {
            Some(_) => Ok(t),
            None => Err(AxError::NoMemory),
        }
    }

    /// The task that is made of what a CPU does already.
    pub fn new_init(counter: &mut TaskIdCounter, name: String, cpumask: u64) -> (r: Self)
        ensures
            r.is_fresh(r.id, name@, cpumask),
            r.id.spec_number() == nth_number(old(counter).handed_out()),
            final(counter).handed_out() == old(counter).handed_out() + 1,
            r.is_init,
            r.switch_state.on_cpu,
    {
        let mut t: TaskInner = Self::new_common(TaskId::new(counter), name, cpumask);
        t.is_init = true;
        t.claim_on_cpu();
        t
    }

    pub fn id(&self) -> (r: TaskId)
        ensures
            r == self.id,
    {
        self.id
    }

    pub fn name(&self) -> (r: String)
        ensures
            r@ == self.name@,
    {
        self.name.clone()
    }

    pub fn set_name(&mut self, name: &str)
        ensures
            *final(self) == (TaskInner { name: final(self).name, ..*old(self) }),
            final(self).name@ == name@,
    {
        self.name = name.to_owned();
    }

    pub fn state(&self) -> (r: TaskState)
        ensures
            r == self.state,
    {
        self.state
    }

    pub fn set_state(&mut self, state: TaskState)
        ensures
            *final(self) == (TaskInner { state, ..*old(self) }),
    {
        self.state = state;
    }

    /// Goes from one state to another, if it is in the one.
    pub fn transition_state(&mut self, current_state: TaskState, new_state: TaskState) -> (r: bool)
        ensures
            r == (old(self).state == current_state),
            *final(self) == if r {
                TaskInner { state: new_state, ..*old(self) }
            } else {
                *old(self)
            },
    {
        if self.state == current_state {
            self.state = new_state;
            true
        } else {
            false
        }
    }

    pub fn is_running(&self) -> (r: bool)
        ensures
            r == (self.state == TaskState::Running),
    {
        self.state == TaskState::Running
    }

    pub fn is_ready(&self) -> (r: bool)
        ensures
            r == (self.state == TaskState::Ready),
    {
        self.state == TaskState::Ready
    }

    pub fn in_wait_queue(&self) -> (r: bool)
        ensures
            r == self.in_wait_queue,
    {
        self.in_wait_queue
    }

    pub fn set_in_wait_queue(&mut self, in_wait_queue: bool)
        ensures
            *final(self) == (TaskInner { in_wait_queue, ..*old(self) }),
    {
        self.in_wait_queue = in_wait_queue;
    }

    /// Takes the task's entry in a wait queue; tells whether there was one.
    pub fn consume_wait_queue_entry(&mut self) -> (r: bool)
        ensures
            r == old(self).in_wait_queue,
            *final(self) == (TaskInner { in_wait_queue: false, ..*old(self) }),
    {
        let was: bool = self.in_wait_queue;
        self.in_wait_queue = false;
        was
    }

    pub fn next_qperf_block_sequence(&mut self) -> (r: u64)
        ensures
            r == next_count(old(self).block_sequence),
            *final(self) == (TaskInner { block_sequence: r, ..*old(self) }),
    {
        self.block_sequence = self.block_sequence.wrapping_add(1);
        self.block_sequence
    }

    pub fn clear_qperf_pending_wait_context(&mut self)
        ensures
            *final(self) == (TaskInner { pending_wait_context: None, ..*old(self) }),
    {
        self.pending_wait_context = None;
    }

    pub fn set_qperf_pending_wait_context(&mut self, context: WaitContext)
        ensures
            *final(self) == (TaskInner { pending_wait_context: Some(context), ..*old(self) }),
    {
        self.pending_wait_context = Some(context);
    }

    pub fn take_qperf_pending_wait_context(&mut self) -> (r: Option<WaitContext>)
        ensures
            r == old(self).pending_wait_context,
            *final(self) == (TaskInner { pending_wait_context: None, ..*old(self) }),
    {
        let r: Option<WaitContext> = self.pending_wait_context;
        self.pending_wait_context = None;
        r
    }

    /// The exit code, once the task has ended.
    pub fn try_join(&self) -> (r: Option<i32>)
        ensures
            r == if self.state == TaskState::Exited {
                Some(self.exit_code)
            } else {
                None
            },
    {
        if self.state == TaskState::Exited {
            Some(self.exit_code)
        } else {
            None
        }
    }

    pub fn cpu_id(&self) -> (r: u32)
        ensures
            r == self.cpu_id,
    {
        self.cpu_id
    }

    pub fn set_cpu_id(&mut self, cpu_id: u32)
        ensures
            *final(self) == (TaskInner { cpu_id, ..*old(self) }),
    {
        self.cpu_id = cpu_id;
    }

    pub fn cpumask(&self) -> (r: u64)
        ensures
            r == self.cpumask,
    {
        self.cpumask
    }

    pub fn set_cpumask(&mut self, cpumask: u64)
        ensures
            *final(self) == (TaskInner { cpumask, ..*old(self) }),
    {
        self.cpumask = cpumask;
    }

    /// Keeps the waker and takes an interruption, if there is one.
    pub fn poll_interrupt(&mut self, waker: u64) -> (r: bool)
        ensures
            r == old(self).interrupted,
            *final(self) == (TaskInner {
                interrupted: false,
                interrupt_waker: Some(waker),
                ..*old(self)
            }),
    {
        self.interrupt_waker = Some(waker);
        let was: bool = self.interrupted;
        self.interrupted = false;
        was
    }

    pub fn clear_interrupt(&mut self)
        ensures
            *final(self) == (TaskInner { interrupted: false, ..*old(self) }),
    {
        self.interrupted = false;
    }

    /// Interrupts the task; the waker that is returned is woken.
    pub fn interrupt(&mut self) -> (r: Option<u64>)
        ensures
            r == old(self).interrupt_waker,
            *final(self) == (TaskInner {
                interrupted: true,
                interrupt_waker: None,
                ..*old(self)
            }),
    {
        self.interrupted = true;
        let w: Option<u64> = self.interrupt_waker;
        self.interrupt_waker = None;
        w
    }

    pub fn take_block_on_waker(&mut self) -> (r: Option<u64>)
        ensures
            r == old(self).block_on_waker,
            *final(self) == (TaskInner { block_on_waker: None, ..*old(self) }),
    {
        let w: Option<u64> = self.block_on_waker;
        self.block_on_waker = None;
        w
    }

    /// Keeps a waker for later, if none is kept yet.
    pub fn cache_block_on_waker(&mut self, waker: u64) -> (r: Result<(), u64>)
        ensures
            r == if old(self).block_on_waker is Some {
                Err::<(), u64>(waker)
            } else {
                Ok(())
            },
            *final(self) == if old(self).block_on_waker is Some {
                *old(self)
            } else {
                TaskInner { block_on_waker: Some(waker), ..*old(self) }
            },
    {
        if self.block_on_waker.is_some() {
            Err(waker)
        } else {
            self.block_on_waker = Some(waker);
            Ok(())
        }
    }

    pub fn timer_ticket(&self) -> (r: u64)
        ensures
            r == self.timer_ticket_id,
    {
        self.timer_ticket_id
    }

    /// Lets the timer with this ticket wake the task.
    pub fn set_timer_ticket(&mut self, timer_ticket_id: u64)
        requires
            timer_ticket_id != 0,
        ensures
            *final(self) == (TaskInner { timer_ticket_id, ..*old(self) }),
    {
        self.timer_ticket_id = timer_ticket_id;
    }

    /// Lets no timer wake the task.
    pub fn timer_ticket_expired(&mut self)
        ensures
            *final(self) == (TaskInner { timer_ticket_id: 0, ..*old(self) }),
    {
        self.timer_ticket_id = 0;
    }

    pub fn set_preempt_pending(&mut self, pending: bool)
        ensures
            *final(self) == (TaskInner { need_resched: pending, ..*old(self) }),
    {
        self.need_resched = pending;
    }

    pub fn can_preempt(&self, current_disable_count: usize) -> (r: bool)
        ensures
            r == (self.preempt_disable_count == current_disable_count),
    {
        self.preempt_disable_count == current_disable_count
    }

    pub fn disable_preempt(&mut self)
        requires
            old(self).preempt_disable_count < usize::MAX,
        ensures
            *final(self) == (TaskInner {
                preempt_disable_count: (old(self).preempt_disable_count + 1) as usize,
                ..*old(self)
            }),
    {
        self.preempt_disable_count = self.preempt_disable_count + 1;
    }

    /// Takes one guard away; tells whether it is now time to look for a pending
    /// preemption.
    pub fn enable_preempt(&mut self, resched: bool) -> (r: bool)
        requires
            old(self).preempt_disable_count > 0,
        ensures
            r == (old(self).preempt_disable_count == 1 && resched),
            *final(self) == (TaskInner {
                preempt_disable_count: (old(self).preempt_disable_count - 1) as usize,
                ..*old(self)
            }),
    {
        self.preempt_disable_count = self.preempt_disable_count - 1;
        self.preempt_disable_count == 0 && resched
    }

    /// Whether the task gives up its CPU now.
    pub fn check_preempt_pending(&self) -> (r: bool)
        ensures
            r == (self.need_resched && self.preempt_disable_count == 0),
    {
        self.need_resched && self.can_preempt(0)
    }

    /// A CPU takes the task, which no CPU holds.
    pub fn claim_on_cpu(&mut self)
        requires
            !old(self).switch_state.on_cpu,
            old(self).switch_state.deferred_wake is None,
        ensures
            *final(self) == (TaskInner {
                switch_state: SwitchState { on_cpu: true, deferred_wake: None },
                ..*old(self)
            }),
    {
        self.switch_state = SwitchState { on_cpu: true, deferred_wake: None };
    }

    pub fn is_on_cpu(&self) -> (r: bool)
        ensures
            r == self.switch_state.on_cpu,
    {
        self.switch_state.on_cpu
    }

    /// Keeps a wake for the CPU that still holds the task. If none does, the one
    /// who wakes puts the task into a run queue.
    pub fn defer_wake(&mut self, target_cpu: u32, task: AxTaskRef) -> (r: bool)
        requires
            old(self).switch_state.on_cpu ==> old(self).switch_state.deferred_wake is None,
        ensures
            r == old(self).switch_state.on_cpu,
            *final(self) == if r {
                TaskInner {
                    switch_state: SwitchState {
                        on_cpu: true,
                        deferred_wake: Some((target_cpu, task)),
                    },
                    ..*old(self)
                }
            } else {
                *old(self)
            },
    {
        if !self.switch_state.on_cpu {
            return false;
        }
        self.switch_state = SwitchState { on_cpu: true, deferred_wake: Some((target_cpu, task)) };
        true
    }

    /// The CPU lets go of the task and gets the wake that was kept.
    pub fn finish_switch_out(&mut self) -> (r: Option<(u32, AxTaskRef)>)
        requires
            old(self).switch_state.on_cpu,
        ensures
            r == old(self).switch_state.deferred_wake,
            *final(self) == (TaskInner {
                switch_state: SwitchState { on_cpu: false, deferred_wake: None },
                ..*old(self)
            }),
    {
        let wake: Option<(u32, AxTaskRef)> = self.switch_state.deferred_wake;
        self.switch_state = SwitchState { on_cpu: false, deferred_wake: None };
        wake
    }

    /// Records how the task ended.
    pub fn notify_exit(&mut self, exit_code: i32)
        ensures
            *final(self) == (TaskInner { exit_code, ..*old(self) }),
    {
        self.exit_code = exit_code;
    }
}

/// The task that runs on a CPU.
pub struct CurrentTask {
    task: AxTaskRef,
}

impl CurrentTask {
    pub closed spec fn view(&self) -> AxTaskRef {
        self.task
    }

    pub fn new(task: AxTaskRef) -> (r: Self)
        ensures
            r@ == task,
    {
        CurrentTask { task }
    }

    pub fn as_task_ref(&self) -> (r: &AxTaskRef)
        ensures
            *r == self@,
    {
        &self.task
    }

    pub fn ptr_eq(&self, other: AxTaskRef) -> (r: bool)
        ensures
            r == (self@ == other),
    {
        self.task == other
    }
}

/// A CPU keeps at most this many stacks of tasks that have ended.
pub const TASK_STACK_CACHE_CAPACITY: usize = 8;

/// The stacks that a CPU keeps.
pub struct TaskStackCache {
    starts: Vec<usize>,
}

impl TaskStackCache {
    pub closed spec fn view(&self) -> Seq<usize> {
        self.starts@
    }

    pub open spec fn wf(&self) -> bool {
        self@.len() <= TASK_STACK_CACHE_CAPACITY
    }

    pub fn new() -> (r: Self)
        ensures
            r.wf(),
            r@ == Seq::<usize>::empty(),
    {
        TaskStackCache { starts: Vec::new() }
    }

    /// Takes the stack that was kept last.
    pub fn pop(&mut self) -> (r: Option<usize>)
        requires
            old(self).wf(),
        ensures
            final(self).wf(),
            if old(self)@.len() == 0 {
                r is None && final(self)@ == old(self)@
            } else {
                r == Some(old(self)@.last()) && final(self)@ == old(self)@.drop_last()
            },
    {
        self.starts.pop()
    }

    /// Keeps a stack, if there is room.
    pub fn push(&mut self, start: usize) -> (r: bool)
        requires
            old(self).wf(),
        ensures
            final(self).wf(),
            r == (old(self)@.len() < TASK_STACK_CACHE_CAPACITY),
            final(self)@ == if r {
                old(self)@.push(start)
            } else {
                old(self)@
            },
    {
        if self.starts.len() == TASK_STACK_CACHE_CAPACITY {
            return false;
        }
        self.starts.push(start);
        true
    }
}

/// Where a stack comes from.
#[derive(Clone, Copy, Debug, PartialEq, Eq, Structural)]
pub enum StackSource {
    Cached { start: usize },
    Allocate { num_pages: usize },
}

pub const PAGE_SIZE_4K: usize = 0x1000;

/// Where a stack of `size` bytes, a number of whole pages, comes from: stacks of
/// the usual size are kept.
pub fn stack_source(size: usize, usual_size: usize, cache: &mut TaskStackCache) -> (r: StackSource)
    requires
        old(cache).wf(),
        size % PAGE_SIZE_4K == 0,
    ensures
        final(cache).wf(),
        if size == usual_size && old(cache)@.len() > 0 {
            &&& r == (StackSource::Cached { start: old(cache)@.last() })
            &&& final(cache)@ == old(cache)@.drop_last()
        } else {
            &&& r == (StackSource::Allocate { num_pages: (size / PAGE_SIZE_4K) as usize })
            &&& final(cache)@ == old(cache)@
        },
{
    if size == usual_size {
        if let Some(start) = cache.pop() {
            return StackSource::Cached { start };
        }
    }
    StackSource::Allocate { num_pages: size / PAGE_SIZE_4K }
}

/// Gives a stack back; tells whether its pages are freed.
pub fn release_stack(start: usize, size: usize, usual_size: usize, cache: &mut TaskStackCache) -> (r:
    bool)
    requires
        old(cache).wf(),
    ensures
        final(cache).wf(),
        r == !(size == usual_size && old(cache)@.len() < TASK_STACK_CACHE_CAPACITY),
        final(cache)@ == if r {
            old(cache)@
        } else {
            old(cache)@.push(start)
        },
{
    !(size == usual_size && cache.push(start))
}

/// Where a stack ends.
pub fn stack_top(start: usize, size: usize) -> (r: usize)
    requires
        start + size <= usize::MAX,
    ensures
        r == start + size,
{
    start + size
}

/// A wake that comes while a CPU still holds the task is delivered when that
/// CPU lets go, and only then; a later one is delivered at once.
pub proof fn lemma_deferred_wake_is_delivered(
    before: TaskInner,
    deferred: TaskInner,
    cpu: u32,
    task: AxTaskRef,
)
    requires
        before.switch_state.on_cpu,
        before.switch_state.deferred_wake is None,
        deferred == (TaskInner {
            switch_state: SwitchState { on_cpu: true, deferred_wake: Some((cpu, task)) },
            ..before
        }),
    ensures
        deferred.switch_state.deferred_wake == Some((cpu, task)),
        deferred.state == before.state,
        ({
            let out = TaskInner {
                switch_state: SwitchState { on_cpu: false, deferred_wake: None },
                ..deferred
            };
            !out.switch_state.on_cpu && out.switch_state.deferred_wake is None
        }),
{
}

/// A stack that is kept is the next one to be used.
pub proof fn lemma_kept_stack_is_reused(kept: Seq<usize>, start: usize)
    ensures
        kept.push(start).last() == start,
        kept.push(start).drop_last() == kept,
{
    assert(kept.push(start).drop_last() =~= kept);
}

} // verus!
