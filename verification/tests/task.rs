use pulseos::error::AxError;
use pulseos::task::context::{
    EnqueueReason, WaitContext, WaitReason, WakeContext, WakeSource,
};
use pulseos::task::ext::{AxTaskExt, TaskExtMut, TaskExtRef, TaskExtSwitch};
use pulseos::task::future::{
    after_pending, before_poll, interruptible, set_current_wait_context, yield_now, AxWaker,
    BlockOnStep, Interrupted, WaitFuture,
};
use pulseos::task::multi_wait::{end_timed_wait, wait_step, BlockStep, MultiWait, WaitStep};
use pulseos::task::poll::{poll_io, poll_io_again, IrqWakers, PollStep};
use pulseos::task::rwlock::{Attempt, RwLock};
use pulseos::task::smp::{set_update_hook, update_vdso_data, CpuBoot, SecondaryStart, UpdateHook};
use pulseos::task::state::{
    release_stack, stack_source, stack_top, CurrentTask, StackSource, TaskId, TaskIdCounter, TaskInner,
    TaskStackCache, TaskState,
};
use pulseos::task::time::TimeValue;
use pulseos::task::timer_runtime::{timeout, timeout_at, Elapsed, TimerRuntime};
use pulseos::task::timers::{TimerAction, Timers};
use pulseos::task::trace::{
    phase_marker, sched_switch, task_block, task_enqueue, task_exit, task_metadata, task_wake,
    PhaseBoundary,
};
use pulseos::task::wait_queue::{WaitQueue, Wake, WakerEntry};

fn tasks(n: usize) -> Vec<TaskInner> {
    let mut counter = TaskIdCounter::new();
    (0..n)
        .map(|i| TaskInner::new(&mut counter, format!("T{}", i), u64::MAX))
        .collect()
}

fn waiting(wq: &mut WaitQueue, tasks: &mut Vec<TaskInner>, t: usize) {
    tasks[t].set_state(TaskState::Blocked);
    tasks[t].set_in_wait_queue(true);
    wq.push(t);
}

#[test]
fn draining_expired_timers_does_not_invoke_wakers() {
    let zero = TimeValue::from_nanos(0);
    let mut runtime = TimerRuntime::new();
    assert_eq!(runtime.add(zero, zero), None);
    let later = TimeValue::from_nanos(5);
    let key = runtime.add(later, zero).unwrap();
    assert!(!runtime.poll(&key, 42));

    let expired = runtime.drain_expired(later);
    assert_eq!(expired.len(), 1);
    assert_eq!(expired, vec![42]);
    assert!(runtime.poll(&key, 42));
}

#[test]
fn timers_go_off_in_order() {
    let at = TimeValue::from_nanos;
    let mut runtime = TimerRuntime::new();
    let late = runtime.add(at(30), at(0)).unwrap();
    let early = runtime.add(at(10), at(0)).unwrap();
    let gone = runtime.add(at(20), at(0)).unwrap();
    runtime.poll(&late, 3);
    runtime.poll(&early, 1);
    runtime.poll(&gone, 2);
    assert_eq!(runtime.next_deadline(), Some(at(10)));
    runtime.cancel(&gone);
    assert!(runtime.drain_expired(at(9)).is_empty());
    assert_eq!(runtime.drain_expired(at(30)), vec![1, 3]);
    assert_eq!(runtime.next_deadline(), None);
    assert_eq!(timeout(Some(at(5)), at(7)), Some(at(12)));
    assert_eq!(timeout(None, at(7)), None);
    let end = TimeValue { secs: u64::MAX, subsec: 999_999_999 };
    assert_eq!(timeout(Some(end), at(1)), None);
    assert_eq!(timeout_at(Some(4), true), Some(Ok(4)));
    assert_eq!(timeout_at::<u8>(None, true), Some(Err(Elapsed)));
    assert_eq!(timeout_at::<u8>(None, false), None);
    assert_eq!(Elapsed.to_ax_error(), AxError::TimedOut);
}

#[test]
fn test_poll_io_registers_before_recheck() {
    let mut ready = false;
    let mut registrations = 0;
    let attempt = |ready: bool| if ready { Ok(7) } else { Err(AxError::WouldBlock) };
    let result = match poll_io(attempt(ready), false) {
        PollStep::Ready(r) => Some(r),
        PollStep::Register => {
            registrations += 1;
            ready = true;
            poll_io_again(attempt(ready))
        }
    };

    assert_eq!(result, Some(Ok(7)));
    assert_eq!(registrations, 1);
}

#[test]
fn polling_waits_only_where_it_would_block() {
    assert!(matches!(
        poll_io::<u8>(Err(AxError::WouldBlock), true),
        PollStep::Ready(Err(AxError::WouldBlock))
    ));
    assert!(matches!(poll_io::<u8>(Err(AxError::Io), false), PollStep::Ready(Err(AxError::Io))));
    assert_eq!(poll_io_again::<u8>(Err(AxError::WouldBlock)), None);
    assert_eq!(poll_io_again::<u8>(Err(AxError::Io)), Some(Err(AxError::Io)));
}

#[test]
fn test_wait_queue() {
    const NUM_TASKS: usize = 10;
    let mut all = tasks(NUM_TASKS + 1);
    let main = NUM_TASKS;
    let mut wq1 = WaitQueue::new();
    let mut wq2 = WaitQueue::with_capacity(NUM_TASKS);

    let mut counter = 0;
    for t in 0..NUM_TASKS {
        waiting(&mut wq1, &mut all, main);
        counter += 1;
        assert_eq!(wq1.notify_one(&mut all), Wake::Task { task: main });
        assert!(!all[main].in_wait_queue());
        waiting(&mut wq2, &mut all, t);
    }
    assert_eq!(counter, NUM_TASKS);
    assert_eq!(wq2.len(), NUM_TASKS);

    let (woken, wakers) = wq2.notify_all(&mut all);
    assert_eq!(woken, (0..NUM_TASKS).collect::<Vec<_>>());
    assert!(wakers.is_empty());
    assert!(wq2.is_empty());
    for t in woken {
        assert!(!all[t].in_wait_queue());
        counter -= 1;
    }
    assert_eq!(counter, 0);
}

#[test]
fn test_task_join() {
    const NUM_TASKS: usize = 10;
    let mut all = tasks(NUM_TASKS);
    for i in 0..NUM_TASKS {
        assert_eq!(all[i].try_join(), None);
        all[i].notify_exit(i as i32);
        all[i].set_state(TaskState::Exited);
    }

    for i in 0..NUM_TASKS {
        assert_eq!(all[i].try_join(), Some(i as i32));
    }
}

#[test]
fn one_notification_wakes_one_waiter() {
    let mut all = tasks(4);
    let mut wq = WaitQueue::new();
    assert_eq!(wq.notify_one(&mut all), Wake::Nobody);
    wq.push(0);
    all[0].set_in_wait_queue(true);
    all[1].set_state(TaskState::Running);
    all[1].set_in_wait_queue(true);
    wq.push(1);
    waiting(&mut wq, &mut all, 2);
    assert_eq!(wq.notify_one(&mut all), Wake::Running { task: 1 });
    assert!(!all[0].in_wait_queue());
    assert!(!all[1].in_wait_queue());
    assert_eq!(wq.len(), 1);
    assert_eq!(wq.notify_one(&mut all), Wake::Task { task: 2 });
    let mut ids = 1;
    let id = wq.register_waker(9, 4, &mut ids);
    assert_eq!(wq.register_waker(8, 4, &mut ids), id);
    assert_eq!(
        wq.notify_one(&mut all),
        Wake::Waker { entry: WakerEntry { id, task_id: 4, waker: 8 } }
    );
    assert_eq!(wq.notify_one(&mut all), Wake::Nobody);
}

#[test]
fn tasks_leave_and_change_queues() {
    let mut all = tasks(4);
    let mut a = WaitQueue::new();
    let mut b = WaitQueue::new();
    for t in 0..4 {
        waiting(&mut a, &mut all, t);
    }
    assert_eq!(a.requeue(2, &mut b), 2);
    assert_eq!(b.position(1), Some(1));
    assert_eq!(a.requeue(9, &mut b), 2);
    assert!(a.is_empty());
    assert!(b.notify_task(2, &mut all));
    assert!(!b.notify_task(2, &mut all));
    assert!(!b.lists(2));
    all[0].set_state(TaskState::Exited);
    b.prune_exited(&all);
    assert_eq!(b.len(), 2);
    all[1].set_timer_ticket(5);
    b.cancel_events(1, &mut all, true);
    assert_eq!(all[1].timer_ticket(), 0);
    assert!(!all[1].in_wait_queue());
    assert_eq!(b.len(), 1);
    b.enroll(3);
    assert_eq!(b.len(), 1);
}

#[test]
fn timed_wait_tells_timeout_from_wake() {
    let mut all = tasks(1);
    let mut wq = WaitQueue::new();
    waiting(&mut wq, &mut all, 0);
    assert!(end_timed_wait(&mut wq, 0, &mut all));
    waiting(&mut wq, &mut all, 0);
    wq.notify_one(&mut all);
    assert!(!end_timed_wait(&mut wq, 0, &mut all));
    assert_eq!(wait_step(true, true), WaitStep::Done { timeout: true });
    assert_eq!(wait_step(false, true), WaitStep::Done { timeout: false });
    assert_eq!(wait_step(false, false), WaitStep::Block);
}

#[test]
fn waiting_in_several_queues_tells_which_woke() {
    let mut all = tasks(1);
    all[0].set_state(TaskState::Running);
    let mut queues = vec![WaitQueue::new(), WaitQueue::new(), WaitQueue::new()];
    let mut wait = MultiWait::new(0, vec![2, 1], true);
    assert_eq!(wait.wait_context(77).resource_id, 77);
    assert_eq!(wait.wait_context(77).resource_detail, 2);
    all[0].set_timer_ticket(9);
    assert!(!wait.first_check(false, false, &mut queues, &mut all));
    assert!(queues[2].lists(0) && queues[1].lists(0) && !queues[0].lists(0));
    assert_eq!(wait.second_check(false, &mut all), BlockStep::Resched);
    assert!(!wait.after_block(&queues));
    assert_eq!(queues[1].notify_one(&mut all), Wake::Task { task: 0 });
    assert!(wait.after_block(&queues));
    assert_eq!(wait.finish(&mut queues, &mut all), Ok(1));
    assert!(!queues[2].lists(0));
    assert!(!all[0].in_wait_queue());
    assert_eq!(all[0].timer_ticket(), 0);
}

#[test]
fn entry_taken_before_blocking_is_seen() {
    let mut all = tasks(1);
    all[0].set_state(TaskState::Running);
    let mut queues = vec![WaitQueue::new()];
    let mut wait = MultiWait::new(0, vec![0], false);
    assert!(!wait.first_check(true, false, &mut queues, &mut all));
    assert_eq!(queues[0].notify_one(&mut all), Wake::Running { task: 0 });
    assert_eq!(wait.second_check(false, &mut all), BlockStep::GoOn);
    assert_eq!(all[0].state(), TaskState::Running);
    assert!(wait.after_block(&queues));
    assert_eq!(wait.finish(&mut queues, &mut all), Ok(0));
}

#[test]
fn wait_in_several_queues_ends_by_time_or_condition() {
    let mut all = tasks(1);
    let mut queues = vec![WaitQueue::new()];
    let mut late = MultiWait::new(0, vec![0], true);
    assert!(late.first_check(true, true, &mut queues, &mut all));
    assert_eq!(late.finish(&mut queues, &mut all), Err(true));
    let mut met = MultiWait::new(0, vec![0], true);
    assert!(!met.first_check(false, false, &mut queues, &mut all));
    assert_eq!(met.second_check(true, &mut all), BlockStep::Finish);
    assert_eq!(met.finish(&mut queues, &mut all), Err(false));
    assert!(queues[0].is_empty());
}

#[test]
fn reasons_and_sources_have_their_numbers() {
    assert_eq!(WaitReason::WaitQueue.number(), 1);
    assert_eq!(WaitReason::FutexWaitV.number(), 9);
    assert_eq!(WaitReason::NetworkPoll.number(), 16);
    assert_eq!(WakeSource::Unknown.number(), 0);
    assert_eq!(WakeSource::Interrupt.number(), 7);
    assert_eq!(EnqueueReason::Spawn.number(), 1);
    assert_eq!(EnqueueReason::WorkSteal.number(), 7);
    assert_eq!(WakeContext::unknown(), WakeContext::new(WakeSource::Unknown, 0));
    assert_eq!(WakeContext::task().source(), WakeSource::Task);
    assert_eq!(WakeContext::task().source_id(), 0);
    let c = WaitContext::new(WaitReason::Sleep, 2, 3);
    assert_eq!((c.reason(), c.resource_id(), c.resource_detail()), (WaitReason::Sleep, 2, 3));
    assert_eq!(WaitQueue::wait_context(5), WaitContext::new(WaitReason::WaitQueue, 5, 0));
}

#[test]
fn markers_carry_their_arguments() {
    let m = task_metadata(1, 2, 3, b"abcdefghi");
    assert_eq!((m.kind, m.arg0, m.arg1, m.arg2), (1, 1, 2, 3));
    assert_eq!(m.arg3, u64::from_le_bytes(*b"abcdefgh"));
    assert_eq!(m.arg4, b'i' as u64);
    let m = phase_marker(PhaseBoundary::End, b"0123456789abcdefXX", None);
    assert_eq!((m.kind, m.arg0, m.arg1, m.arg4), (7, 2, 0, 0));
    assert_eq!(m.arg3, u64::from_le_bytes(*b"89abcdef"));
    assert_eq!(phase_marker(PhaseBoundary::Begin, b"", Some(9)).arg1, 9);
    let m = sched_switch(1, 2, 3);
    assert_eq!((m.kind, m.arg0, m.arg1, m.arg2), (2, 1, 2, 3));
    let m = task_block(1, 5, WaitContext::new(WaitReason::Mutex, 6, 7));
    assert_eq!((m.kind, m.arg1, m.arg2, m.arg3, m.arg4), (3, 5, 5, 6, 7));
    let m = task_wake(1, 5, None, WakeContext::new(WakeSource::Timer, 8));
    assert_eq!((m.kind, m.arg2, m.arg3, m.arg4), (4, 0, 2, 8));
    assert_eq!(task_exit(4).arg0, 4);
    let m = task_enqueue(1, 2, 3, 4, EnqueueReason::Yield);
    assert_eq!((m.kind, m.arg1, m.arg2, m.arg3, m.arg4), (6, 2, 3, 4, 4));
}

#[test]
fn task_ids_count_up() {
    let mut counter = TaskIdCounter::new();
    assert_eq!(TaskId::new(&mut counter).as_u64(), 1);
    let a = TaskInner::new(&mut counter, "a".to_string(), 1);
    let b = TaskInner::new_init(&mut counter, "b".to_string(), 1);
    assert_eq!((a.id().as_u64(), b.id().as_u64()), (2, 3));
    let none = TaskInner::try_new(&mut counter, "c".to_string(), 1, None);
    assert!(matches!(none, Err(AxError::NoMemory)));
    match TaskInner::try_new(&mut counter, "d".to_string(), 1, Some(0x8000)) {
        Ok(d) => assert_eq!(d.id().as_u64(), 5),
        Err(_) => panic!("no task"),
    }
}

#[test]
fn task_states_change_by_their_rules() {
    let mut t = tasks(1).remove(0);
    assert!(t.is_ready());
    assert!(!t.transition_state(TaskState::Blocked, TaskState::Ready));
    assert!(t.transition_state(TaskState::Ready, TaskState::Running));
    assert!(t.is_running());
    assert_eq!(TaskState::from_number(t.state().number()), TaskState::Running);
    t.set_in_wait_queue(true);
    assert!(t.consume_wait_queue_entry());
    assert!(!t.consume_wait_queue_entry());
    assert_eq!(t.try_join(), None);
    t.notify_exit(3);
    t.set_state(TaskState::Exited);
    assert_eq!(t.try_join(), Some(3));
    assert_eq!(t.name(), "T0".to_string());
    t.set_name("idle");
    assert_eq!(t.name(), "idle".to_string());
    assert_eq!(t.id().as_u64(), 1);
    assert_eq!(t.next_qperf_block_sequence(), 1);
    let mut counter = TaskIdCounter::new();
    let idle = TaskInner::new_init(&mut counter, "idle".to_string(), 1);
    assert!(idle.is_idle && idle.is_init && idle.is_on_cpu());
}

#[test]
fn racing_wake_is_delivered_by_the_cpu_that_lets_go() {
    let mut t = tasks(1).remove(0);
    assert!(!t.defer_wake(2, 0));
    t.claim_on_cpu();
    assert!(t.defer_wake(2, 0));
    assert_eq!(t.finish_switch_out(), Some((2, 0)));
    assert!(!t.is_on_cpu());
    t.claim_on_cpu();
    assert_eq!(t.finish_switch_out(), None);
    t.set_cpu_id(3);
    t.set_cpumask(8);
    assert_eq!((t.cpu_id(), t.cpumask()), (3, 8));
}

#[test]
fn preemption_waits_for_the_last_guard() {
    let mut t = tasks(1).remove(0);
    t.set_preempt_pending(true);
    assert!(t.check_preempt_pending());
    t.disable_preempt();
    t.disable_preempt();
    assert!(!t.check_preempt_pending());
    assert!(!t.enable_preempt(true));
    assert!(t.can_preempt(1));
    assert!(t.enable_preempt(true));
    t.disable_preempt();
    assert!(!t.enable_preempt(false));
}

#[test]
fn interruptions_are_seen_once() {
    let mut t = tasks(1).remove(0);
    assert_eq!(interruptible(&mut t, 5), Ok(()));
    assert_eq!(t.interrupt(), Some(5));
    assert_eq!(interruptible(&mut t, 5), Err(Interrupted));
    assert_eq!(interruptible(&mut t, 5), Ok(()));
    t.interrupt();
    t.clear_interrupt();
    assert!(!t.poll_interrupt(6));
    assert_eq!(Interrupted.to_ax_error(), AxError::Interrupted);
    assert_eq!(t.cache_block_on_waker(1), Ok(()));
    assert_eq!(t.cache_block_on_waker(2), Err(2));
    assert_eq!(t.take_block_on_waker(), Some(1));
}

#[test]
fn stacks_are_kept_for_the_next_task() {
    let mut cache = TaskStackCache::new();
    assert_eq!(cache.pop(), None);
    assert_eq!(
        stack_source(0x4000, 0x4000, &mut cache),
        StackSource::Allocate { num_pages: 4 }
    );
    assert!(!release_stack(0x1000, 0x4000, 0x4000, &mut cache));
    assert!(release_stack(0x9000, 0x8000, 0x4000, &mut cache));
    assert_eq!(
        stack_source(0x8000, 0x4000, &mut cache),
        StackSource::Allocate { num_pages: 8 }
    );
    assert_eq!(
        stack_source(0x4000, 0x4000, &mut cache),
        StackSource::Cached { start: 0x1000 }
    );
    for i in 0..8 {
        assert!(cache.push(i));
    }
    assert!(!cache.push(9));
    assert_eq!(cache.pop(), Some(7));
    assert_eq!(stack_top(0x1000, 0x4000), 0x5000);
    let current = CurrentTask::new(4);
    assert_eq!(*current.as_task_ref(), 4);
    assert!(current.ptr_eq(4) && !current.ptr_eq(5));
}

struct Data(u32);

impl TaskExtSwitch for Data {}

#[test]
fn data_is_attached_once() {
    let mut ext = AxTaskExt::empty();
    assert!(ext.is_empty());
    assert!(!ext.on_enter());
    assert!(ext.init_task_ext(Data(233)));
    assert!(!ext.init_task_ext(Data(0xdead)));
    assert_eq!(ext.task_ext().0, 233);
    assert!(ext.on_enter() && ext.on_leave());
    ext.task_ext_mut().0 = 5;
    assert_eq!(ext.task_ext_opt().map(|d| d.0), Some(5));
    assert_eq!(ext.as_ptr().map(|d| d.0), Some(5));
    assert!(ext.task_ext_mut_opt().is_some());
    let mut unit = AxTaskExt::empty();
    assert!(!unit.write(()));
    assert!(unit.is_empty());
}

#[test]
fn blocked_task_is_woken_by_its_own_wakers_only() {
    let mut all = tasks(1);
    let mut waker = AxWaker::new(0);
    assert_eq!(waker.task(), 0);
    before_poll(&mut waker, &mut all[0]);
    assert_eq!(
        after_pending(&waker, &mut all[0], 5),
        BlockOnStep::Block { context: WaitContext::new(WaitReason::Future, 5, 0) }
    );
    assert!(waker.wake_by_ref(true));
    assert_eq!(after_pending(&waker, &mut all[0], 5), BlockOnStep::PollAgain);
    before_poll(&mut waker, &mut all[0]);
    let context = WaitContext::new(WaitReason::Futex, 1, 2);
    set_current_wait_context(Some(0), &mut all, context);
    assert_eq!(after_pending(&waker, &mut all[0], 5), BlockOnStep::Block { context });
    set_current_wait_context(None, &mut all, context);
    assert!(!waker.wake_by_ref(false));
    waker.deactivate();
    assert!(!waker.wake_by_ref(true));
    let mut y = yield_now();
    assert!(!y.poll());
    assert!(y.poll());
}

#[test]
fn waiting_future_completes_by_notification_alone() {
    let mut all = tasks(1);
    let mut wq = WaitQueue::new();
    let mut ids = 1;
    let mut f = WaitFuture::new();
    assert!(!f.poll(&mut wq, 7, 1, &mut ids, false));
    assert!(!f.poll(&mut wq, 8, 1, &mut ids, false));
    assert_eq!(ids, 2);
    assert_eq!(
        wq.notify_one(&mut all),
        Wake::Waker { entry: WakerEntry { id: 1, task_id: 1, waker: 8 } }
    );
    assert!(f.poll(&mut wq, 8, 1, &mut ids, true));
    let mut g = WaitFuture::new();
    g.poll(&mut wq, 7, 1, &mut ids, false);
    g.cancel(&mut wq);
    assert_eq!(wq.notify_one(&mut all), Wake::Nobody);
    let owned = wq.register_owned_waker(3, 1, &mut ids);
    wq.update_registered_waker(&owned, 4);
    assert_eq!(wq.notify_all(&mut all).1[0].waker, 4);
    wq.unregister_waker(owned);
}

#[test]
fn timer_of_a_cpu_is_set_for_what_comes_first() {
    let mut all = tasks(2);
    let mut tickets = 1;
    let mut timers = Timers::init(1000, 1_000_000);
    assert_eq!(timers.next_deadline(), None);
    assert_eq!(timers.reprogram_timer(1000), Some(2000));
    assert_eq!(timers.reprogram_timer_internal(true, 4500), Some(5000));
    let at = TimeValue::from_nanos;
    timers.set_alarm_wakeup(at(4800), 0, &mut all, &mut tickets);
    timers.set_alarm_wakeup(at(4700), 1, &mut all, &mut tickets);
    timers.set_generic_timer(at(4600), 33);
    assert_eq!(timers.next_deadline(), Some(at(4600)));
    assert_eq!(timers.reprogram_timer(4500), Some(4600));
    assert_eq!(timers.reprogram_timer(4900), Some(4900));
    let alive = vec![true, true];
    assert_eq!(timers.check_event(at(4500), &all, &alive), None);
    assert_eq!(
        timers.check_event(at(4700), &all, &alive),
        Some(TimerAction::Run { callback: 33 })
    );
    all[0].timer_ticket_expired();
    assert_eq!(
        timers.check_event(at(4800), &all, &alive),
        Some(TimerAction::Unblock { task: 1 })
    );
    assert_eq!(timers.check_event(at(4800), &all, &alive), Some(TimerAction::Stale));
    assert_eq!(timers.check_event(at(9999), &all, &alive), None);
}

#[test]
fn raised_lines_wake_their_wakers_later() {
    let mut irqs = IrqWakers::new();
    assert!(irqs.ensure_drain_task());
    assert!(!irqs.ensure_drain_task());
    assert!(!irqs.irq_hook(5));
    assert_eq!(irqs.register_irq_waker(5, 50), (50, true));
    assert_eq!(irqs.register_irq_waker(3, 30), (30, true));
    assert_eq!(irqs.register_irq_waker(5, 99), (50, false));
    assert!(!irqs.any_pending());
    assert!(irqs.irq_hook(5));
    assert!(irqs.irq_hook(3));
    assert!(irqs.any_pending());
    assert_eq!(irqs.drain(), vec![30, 50]);
    assert!(irqs.drain().is_empty());
}

#[test]
fn lock_has_many_readers_or_one_writer() {
    let mut lock = RwLock::new();
    assert_eq!(lock.read(), Attempt::Acquired);
    assert!(lock.try_read());
    assert!(!lock.try_write());
    assert_eq!(lock.write(), Attempt::Wait);
    assert!(!lock.try_read());
    assert!(!lock.reader_may_go());
    assert!(!lock.read_unlock());
    assert!(lock.read_unlock());
    assert!(lock.writer_may_go());
    assert_eq!(lock.write_again(), Attempt::Acquired);
    assert_eq!(lock.read(), Attempt::Wait);
    lock.write_unlock();
    assert_eq!(lock.write(), Attempt::Acquired);
    assert_eq!(lock.write(), Attempt::Wait);
    assert_eq!(lock.write_again(), Attempt::Wait);
}

#[test]
fn other_cpus_are_started_in_turn() {
    let mut start = SecondaryStart::new(1, 4, 3);
    assert_eq!(start.next_cpu(), Some((0, 0)));
    assert!(start.started(0, CpuBoot::Started));
    assert_eq!(start.next_cpu(), Some((2, 1)));
    assert!(!start.started(2, CpuBoot::Failed));
    assert_eq!(start.booted, 1);
    assert_eq!(start.next_cpu(), None);
    let mut start = SecondaryStart::new(0, 4, 8);
    assert_eq!(start.next_cpu(), Some((1, 0)));
    assert!(start.started(1, CpuBoot::AlreadyOn));
    assert_eq!(start.next_cpu(), Some((2, 1)));
    assert!(!start.started(2, CpuBoot::NotSupported));
    assert_eq!(start.next_cpu(), None);
    let mut hook = UpdateHook::new();
    assert_eq!(update_vdso_data(&hook), None);
    set_update_hook(&mut hook, 0x1234);
    assert_eq!(update_vdso_data(&hook), Some(0x1234));
}
