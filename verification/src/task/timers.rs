//! The timers of a CPU: its tick, alarms of tasks, and callbacks.
use vstd::prelude::*;
use vstd::multiset::Multiset;

use core::time::Duration;
use timer_list::{TimerEvent, TimerList};

use super::state::{AxTaskRef, TaskInner};
use super::time::{NANOS_PER_SEC, TimeValue};

verus! {

/// What happens when a timer goes off.
#[derive(Clone, Copy, Debug, PartialEq, Eq, Structural)]
pub enum AxTimerEvent {
    /// A task is woken, if it still waits for the timer with this ticket.
    TaskWakeup { ticket_id: u64, task: AxTaskRef },
    /// A callback runs.
    Generic { callback: u64 },
}

impl TimerEvent for AxTimerEvent {
    /// Nothing: an event is handed out, and then acted on.
    fn callback(self, _now: Duration) {
    }
}

/// The events that have not happened, by their times.
#[verifier::external_body]
pub struct EventList {
    inner: TimerList<AxTimerEvent>,
}

/// The events in a list, each with its time in nanoseconds.
pub uninterp spec fn pending_events(list: EventList) -> Multiset<(int, AxTimerEvent)>;

pub open spec fn no_events() -> Multiset<(int, AxTimerEvent)> {
    Multiset::empty()
}

/// Whether an event is there at `t`, and none before.
pub open spec fn is_earliest(events: Multiset<(int, AxTimerEvent)>, t: int) -> bool {
    &&& exists|e: AxTimerEvent| #[trigger] events.count((t, e)) > 0
    &&& forall|u: int, e: AxTimerEvent| #[trigger] events.count((u, e)) > 0 ==> t <= u
}

/// Whether all events are after `t`.
pub open spec fn all_after(events: Multiset<(int, AxTimerEvent)>, t: int) -> bool {
    forall|u: int, e: AxTimerEvent| #[trigger] events.count((u, e)) > 0 ==> t < u
}

/// `timer_list::TimerList::new`: a list without events.
#[verifier::external_body]
fn new_list() -> (r: EventList)
    ensures
        pending_events(r) == no_events(),
{
    EventList { inner: TimerList::new() }
}

/// `timer_list::TimerList::set`: the event is in the list with its time.
#[verifier::external_body]
fn set_event(list: &mut EventList, deadline: TimeValue, event: AxTimerEvent)
    requires
        deadline.wf(),
    ensures
        pending_events(*final(list)) == pending_events(*old(list)).insert(
            (deadline.nanos(), event),
        ),
{
    list.inner.set(Duration::new(deadline.secs, deadline.subsec), event);
}

/// `timer_list::TimerList::next_deadline`: the earliest time in the list, and
/// none exactly where the list is empty.
#[verifier::external_body]
fn earliest(list: &EventList) -> (r: Option<TimeValue>)
    ensures
        match r {
            Some(t) => t.wf() && is_earliest(pending_events(*list), t.nanos()),
            None => pending_events(*list) == no_events(),
        },
{
    list.inner.next_deadline().map(|d| TimeValue { secs: d.as_secs(), subsec: d.subsec_nanos() })
}

/// `timer_list::TimerList::expire_one`: takes an event with the earliest time
/// out of the list, if that time is not after `now`. Which of the events at that
/// time it is stays open.
#[verifier::external_body]
fn expire_one(list: &mut EventList, now: TimeValue) -> (r: Option<(TimeValue, AxTimerEvent)>)
    requires
        now.wf(),
    ensures
        match r {
            Some((t, e)) => {
                &&& t.wf()
                &&& t.nanos() <= now.nanos()
                &&& is_earliest(pending_events(*old(list)), t.nanos())
                &&& pending_events(*old(list)).count((t.nanos(), e)) > 0
                &&& pending_events(*final(list)) == pending_events(*old(list)).remove(
                    (t.nanos(), e),
                )
            },
            None => {
                &&& pending_events(*final(list)) == pending_events(*old(list))
                &&& all_after(pending_events(*final(list)), now.nanos())
            },
        },
{
    let event = list.inner.expire_one(Duration::new(now.secs, now.subsec));
    event.map(|(d, e)| (TimeValue { secs: d.as_secs(), subsec: d.subsec_nanos() }, e))
}

/// What is done about a timer that went off.
#[derive(Clone, Copy, Debug, PartialEq, Eq, Structural)]
pub enum TimerAction {
    /// A task goes to a run queue.
    Unblock { task: AxTaskRef },
    /// A callback runs.
    Run { callback: u64 },
    /// Nothing: the task no longer waits for this timer.
    Stale,
}

/// The timers of a CPU.
pub struct Timers {
    list: EventList,
    next_tick: u64,
    interval: u64,
}

/// How long a tick is.
pub open spec fn tick_interval(ticks_per_sec: u64) -> int {
    (NANOS_PER_SEC / ticks_per_sec) as int
}

/// The tick after `now`, of those that come every `interval` from `tick` on.
pub open spec fn tick_after(tick: u64, now: u64, interval: u64) -> int {
    if now >= tick {
        tick + ((now - tick) / (interval as int) + 1) * interval
    } else {
        tick as int
    }
}

/// When the timer of a CPU is to go off: at its tick, or at the earliest event
/// if that is before, but not before now. A tick at the end of time is none.
pub open spec fn alarm(tick: int, event: Option<u64>, now: u64) -> Option<u64> {
    let t = match event {
        Some(e) => if e < tick {
            e as int
        } else {
            tick
        },
        None => tick,
    };
    if t == u64::MAX {
        None
    } else if t < now {
        Some(now)
    } else {
        Some(t as u64)
    }
}

/// The tick after `now` comes after it, and at most one interval after it or at
/// the time it was to come.
pub proof fn lemma_tick_after(tick: u64, now: u64, interval: u64)
    requires
        interval > 0,
    ensures
        tick_after(tick, now, interval) > now,
        now >= tick ==> tick_after(tick, now, interval) <= now + interval,
        now < tick ==> tick_after(tick, now, interval) == tick,
        (tick_after(tick, now, interval) - tick) % (interval as int) == 0,
{
    if now >= tick {
        let d = now - tick;
        let p = interval as int;
        let q = d / p;
        assert(d == q * p + d % p && 0 <= d % p < p) by (nonlinear_arith)
            requires
                p > 0,
                q == d / p,
        ;
        assert((q + 1) * p == q * p + p) by (nonlinear_arith);
        assert(((q + 1) * p) % p == 0) by (nonlinear_arith)
            requires
                p > 0,
        ;
    } else {
        assert(0int % (interval as int) == 0) by (nonlinear_arith)
            requires
                interval > 0,
        ;
    }
}

/// The timer goes off at the tick or at the earliest event, whichever is first,
/// or at once if that is past.
pub proof fn lemma_alarm_is_the_first(tick: u64, event: Option<u64>, now: u64)
    ensures
        match alarm(tick as int, event, now) {
            Some(t) => {
                &&& t >= now
                &&& t > now ==> t <= tick && (t == tick || event == Some(t))
                &&& t > now && event is Some ==> t <= event->0
                &&& t == now ==> tick <= now || (event is Some && event->0 <= now)
            },
            None => tick == u64::MAX && (event is None || event == Some(u64::MAX)),
        },
{
}

/// A task that waits for a timer is woken by it.
pub proof fn lemma_timer_wakes_its_task(
    tasks: Seq<TaskInner>,
    alive: Seq<bool>,
    ticket_id: u64,
    task: AxTaskRef,
)
    requires
        task < tasks.len(),
        alive.len() == tasks.len(),
        alive[task as int],
        tasks[task as int].timer_ticket_id == ticket_id,
    ensures
        action_of(AxTimerEvent::TaskWakeup { ticket_id, task }, tasks, alive) == (
        TimerAction::Unblock { task }),
{
}

impl Timers {
    /// The events that have not happened.
    pub closed spec fn events(&self) -> Multiset<(int, AxTimerEvent)> {
        pending_events(self.list)
    }

    pub closed spec fn tick(&self) -> u64 {
        self.next_tick
    }

    pub closed spec fn interval(&self) -> u64 {
        self.interval
    }

    pub open spec fn wf(&self) -> bool {
        0 < self.interval() <= NANOS_PER_SEC
    }

    /// No events; the first tick is one interval from now.
    pub fn init(now: u64, ticks_per_sec: u64) -> (r: Self)
        requires
            1 <= ticks_per_sec <= NANOS_PER_SEC,
            now + tick_interval(ticks_per_sec) <= u64::MAX,
        ensures
            r.wf(),
            r.events() == no_events(),
            r.interval() == tick_interval(ticks_per_sec),
            r.tick() == now + tick_interval(ticks_per_sec),
            r.interval() == 1_000_000_000u64 / ticks_per_sec,
            r.tick() == now + 1_000_000_000u64 / ticks_per_sec,
    {
        assert(1 <= NANOS_PER_SEC / ticks_per_sec <= NANOS_PER_SEC) by (nonlinear_arith)
            requires
                1 <= ticks_per_sec <= NANOS_PER_SEC,
        ;
        let interval: u64 = NANOS_PER_SEC / ticks_per_sec;
        Timers { list: new_list(), next_tick: now + interval, interval }
    }

    /// When the earliest event happens.
    pub fn next_deadline(&self) -> (r: Option<TimeValue>)
        ensures
            match r {
                Some(t) => t.wf() && is_earliest(self.events(), t.nanos()),
                None => self.events() == no_events(),
            },
    {
        earliest(&self.list)
    }

    /// Tells when the timer of the CPU is to go off. On a tick the next one is
    /// found first.
    pub fn reprogram_timer_internal(&mut self, from_tick: bool, now: u64) -> (r: Option<u64>)
        requires
            old(self).wf(),
            now + old(self).interval() <= u64::MAX,
        ensures
            final(self).wf(),
            final(self).events() == old(self).events(),
            final(self).interval() == old(self).interval(),
            final(self).tick() == if from_tick {
                tick_after(old(self).tick(), now, old(self).interval())
            } else {
                old(self).tick() as int
            },
            if old(self).events() == no_events() {
                r == alarm(final(self).tick() as int, None, now)
            } else {
                exists|t: int|
                    #![trigger is_earliest(old(self).events(), t)]
                    is_earliest(old(self).events(), t) && r == alarm(
                        final(self).tick() as int,
                        Some((t % 0x1_0000_0000_0000_0000) as u64),
                        now,
                    )
            },
    {
        if from_tick && now >= self.next_tick {
            proof {
                lemma_tick_after(self.next_tick, now, self.interval);
                assert((now - self.next_tick) / (self.interval as int) <= now - self.next_tick)
                    by (nonlinear_arith)
                    requires
                        self.interval > 0,
                        now >= self.next_tick,
                ;
                assert(((now - self.next_tick) / (self.interval as int) + 1) * self.interval >= 0)
                    by (nonlinear_arith)
                    requires
                        self.interval > 0,
                        now >= self.next_tick,
                ;
            }
            let missed: u64 = (now - self.next_tick) / self.interval + 1;
            self.next_tick = self.next_tick + missed * self.interval;
        }
        let mut deadline: u64 = self.next_tick;
        let next: Option<TimeValue> = earliest(&self.list);
        if let Some(t) = next {
            let event: u64 = t.as_nanos_u64();
            proof {
                assert(is_earliest(old(self).events(), t.nanos()));
                lemma_earliest_exists(old(self).events(), t.nanos());
            }
            if event < deadline {
                deadline = event;
            }
        }
        if deadline == u64::MAX {
            return None;
        }
        if deadline < now {
            deadline = now;
        }
        Some(deadline)
    }

    /// Tells when the timer of the CPU is to go off.
    pub fn reprogram_timer(&mut self, now: u64) -> (r: Option<u64>)
        requires
            old(self).wf(),
            now + old(self).interval() <= u64::MAX,
        ensures
            final(self).wf(),
            final(self).events() == old(self).events(),
            final(self).interval() == old(self).interval(),
            final(self).tick() == old(self).tick(),
            if old(self).events() == no_events() {
                r == alarm(final(self).tick() as int, None, now)
            } else {
                exists|t: int|
                    #![trigger is_earliest(old(self).events(), t)]
                    is_earliest(old(self).events(), t) && r == alarm(
                        final(self).tick() as int,
                        Some((t % 0x1_0000_0000_0000_0000) as u64),
                        now,
                    )
            },
    {
        self.reprogram_timer_internal(false, now)
    }

    /// Lets a timer wake a task, and no other timer. Each alarm has a ticket of
    /// its own.
    pub fn set_alarm_wakeup(
        &mut self,
        deadline: TimeValue,
        task: AxTaskRef,
        tasks: &mut Vec<TaskInner>,
        tickets: &mut u64,
    )
        requires
            deadline.wf(),
            task < old(tasks)@.len(),
            0 < *old(tickets) < u64::MAX,
        ensures
            *final(tickets) == *old(tickets) + 1,
            final(tasks)@ == old(tasks)@.update(
                task as int,
                TaskInner { timer_ticket_id: *old(tickets), ..old(tasks)@[task as int] },
            ),
            final(self).tick() == old(self).tick(),
            final(self).interval() == old(self).interval(),
            final(self).events() == old(self).events().insert(
                (
                    deadline.nanos(),
                    AxTimerEvent::TaskWakeup { ticket_id: *old(tickets), task },
                ),
            ),
    {
        let ticket_id: u64 = *tickets;
        *tickets = ticket_id + 1;
        tasks[task].set_timer_ticket(ticket_id);
        set_event(&mut self.list, deadline, AxTimerEvent::TaskWakeup { ticket_id, task });
    }

    /// Lets a timer run a callback.
    pub fn set_generic_timer(&mut self, deadline: TimeValue, callback: u64)
        requires
            deadline.wf(),
        ensures
            final(self).tick() == old(self).tick(),
            final(self).interval() == old(self).interval(),
            final(self).events() == old(self).events().insert(
                (deadline.nanos(), AxTimerEvent::Generic { callback }),
            ),
    {
        set_event(&mut self.list, deadline, AxTimerEvent::Generic { callback });
    }

    /// Takes an event whose time has come and tells what is done about it; none
    /// where there is no such event. `alive` tells of each task whether it is
    /// still there.
    pub fn check_event(&mut self, now: TimeValue, tasks: &Vec<TaskInner>, alive: &Vec<bool>) -> (r:
        Option<TimerAction>)
        requires
            now.wf(),
            alive@.len() == tasks@.len(),
        ensures
            final(self).tick() == old(self).tick(),
            final(self).interval() == old(self).interval(),
            match r {
                Some(action) => exists|t: int, e: AxTimerEvent|
                    #![trigger old(self).events().count((t, e))]
                    old(self).events().count((t, e)) > 0 && is_earliest(old(self).events(), t) && t
                        <= now.nanos() && final(self).events() == old(self).events().remove((t, e))
                        && action == action_of(e, tasks@, alive@),
                None => final(self).events() == old(self).events() && all_after(
                    old(self).events(),
                    now.nanos(),
                ),
            },
    {
        match expire_one(&mut self.list, now) {
            None => None,
            Some((t, event)) => {
                assert(old(self).events().count((t.nanos(), event)) > 0);
                Some(act(event, tasks, alive))
            },
        }
    }
}

proof fn lemma_earliest_exists(events: Multiset<(int, AxTimerEvent)>, t: int)
    requires
        is_earliest(events, t),
    ensures
        events != no_events(),
{
    let e = choose|e: AxTimerEvent| #[trigger] events.count((t, e)) > 0;
    assert(no_events().count((t, e)) == 0);
}

/// What is done about an event: a task is woken if it is there and waits for
/// this very timer.
pub open spec fn action_of(event: AxTimerEvent, tasks: Seq<TaskInner>, alive: Seq<bool>) -> TimerAction {
    match event {
        AxTimerEvent::TaskWakeup { ticket_id, task } => if task < tasks.len() && alive[task as int]
            && tasks[task as int].timer_ticket_id == ticket_id {
            TimerAction::Unblock { task }
        } else {
            TimerAction::Stale
        },
        AxTimerEvent::Generic { callback } => TimerAction::Run { callback },
    }
}

/// What is done about an event.
pub fn act(event: AxTimerEvent, tasks: &Vec<TaskInner>, alive: &Vec<bool>) -> (r: TimerAction)
    requires
        alive@.len() == tasks@.len(),
    ensures
        r == action_of(event, tasks@, alive@),
{
    match event {
        AxTimerEvent::TaskWakeup { ticket_id, task } => {
            if task < tasks.len() && alive[task] && tasks[task].timer_ticket() == ticket_id {
                TimerAction::Unblock { task }
            } else {
                TimerAction::Stale
            }
        },
        AxTimerEvent::Generic { callback } => TimerAction::Run { callback },
    }
}

/// Once a task's ticket has expired, or it has got another one, the timer that
/// was set before does not wake it.
pub proof fn lemma_old_timer_is_stale(
    tasks: Seq<TaskInner>,
    alive: Seq<bool>,
    ticket_id: u64,
    task: AxTaskRef,
)
    requires
        ticket_id != 0,
        task < tasks.len(),
        tasks[task as int].timer_ticket_id != ticket_id,
    ensures
        action_of(AxTimerEvent::TaskWakeup { ticket_id, task }, tasks, alive) == TimerAction::Stale,
{
}

} // verus!
