//! Why a task waits and what wakes it.
use vstd::prelude::*;

verus! {

/// Why a task leaves the CPU to wait. The numbers are read by tools: new reasons
/// are added at the end.
#[derive(Clone, Copy, Debug, PartialEq, Eq, Structural)]
pub enum WaitReason {
    WaitQueue,
    Future,
    MultiWait,
    Sleep,
    Mutex,
    RwLockRead,
    RwLockWrite,
    Futex,
    FutexWaitV,
    VirtioBlkRead,
    VirtioBlkWrite,
    Gc,
    ChildWait,
    Vfork,
    Signal,
    NetworkPoll,
}

impl WaitReason {
    pub open spec fn spec_number(self) -> u64 {
        match self {
            WaitReason::WaitQueue => 1,
            WaitReason::Future => 2,
            WaitReason::MultiWait => 3,
            WaitReason::Sleep => 4,
            WaitReason::Mutex => 5,
            WaitReason::RwLockRead => 6,
            WaitReason::RwLockWrite => 7,
            WaitReason::Futex => 8,
            WaitReason::FutexWaitV => 9,
            WaitReason::VirtioBlkRead => 10,
            WaitReason::VirtioBlkWrite => 11,
            WaitReason::Gc => 12,
            WaitReason::ChildWait => 13,
            WaitReason::Vfork => 14,
            WaitReason::Signal => 15,
            WaitReason::NetworkPoll => 16,
        }
    }

    pub fn number(self) -> (r: u64)
        ensures
            r == self.spec_number(),
    {
        match self {
            WaitReason::WaitQueue => 1,
            WaitReason::Future => 2,
            WaitReason::MultiWait => 3,
            WaitReason::Sleep => 4,
            WaitReason::Mutex => 5,
            WaitReason::RwLockRead => 6,
            WaitReason::RwLockWrite => 7,
            WaitReason::Futex => 8,
            WaitReason::FutexWaitV => 9,
            WaitReason::VirtioBlkRead => 10,
            WaitReason::VirtioBlkWrite => 11,
            WaitReason::Gc => 12,
            WaitReason::ChildWait => 13,
            WaitReason::Vfork => 14,
            WaitReason::Signal => 15,
            WaitReason::NetworkPoll => 16,
        }
    }
}

/// What a task waits for.
#[derive(Clone, Copy, Debug, PartialEq, Eq, Structural)]
pub struct WaitContext {
    pub reason: WaitReason,
    pub resource_id: u64,
    pub resource_detail: u64,
}

impl WaitContext {
    pub fn new(reason: WaitReason, resource_id: u64, resource_detail: u64) -> (r: Self)
        ensures
            r == (WaitContext { reason, resource_id, resource_detail }),
    {
        WaitContext { reason, resource_id, resource_detail }
    }

    pub fn reason(self) -> (r: WaitReason)
        ensures
            r == self.reason,
    {
        self.reason
    }

    pub fn resource_id(self) -> (r: u64)
        ensures
            r == self.resource_id,
    {
        self.resource_id
    }

    pub fn resource_detail(self) -> (r: u64)
        ensures
            r == self.resource_detail,
    {
        self.resource_detail
    }
}

/// What made a blocked task ready. It is not the task that runs when that
/// happens: devices and timers interrupt any task.
#[derive(Clone, Copy, Debug, PartialEq, Eq, Structural)]
pub enum WakeSource {
    Unknown,
    Task,
    Timer,
    Future,
    Futex,
    Device,
    Signal,
    Interrupt,
}

impl WakeSource {
    pub open spec fn spec_number(self) -> u64 {
        match self {
            WakeSource::Unknown => 0,
            WakeSource::Task => 1,
            WakeSource::Timer => 2,
            WakeSource::Future => 3,
            WakeSource::Futex => 4,
            WakeSource::Device => 5,
            WakeSource::Signal => 6,
            WakeSource::Interrupt => 7,
        }
    }

    pub fn number(self) -> (r: u64)
        ensures
            r == self.spec_number(),
    {
        match self {
            WakeSource::Unknown => 0,
            WakeSource::Task => 1,
            WakeSource::Timer => 2,
            WakeSource::Future => 3,
            WakeSource::Futex => 4,
            WakeSource::Device => 5,
            WakeSource::Signal => 6,
            WakeSource::Interrupt => 7,
        }
    }
}

/// What wakes a task.
#[derive(Clone, Copy, Debug, PartialEq, Eq, Structural)]
pub struct WakeContext {
    pub source: WakeSource,
    pub source_id: u64,
}

impl WakeContext {
    pub fn new(source: WakeSource, source_id: u64) -> (r: Self)
        ensures
            r == (WakeContext { source, source_id }),
    {
        WakeContext { source, source_id }
    }

    pub fn unknown() -> (r: Self)
        ensures
            r == (WakeContext { source: WakeSource::Unknown, source_id: 0 }),
    {
        Self::new(WakeSource::Unknown, 0)
    }

    pub fn task() -> (r: Self)
        ensures
            r == (WakeContext { source: WakeSource::Task, source_id: 0 }),
    {
        Self::new(WakeSource::Task, 0)
    }

    pub fn source(self) -> (r: WakeSource)
        ensures
            r == self.source,
    {
        self.source
    }

    pub fn source_id(self) -> (r: u64)
        ensures
            r == self.source_id,
    {
        self.source_id
    }
}

/// Why a task enters a run queue.
#[derive(Clone, Copy, Debug, PartialEq, Eq, Structural)]
pub enum EnqueueReason {
    Spawn,
    Wake,
    Preempt,
    Yield,
    AffinityMigration,
    DeferredWake,
    WorkSteal,
}

impl EnqueueReason {
    pub open spec fn spec_number(self) -> u64 {
        match self {
            EnqueueReason::Spawn => 1,
            EnqueueReason::Wake => 2,
            EnqueueReason::Preempt => 3,
            EnqueueReason::Yield => 4,
            EnqueueReason::AffinityMigration => 5,
            EnqueueReason::DeferredWake => 6,
            EnqueueReason::WorkSteal => 7,
        }
    }

    pub fn number(self) -> (r: u64)
        ensures
            r == self.spec_number(),
    {
        match self {
            EnqueueReason::Spawn => 1,
            EnqueueReason::Wake => 2,
            EnqueueReason::Preempt => 3,
            EnqueueReason::Yield => 4,
            EnqueueReason::AffinityMigration => 5,
            EnqueueReason::DeferredWake => 6,
            EnqueueReason::WorkSteal => 7,
        }
    }
}

/// No two reasons, sources or ways into a run queue have the same number.
pub proof fn lemma_numbers_tell_apart(
    a: WaitReason,
    b: WaitReason,
    c: WakeSource,
    d: WakeSource,
    e: EnqueueReason,
    f: EnqueueReason,
)
    ensures
        a.spec_number() == b.spec_number() ==> a == b,
        c.spec_number() == d.spec_number() ==> c == d,
        e.spec_number() == f.spec_number() ==> e == f,
{
}

} // verus!
