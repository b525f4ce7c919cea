//! Starting the other CPUs, and refreshing data that processes read.
use vstd::prelude::*;

verus! {

/// How starting a CPU ends.
#[derive(Clone, Copy, Debug, PartialEq, Eq, Structural)]
pub enum CpuBoot {
    Started,
    AlreadyOn,
    NotSupported,
    Failed,
}

/// The start of the other CPUs, one after the other.
#[derive(Clone, Copy, Debug, PartialEq, Eq, Structural)]
pub struct SecondaryStart {
    pub primary: u64,
    pub cpu_num: u64,
    /// How many stacks there are for other CPUs.
    pub stacks: u64,
    /// The next CPU.
    pub next: u64,
    /// The next stack.
    pub stack_slot: u64,
    /// The CPUs that were started, by bits.
    pub booted: u64,
    /// Whether no more CPUs are started.
    pub complete: bool,
}

/// The first CPU from `i` on that is not the primary one.
pub open spec fn other_cpu(i: u64, primary: u64) -> u64 {
    if i == primary {
        (i + 1) as u64
    } else {
        i
    }
}

impl SecondaryStart {
    pub open spec fn wf(self) -> bool {
        self.cpu_num <= 64 && self.next <= self.cpu_num
    }

    /// Whether there is another CPU to start and a stack for it.
    pub open spec fn has_next(self) -> bool {
        &&& !self.complete
        &&& other_cpu(self.next, self.primary) < self.cpu_num
        &&& self.stack_slot < self.stacks
    }

    pub fn new(primary: u64, cpu_num: u64, max_cpu_num: u64) -> (r: Self)
        requires
            cpu_num <= 64,
            max_cpu_num > 0,
        ensures
            r.wf(),
            r == (SecondaryStart {
                primary,
                cpu_num,
                stacks: (max_cpu_num - 1) as u64,
                next: 0,
                stack_slot: 0,
                booted: 0,
                complete: false,
            }),
    {
        SecondaryStart {
            primary,
            cpu_num,
            stacks: max_cpu_num - 1,
            next: 0,
            stack_slot: 0,
            booted: 0,
            complete: false,
        }
    }

    /// The next CPU to start and its stack; it counts as started until that
    /// fails. None where all are done.
    pub fn next_cpu(&mut self) -> (r: Option<(u64, u64)>)
        requires
            old(self).wf(),
        ensures
            final(self).wf(),
            ({
                let cpu = other_cpu(old(self).next, old(self).primary);
                if old(self).has_next() {
                    &&& r == Some((cpu, old(self).stack_slot))
                    &&& *final(self) == (SecondaryStart {
                        next: (cpu + 1) as u64,
                        stack_slot: (old(self).stack_slot + 1) as u64,
                        booted: old(self).booted | (1u64 << cpu),
                        ..*old(self)
                    })
                } else {
                    &&& r is None
                    &&& *final(self) == (SecondaryStart { complete: true, ..*old(self) })
                }
            }),
    {
        let cpu: u64 = if self.next == self.primary {
            self.next + 1
        } else {
            self.next
        };
        if self.complete || cpu >= self.cpu_num || self.stack_slot >= self.stacks {
            self.complete = true;
            return None;
        }
        let slot: u64 = self.stack_slot;
        self.next = cpu + 1;
        self.stack_slot = slot + 1;
        self.booted = self.booted | (1u64 << cpu);
        Some((cpu, slot))
    }

    /// Starting a CPU ended so; tells whether to wait until it has entered. A
    /// CPU that did not start does not count, and where starting is not
    /// supported no other CPU is tried.
    pub fn started(&mut self, cpu: u64, result: CpuBoot) -> (wait: bool)
        requires
            old(self).wf(),
            cpu < 64,
        ensures
            final(self).wf(),
            wait == (result == CpuBoot::Started || result == CpuBoot::AlreadyOn),
            *final(self) == if wait {
                *old(self)
            } else {
                SecondaryStart {
                    booted: old(self).booted & !(1u64 << cpu),
                    complete: old(self).complete || result == CpuBoot::NotSupported,
                    ..*old(self)
                }
            },
    {
        match result {
            CpuBoot::Started | CpuBoot::AlreadyOn => true,
            CpuBoot::NotSupported => {
                self.booted = self.booted & !(1u64 << cpu);
                self.complete = true;
                false
            },
            CpuBoot::Failed => {
                self.booted = self.booted & !(1u64 << cpu);
                false
            },
        }
    }
}

/// A CPU that did not start is not among those that did, and the others stay.
pub proof fn lemma_failed_cpu_is_not_booted(booted: u64, cpu: u64, other: u64)
    requires
        cpu < 64,
        other < 64,
        other != cpu,
    ensures
        (booted | (1u64 << cpu)) & !(1u64 << cpu) & (1u64 << cpu) == 0,
        ((booted | (1u64 << cpu)) & !(1u64 << cpu)) & (1u64 << other) == booted & (1u64 << other),
{
    assert((booted | (1u64 << cpu)) & !(1u64 << cpu) & (1u64 << cpu) == 0 && ((booted | (1u64
        << cpu)) & !(1u64 << cpu)) & (1u64 << other) == booted & (1u64 << other)) by (bit_vector)
        requires
            cpu < 64,
            other < 64,
            other != cpu,
    ;
}

/// The function that refreshes data which processes read; zero is none.
pub struct UpdateHook {
    hook: usize,
}

impl UpdateHook {
    pub closed spec fn view(&self) -> usize {
        self.hook
    }

    pub fn new() -> (r: Self)
        ensures
            r@ == 0,
    {
        UpdateHook { hook: 0 }
    }
}

/// Installs the function that a timer interrupt calls.
pub fn set_update_hook(state: &mut UpdateHook, hook: usize)
    ensures
        final(state)@ == hook,
{
    state.hook = hook;
}

/// The function to call, if one was installed.
pub fn update_vdso_data(state: &UpdateHook) -> (r: Option<usize>)
    ensures
        r == if state@ == 0 {
            None
        } else {
            Some(state@)
        },
{
    if state.hook == 0 {
        None
    } else {
        Some(state.hook)
    }
}

/// The CPU that boots is never started again, and all others have their turn.
pub proof fn lemma_others_have_their_turn(i: u64, primary: u64)
    requires
        i < u64::MAX,
    ensures
        other_cpu(i, primary) != primary,
        i != primary ==> other_cpu(i, primary) == i,
        i == primary ==> other_cpu(i, primary) == primary + 1,
{
}

} // verus!
