//! Which CPU has which number.
use vstd::prelude::*;

verus! {

/// No hardware identifier.
pub const INVALID_CPU_ID: usize = usize::MAX;

/// The hardware identifiers of the CPUs in the order of their numbers.
pub struct CpuTopology<const CAPACITY: usize> {
    hardware_ids: Vec<usize>,
}

impl<const CAPACITY: usize> CpuTopology<CAPACITY> {
    pub closed spec fn view(&self) -> Seq<usize> {
        self.hardware_ids@
    }

    /// No identifier is there twice, and none is the invalid one.
    pub open spec fn wf(&self) -> bool {
        &&& self@.len() <= CAPACITY
        &&& self@.no_duplicates()
        &&& !self@.contains(INVALID_CPU_ID)
    }

    pub fn empty() -> (r: Self)
        ensures
            r@ == Seq::<usize>::empty(),
            r.wf(),
    {
        CpuTopology { hardware_ids: Vec::new() }
    }

    /// Gives a CPU the next number, if it is new and there is room.
    pub fn add_hardware_id(&mut self, hardware_id: usize) -> (r: bool)
        requires
            old(self).wf(),
        ensures
            final(self).wf(),
            r == (hardware_id != INVALID_CPU_ID && old(self)@.len() < CAPACITY && !old(
                self,
            )@.contains(hardware_id)),
            final(self)@ == if r {
                old(self)@.push(hardware_id)
            } else {
                old(self)@
            },
    {
        if hardware_id == INVALID_CPU_ID || self.hardware_ids.len() >= CAPACITY
            || self.logical_cpu_id(hardware_id).is_some() {
            return false;
        }
        self.hardware_ids.push(hardware_id);
        proof {
            let a = old(self)@;
            let b = self@;
            assert forall|i: int, j: int| 0 <= i < b.len() && 0 <= j < b.len() && i != j implies b[i]
                != b[j] by {
                if i == a.len() {
                    assert(a.contains(a[j]));
                } else if j == a.len() {
                    assert(a.contains(a[i]));
                }
            }
            if b.contains(INVALID_CPU_ID) {
                let k = choose|k: int| 0 <= k < b.len() && b[k] == INVALID_CPU_ID;
                assert(a[k] == INVALID_CPU_ID);
            }
        }
        true
    }

    pub fn cpu_count(&self) -> (r: usize)
        ensures
            r == self@.len(),
    {
        self.hardware_ids.len()
    }

    /// The number of a CPU.
    pub fn logical_cpu_id(&self, hardware_id: usize) -> (r: Option<usize>)
        ensures
            match r {
                Some(i) => i < self@.len() && self@[i as int] == hardware_id && forall|k: int|
                    0 <= k < i ==> self@[k] != hardware_id,
                None => !self@.contains(hardware_id),
            },
    {
        let mut i: usize = 0;
        while i < self.hardware_ids.len()
            invariant
                i <= self@.len(),
                self@ == self.hardware_ids@,
                forall|k: int| 0 <= k < i ==> self@[k] != hardware_id,
            decreases self@.len() - i,
        {
            if self.hardware_ids[i] == hardware_id {
                return Some(i);
            }
            i = i + 1;
        }
        None
    }

    /// The hardware identifier of the CPU with a number.
    pub fn hardware_id(&self, cpu_id: usize) -> (r: Option<usize>)
        requires
            self.wf(),
        ensures
            r == if cpu_id < self@.len() {
                Some(self@[cpu_id as int])
            } else {
                None
            },
    {
        if cpu_id < self.hardware_ids.len() {
            Some(self.hardware_ids[cpu_id])
        } else {
            None
        }
    }
}

/// In a topology, numbers and identifiers belong together one by one.
pub proof fn lemma_numbers_are_unique<const CAPACITY: usize>(
    t: CpuTopology<CAPACITY>,
    i: int,
    j: int,
)
    requires
        t.wf(),
        0 <= i < t@.len(),
        0 <= j < t@.len(),
        t@[i] == t@[j],
    ensures
        i == j,
{
}

} // verus!
