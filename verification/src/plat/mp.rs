//! Starting further CPUs.
use vstd::prelude::*;

use super::cpu_topology::CpuTopology;
use super::mp_common::{
    in_window, kernel_virt_to_cached_dmw, phys_to_cached_dmw, spec_valid_stack_top, valid_stack_top,
    DMW_CACHED_BASE,
};

verus! {

#[derive(Clone, Copy, Debug, PartialEq, Eq, Structural)]
pub enum CpuBootError {
    InvalidParameter,
    InvalidAddress,
}

/// What a CPU is sent to start.
#[derive(Clone, Copy, Debug, PartialEq, Eq, Structural)]
pub struct CpuStart {
    pub hardware_id: usize,
    /// Goes to the second mailbox.
    pub stack_top: u64,
    /// Goes to the first mailbox, after the stack.
    pub entry: u64,
    /// The action of the interrupt that follows.
    pub action: u32,
}

pub const ACTION_BOOT_CPU: u32 = 1;

/// Whether the stack ends in one of the memory ranges.
pub open spec fn stack_in_ram(stack_top: u64, ram: Seq<(u64, u64)>) -> bool {
    exists|i: int|
        0 <= i < ram.len() && spec_valid_stack_top(
            stack_top,
            (#[trigger] ram[i]).0,
            ram[i].1,
        )
}

/// What starts the CPU with number `cpu_id`.
pub fn start_secondary_cpu<const CAPACITY: usize>(
    cpu_id: usize,
    stack_top: u64,
    topology: &CpuTopology<CAPACITY>,
    ram: &Vec<(u64, u64)>,
    entry: u64,
    phys_virt_offset: u64,
) -> (r: Result<CpuStart, CpuBootError>)
    requires
        topology.wf(),
    ensures
        r == if cpu_id == 0 || cpu_id >= topology@.len() {
            Err::<CpuStart, CpuBootError>(CpuBootError::InvalidParameter)
        } else if !stack_in_ram(stack_top, ram@) || entry < phys_virt_offset || in_window(
            (entry - phys_virt_offset) as u64,
            DMW_CACHED_BASE,
        ) is None || in_window(stack_top, DMW_CACHED_BASE) is None {
            Err(CpuBootError::InvalidAddress)
        } else {
            Ok(
                CpuStart {
                    hardware_id: topology@[cpu_id as int],
                    stack_top: in_window(stack_top, DMW_CACHED_BASE)->0,
                    entry: in_window((entry - phys_virt_offset) as u64, DMW_CACHED_BASE)->0,
                    action: 1,
                },
            )
        },
{
    if cpu_id == 0 || cpu_id >= CAPACITY {
        return Err(CpuBootError::InvalidParameter);
    }
    let hardware_id: usize = match topology.hardware_id(cpu_id) {
        Some(id) => id,
        None => {
            return Err(CpuBootError::InvalidParameter);
        },
    };
    let mut in_ram: bool = false;
    let mut i: usize = 0;
    while i < ram.len() && !in_ram
        invariant
            i <= ram@.len(),
            in_ram ==> stack_in_ram(stack_top, ram@),
            !in_ram ==> forall|k: int|
                0 <= k < i ==> !spec_valid_stack_top(stack_top, (#[trigger] ram@[k]).0, ram@[k].1),
        decreases ram@.len() - i,
    {
        if valid_stack_top(stack_top, ram[i].0, ram[i].1) {
            assert(spec_valid_stack_top(stack_top, ram@[i as int].0, ram@[i as int].1));
            in_ram = true;
        }
        i = i + 1;
    }
    if !in_ram {
        return Err(CpuBootError::InvalidAddress);
    }
    match (kernel_virt_to_cached_dmw(entry, phys_virt_offset), phys_to_cached_dmw(stack_top)) {
        (Some(entry), Some(stack_top)) => Ok(
            CpuStart { hardware_id, stack_top, entry, action: ACTION_BOOT_CPU },
        ),
        _ => Err(CpuBootError::InvalidAddress),
    }
}

} // verus!
