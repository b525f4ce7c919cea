//! Where the kernel goes on after a fault that it expected.
use vstd::prelude::*;

use super::unaligned::TrapFrame;

verus! {

/// An instruction that may fault and where to go on then, both as distances
/// from the start of the table.
#[derive(Clone, Copy, Debug, PartialEq, Eq, Structural)]
pub struct ExceptionTableEntry {
    pub from: i32,
    pub to: i32,
}

/// The address at a distance from the start of the table, modulo the size of
/// the address space.
pub open spec fn spec_exception_addr(start: u64, offset: i32) -> int {
    (start + offset) % 0x1_0000_0000_0000_0000
}

pub fn exception_addr(start: u64, offset: i32) -> (r: u64)
    ensures
        r == spec_exception_addr(start, offset),
{
    if offset >= 0 {
        start.wrapping_add(offset as u64)
    } else {
        start.wrapping_sub((-(offset as i64)) as u64)
    }
}

/// The first entry from the `i`-th on whose instruction is at `ip`.
pub open spec fn entry_for(table: Seq<ExceptionTableEntry>, start: u64, ip: u64, i: int) -> Option<
    ExceptionTableEntry,
>
    decreases table.len() - i,
{
    if i >= table.len() {
        None
    } else if spec_exception_addr(start, table[i].from) == ip {
        Some(table[i])
    } else {
        entry_for(table, start, ip, i + 1)
    }
}

/// What is taken off a sum so that it is an address.
pub open spec fn wraps(offset: i32, start: u64) -> int {
    if offset + start > u64::MAX {
        0x1_0000_0000_0000_0000
    } else if offset + start < 0 {
        -0x1_0000_0000_0000_0000
    } else {
        0
    }
}

impl TrapFrame {
    /// Sends the kernel on where the table says, if it has the instruction.
    pub fn fixup_exception(&mut self, table: &Vec<ExceptionTableEntry>, table_start: u64) -> (r:
        bool)
        ensures
            final(self).regs == old(self).regs,
            match entry_for(table@, table_start, old(self).era, 0) {
                Some(e) => r && final(self).era == spec_exception_addr(table_start, e.to),
                None => !r && final(self).era == old(self).era,
            },
            r ==> exists|i: int|
                0 <= i < table@.len() && (#[trigger] table@[i]).from + table_start == old(self).era
                    + wraps(table@[i].from, table_start) && final(self).era == table@[i].to
                    + table_start - wraps(table@[i].to, table_start) && forall|j: int|
                    0 <= j < i ==> (#[trigger] table@[j]).from + table_start != old(self).era
                        + wraps(table@[j].from, table_start),
            !r ==> forall|i: int|
                0 <= i < table@.len() ==> (#[trigger] table@[i]).from + table_start != old(
                    self,
                ).era + wraps(table@[i].from, table_start),
    {
        let mut i: usize = 0;
        while i < table.len()
            invariant
                i <= table@.len(),
                *self == *old(self),
                forall|j: int|
                    0 <= j < i ==> (#[trigger] table@[j]).from + table_start != old(self).era
                        + wraps(table@[j].from, table_start),
                entry_for(table@, table_start, old(self).era, 0) == entry_for(
                    table@,
                    table_start,
                    old(self).era,
                    i as int,
                ),
            decreases table@.len() - i,
        {
            if exception_addr(table_start, table[i].from) == self.era {
                self.era = exception_addr(table_start, table[i].to);
                assert(table@[i as int].from + table_start == old(self).era + wraps(
                    table@[i as int].from,
                    table_start,
                ));
                return true;
            }
            i = i + 1;
        }
        false
    }
}

} // verus!
