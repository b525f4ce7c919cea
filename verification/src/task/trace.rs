//! Markers by which a tracer follows tasks.
use vstd::prelude::*;

use super::context::{EnqueueReason, WaitContext, WakeContext};

verus! {

pub const TASK_METADATA: u64 = 1;

pub const SCHED_SWITCH: u64 = 2;

pub const TASK_BLOCK: u64 = 3;

pub const TASK_WAKE: u64 = 4;

pub const TASK_EXIT: u64 = 5;

pub const TASK_ENQUEUE: u64 = 6;

pub const PHASE_MARKER: u64 = 7;

/// A marker: its kind and five arguments.
#[derive(Clone, Copy, Debug, PartialEq, Eq, Structural)]
pub struct Marker {
    pub kind: u64,
    pub arg0: u64,
    pub arg1: u64,
    pub arg2: u64,
    pub arg3: u64,
    pub arg4: u64,
}

/// One end of a phase.
#[derive(Clone, Copy, Debug, PartialEq, Eq, Structural)]
pub enum PhaseBoundary {
    Begin,
    End,
}

impl PhaseBoundary {
    pub open spec fn spec_number(self) -> u64 {
        match self {
            PhaseBoundary::Begin => 1,
            PhaseBoundary::End => 2,
        }
    }

    pub fn number(self) -> (r: u64)
        ensures
            r == self.spec_number(),
    {
        match self {
            PhaseBoundary::Begin => 1,
            PhaseBoundary::End => 2,
        }
    }
}

/// A byte of a text that zeros follow.
pub open spec fn padded(text: Seq<u8>, i: int) -> int {
    if i < text.len() {
        text[i] as int
    } else {
        0
    }
}

/// Eight bytes of a text from `from` on as a number, the first being the least
/// significant.
pub open spec fn text_word(text: Seq<u8>, from: int) -> int {
    padded(text, from) + padded(text, from + 1) * 0x100 + padded(text, from + 2) * 0x1_0000
        + padded(text, from + 3) * 0x100_0000 + padded(text, from + 4) * 0x1_0000_0000 + padded(
        text,
        from + 5,
    ) * 0x100_0000_0000 + padded(text, from + 6) * 0x1_0000_0000_0000 + padded(text, from + 7)
        * 0x100_0000_0000_0000
}

fn byte_at(text: &[u8], i: usize) -> (r: u64)
    ensures
        r == padded(text@, i as int),
        r < 0x100,
{
    if i < text.len() {
        text[i] as u64
    } else {
        0
    }
}

fn word_at(text: &[u8], from: usize) -> (r: u64)
    requires
        from <= 8,
    ensures
        r == text_word(text@, from as int),
{
    let a: u64 = byte_at(text, from) + byte_at(text, from + 1) * 0x100 + byte_at(text, from + 2)
        * 0x1_0000 + byte_at(text, from + 3) * 0x100_0000;
    let b: u64 = byte_at(text, from + 4) + byte_at(text, from + 5) * 0x100 + byte_at(text, from + 6)
        * 0x1_0000 + byte_at(text, from + 7) * 0x100_0000;
    a + b * 0x1_0000_0000
}

/// Names a task. The first sixteen bytes of the name are kept.
pub fn task_metadata(task_id: u64, pid: u64, tid: u64, comm: &[u8]) -> (r: Marker)
    ensures
        r.kind == TASK_METADATA,
        r.arg0 == task_id,
        r.arg1 == pid,
        r.arg2 == tid,
        r.arg3 == text_word(comm@, 0),
        r.arg4 == text_word(comm@, 8),
{
    Marker {
        kind: TASK_METADATA,
        arg0: task_id,
        arg1: pid,
        arg2: tid,
        arg3: word_at(comm, 0),
        arg4: word_at(comm, 8),
    }
}

/// The CPU goes from one task to another.
pub fn sched_switch(prev_task: u64, next_task: u64, prev_state: u8) -> (r: Marker)
    ensures
        r == (Marker {
            kind: SCHED_SWITCH,
            arg0: prev_task,
            arg1: next_task,
            arg2: prev_state as u64,
            arg3: 0,
            arg4: 0,
        }),
{
    Marker {
        kind: SCHED_SWITCH,
        arg0: prev_task,
        arg1: next_task,
        arg2: prev_state as u64,
        arg3: 0,
        arg4: 0,
    }
}

/// A task blocks.
pub fn task_block(task: u64, sequence: u64, context: WaitContext) -> (r: Marker)
    ensures
        r == (Marker {
            kind: TASK_BLOCK,
            arg0: task,
            arg1: sequence,
            arg2: context.reason.spec_number(),
            arg3: context.resource_id,
            arg4: context.resource_detail,
        }),
{
    Marker {
        kind: TASK_BLOCK,
        arg0: task,
        arg1: sequence,
        arg2: context.reason.number(),
        arg3: context.resource_id,
        arg4: context.resource_detail,
    }
}

/// A task is woken; `waker` is the task that runs then, if any.
pub fn task_wake(task: u64, sequence: u64, waker: Option<u64>, context: WakeContext) -> (r: Marker)
    ensures
        r == (Marker {
            kind: TASK_WAKE,
            arg0: task,
            arg1: sequence,
            arg2: match waker {
                Some(id) => id,
                None => 0,
            },
            arg3: context.source.spec_number(),
            arg4: context.source_id,
        }),
{
    Marker {
        kind: TASK_WAKE,
        arg0: task,
        arg1: sequence,
        arg2: match waker {
            Some(id) => id,
            None => 0,
        },
        arg3: context.source.number(),
        arg4: context.source_id,
    }
}

/// A task ends.
pub fn task_exit(task: u64) -> (r: Marker)
    ensures
        r == (Marker { kind: TASK_EXIT, arg0: task, arg1: 0, arg2: 0, arg3: 0, arg4: 0 }),
{
    Marker { kind: TASK_EXIT, arg0: task, arg1: 0, arg2: 0, arg3: 0, arg4: 0 }
}

/// A task enters a run queue.
pub fn task_enqueue(
    task: u64,
    enqueue_cpu: u64,
    target_cpu: u64,
    queue_depth: u64,
    reason: EnqueueReason,
) -> (r: Marker)
    ensures
        r == (Marker {
            kind: TASK_ENQUEUE,
            arg0: task,
            arg1: enqueue_cpu,
            arg2: target_cpu,
            arg3: queue_depth,
            arg4: reason.spec_number(),
        }),
{
    Marker {
        kind: TASK_ENQUEUE,
        arg0: task,
        arg1: enqueue_cpu,
        arg2: target_cpu,
        arg3: queue_depth,
        arg4: reason.number(),
    }
}

/// A phase begins or ends; `task` is the task that runs then, if any.
pub fn phase_marker(boundary: PhaseBoundary, phase: &[u8], task: Option<u64>) -> (r: Marker)
    ensures
        r.kind == PHASE_MARKER,
        r.arg0 == boundary.spec_number(),
        r.arg1 == match task {
            Some(id) => id,
            None => 0,
        },
        r.arg2 == text_word(phase@, 0),
        r.arg3 == text_word(phase@, 8),
        r.arg4 == 0,
{
    Marker {
        kind: PHASE_MARKER,
        arg0: boundary.number(),
        arg1: match task {
            Some(id) => id,
            None => 0,
        },
        arg2: word_at(phase, 0),
        arg3: word_at(phase, 8),
        arg4: 0,
    }
}

proof fn lemma_low_byte(x: int, y: int, p: int, q: int)
    requires
        0 <= x < 0x100,
        0 <= y < 0x100,
        x + 0x100 * p == y + 0x100 * q,
    ensures
        x == y,
        p == q,
{
}

/// The bytes of a text from the `i`-th on up to `to` as a number.
spec fn text_rest(text: Seq<u8>, i: int, to: int) -> int
    decreases to - i,
{
    if i >= to {
        0
    } else {
        padded(text, i) + 0x100 * text_rest(text, i + 1, to)
    }
}

proof fn lemma_rest_tells_bytes(a: Seq<u8>, b: Seq<u8>, i: int, to: int, k: int)
    requires
        0 <= i <= k < to,
        text_rest(a, i, to) == text_rest(b, i, to),
    ensures
        padded(a, k) == padded(b, k),
    decreases to - i,
{
    lemma_low_byte(
        padded(a, i),
        padded(b, i),
        text_rest(a, i + 1, to),
        text_rest(b, i + 1, to),
    );
    if i < k {
        lemma_rest_tells_bytes(a, b, i + 1, to, k);
    }
}

/// A word tells the bytes that it was made of.
pub proof fn lemma_word_tells_bytes(a: Seq<u8>, b: Seq<u8>, from: int, i: int)
    requires
        from >= 0,
        text_word(a, from) == text_word(b, from),
        0 <= i < 8,
    ensures
        padded(a, from + i) == padded(b, from + i),
{
    reveal_with_fuel(text_rest, 9);
    assert(text_word(a, from) == text_rest(a, from, from + 8));
    assert(text_word(b, from) == text_rest(b, from, from + 8));
    lemma_rest_tells_bytes(a, b, from, from + 8, from + i);
}

} // verus!
