//! Ticks and nanoseconds.
use vstd::prelude::*;

verus! {

pub const NANOS_PER_SEC: u64 = 1_000_000_000;

/// How many nanoseconds a tick of a timer takes.
pub fn nanos_per_tick(timer_freq: u64) -> (r: u64)
    requires
        timer_freq > 0,
    ensures
        r == NANOS_PER_SEC / timer_freq,
{
    NANOS_PER_SEC / timer_freq
}

/// How long a number of ticks takes, as far as it can be counted.
pub fn ticks_to_nanos(ticks: u64, nanos_per_tick: u64) -> (r: u64)
    ensures
        r == if ticks * nanos_per_tick <= u64::MAX {
            ticks * nanos_per_tick
        } else {
            u64::MAX as int
        },
{
    match ticks.checked_mul(nanos_per_tick) {
        Some(nanos) => nanos,
        None => u64::MAX,
    }
}

/// The least number of ticks that take no less than `nanos`.
pub open spec fn spec_nanos_to_ticks(nanos: u64, nanos_per_tick: u64) -> int {
    (nanos + nanos_per_tick - 1) / nanos_per_tick as int
}

/// The least number of ticks that take no less than `nanos`.
pub fn nanos_to_ticks(nanos: u64, nanos_per_tick: u64) -> (r: u64)
    requires
        nanos_per_tick > 0,
    ensures
        r == spec_nanos_to_ticks(nanos, nanos_per_tick),
{
    let q: u64 = nanos / nanos_per_tick;
    let rest: u64 = nanos % nanos_per_tick;
    proof {
        lemma_div_ceil(nanos as int, nanos_per_tick as int);
    }
    if rest == 0 {
        q
    } else {
        q + 1
    }
}

proof fn lemma_div_ceil(a: int, n: int)
    requires
        0 <= a <= u64::MAX,
        0 < n,
    ensures
        a % n == 0 ==> (a + n - 1) / n == a / n,
        a % n != 0 ==> (a + n - 1) / n == a / n + 1,
        a % n != 0 ==> a / n + 1 <= u64::MAX,
{
    let q = a / n;
    let rest = a % n;
    vstd::arithmetic::div_mod::lemma_fundamental_div_mod(a, n);
    assert(0 <= rest < n) by (nonlinear_arith)
        requires
            rest == a % n,
            n > 0,
    ;
    if rest == 0 {
        assert((a + n - 1) / n == q) by (nonlinear_arith)
            requires
                a == n * q + rest,
                rest == 0,
                n > 0,
        ;
    } else {
        assert((a + n - 1) / n == q + 1) by (nonlinear_arith)
            requires
                a == n * q + rest,
                0 < rest < n,
                n > 0,
        ;
        assert(q + 1 <= a) by (nonlinear_arith)
            requires
                a == n * q + rest,
                0 < rest < n,
                q >= 0,
                n > 0,
        ;
        assert(q >= 0) by (nonlinear_arith)
            requires
                q == a / n,
                a >= 0,
                n > 0,
        ;
    }
}

/// The ticks for a deadline do not end before it.
pub proof fn lemma_ticks_reach_the_deadline(nanos: u64, nanos_per_tick: u64)
    requires
        nanos_per_tick > 0,
    ensures
        spec_nanos_to_ticks(nanos, nanos_per_tick) * nanos_per_tick >= nanos,
        (spec_nanos_to_ticks(nanos, nanos_per_tick) - 1) * nanos_per_tick < nanos,
{
    let a = nanos as int;
    let n = nanos_per_tick as int;
    let t = (a + n - 1) / n;
    vstd::arithmetic::div_mod::lemma_fundamental_div_mod(a + n - 1, n);
    let rest = (a + n - 1) % n;
    assert(0 <= rest < n) by (nonlinear_arith)
        requires
            rest == (a + n - 1) % n,
            n > 0,
    ;
    assert(t * n >= a && (t - 1) * n < a) by (nonlinear_arith)
        requires
            a + n - 1 == n * t + rest,
            0 <= rest < n,
    ;
}

} // verus!
