//! Identifiers of address spaces.
use vstd::prelude::*;

verus! {

/// How many identifiers there are.
pub const ASID_SLOTS: usize = 1024;

/// Hands out identifiers of address spaces. The first one is kept for the
/// kernel.
pub struct AsidAllocator {
    used: Vec<bool>,
    next: usize,
}

/// The identifier that is tried behind `a`.
pub open spec fn asid_after(a: int) -> int {
    if a + 1 >= ASID_SLOTS {
        1
    } else {
        a + 1
    }
}

/// The first identifier that is not in use, from `a` on, among the next `n`.
pub open spec fn first_unused(used: Seq<bool>, a: int, n: nat) -> Option<int>
    decreases n,
{
    if n == 0 {
        None
    } else if !used[a] {
        Some(a)
    } else {
        first_unused(used, asid_after(a), (n - 1) as nat)
    }
}

impl AsidAllocator {
    /// Which identifiers are in use.
    pub closed spec fn used(&self) -> Seq<bool> {
        self.used@
    }

    /// Where the next search begins.
    pub closed spec fn next(&self) -> int {
        self.next as int
    }

    pub open spec fn wf(&self) -> bool {
        &&& self.used().len() == ASID_SLOTS
        &&& self.used()[0]
        &&& 1 <= self.next() < ASID_SLOTS
    }

    /// What the next allocation gives.
    pub open spec fn upcoming(&self) -> Option<int> {
        first_unused(self.used(), self.next(), (ASID_SLOTS - 1) as nat)
    }

    /// Only the first identifier is in use.
    pub fn new() -> (r: Self)
        ensures
            r.wf(),
            r.next() == 1,
            forall|i: int| 1 <= i < ASID_SLOTS ==> !r.used()[i],
    {
        let mut used: Vec<bool> = Vec::new();
        used.push(true);
        while used.len() < ASID_SLOTS
            invariant
                1 <= used@.len() <= ASID_SLOTS,
                used@[0],
                forall|i: int| 1 <= i < used@.len() ==> !used@[i],
            decreases ASID_SLOTS - used@.len(),
        {
            used.push(false);
        }
        AsidAllocator { used, next: 1 }
    }

    /// Whether an identifier is left to hand out.
    pub fn has_unused(&self) -> (r: bool)
        requires
            self.wf(),
        ensures
            r == (self.upcoming() is Some),
            r == exists|i: int| 1 <= i < ASID_SLOTS && !(#[trigger] self.used()[i]),
    {
        let mut i: usize = 1;
        while i < ASID_SLOTS
            invariant
                self.wf(),
                1 <= i <= ASID_SLOTS,
                forall|k: int| 1 <= k < i ==> #[trigger] self.used()[k],
            decreases ASID_SLOTS - i,
        {
            if !self.used[i] {
                proof {
                    lemma_asid_is_found(self.used(), self.next(), i as int);
                    assert(!self.used()[i as int]);
                }
                return true;
            }
            i = i + 1;
        }
        proof {
            if self.upcoming() is Some {
                lemma_found_is_unused(self.used(), self.next(), (ASID_SLOTS - 1) as nat);
            }
        }
        false
    }

    /// Takes the next identifier that is not in use. There has to be one: a
    /// caller stops where all are live.
    pub fn alloc_asid(&mut self) -> (r: usize)
        requires
            old(self).wf(),
            old(self).upcoming() is Some,
        ensures
            final(self).wf(),
            old(self).upcoming() == Some(r as int),
            1 <= r < ASID_SLOTS,
            !old(self).used()[r as int],
            final(self).used() == old(self).used().update(r as int, true),
            final(self).next() == asid_after(r as int),
    {
        let mut at: usize = self.next;
        let ghost mut left: nat = (ASID_SLOTS - 1) as nat;
        while self.used[at]
            invariant
                self.wf(),
                *self == *old(self),
                1 <= at < ASID_SLOTS,
                old(self).upcoming() is Some,
                old(self).upcoming() == first_unused(self.used(), at as int, left),
            decreases left,
        {
            at = if at + 1 >= ASID_SLOTS {
                1
            } else {
                at + 1
            };
            proof {
                left = (left - 1) as nat;
            }
        }
        self.used.set(at, true);
        self.next = if at + 1 >= ASID_SLOTS {
            1
        } else {
            at + 1
        };
        at
    }

    /// Gives an identifier back. The first one stays in use.
    pub fn free(&mut self, asid: usize)
        requires
            old(self).wf(),
        ensures
            final(self).wf(),
            final(self).next() == old(self).next(),
            final(self).used() == if 0 < asid < ASID_SLOTS {
                old(self).used().update(asid as int, false)
            } else {
                old(self).used()
            },
    {
        if asid > 0 && asid < ASID_SLOTS {
            self.used.set(asid, false);
        }
    }
}

/// How far `i` is behind `a`, counted without the first identifier.
spec fn steps_to(a: int, i: int) -> int {
    if i >= a {
        i - a
    } else {
        i - a + ASID_SLOTS - 1
    }
}

proof fn lemma_unused_is_found(used: Seq<bool>, a: int, n: nat, i: int)
    requires
        used.len() == ASID_SLOTS,
        1 <= a < ASID_SLOTS,
        1 <= i < ASID_SLOTS,
        !used[i],
        steps_to(a, i) < n,
    ensures
        first_unused(used, a, n) is Some,
    decreases n,
{
    if used[a] {
        lemma_unused_is_found(used, asid_after(a), (n - 1) as nat, i);
    }
}

/// As long as an identifier is not in use, there is one to hand out.
pub proof fn lemma_asid_is_found(used: Seq<bool>, a: int, i: int)
    requires
        used.len() == ASID_SLOTS,
        1 <= a < ASID_SLOTS,
        1 <= i < ASID_SLOTS,
        !used[i],
    ensures
        first_unused(used, a, (ASID_SLOTS - 1) as nat) is Some,
{
    lemma_unused_is_found(used, a, (ASID_SLOTS - 1) as nat, i);
}

/// Two identifiers that are handed out one after the other differ.
pub proof fn lemma_asids_differ(used: Seq<bool>, a: int, b: int, n: nat, m: nat)
    requires
        used.len() == ASID_SLOTS,
        1 <= a < ASID_SLOTS,
        1 <= b < ASID_SLOTS,
        first_unused(used, a, n) is Some,
        first_unused(used.update(first_unused(used, a, n)->0, true), b, m) is Some,
    ensures
        first_unused(used.update(first_unused(used, a, n)->0, true), b, m)->0 != first_unused(
            used,
            a,
            n,
        )->0,
{
    lemma_found_is_unused(used, a, n);
    lemma_found_is_unused(used.update(first_unused(used, a, n)->0, true), b, m);
}

proof fn lemma_found_is_unused(used: Seq<bool>, a: int, n: nat)
    requires
        used.len() == ASID_SLOTS,
        1 <= a < ASID_SLOTS,
        first_unused(used, a, n) is Some,
    ensures
        1 <= first_unused(used, a, n)->0 < ASID_SLOTS,
        !used[first_unused(used, a, n)->0],
    decreases n,
{
    if used[a] {
        lemma_found_is_unused(used, asid_after(a), (n - 1) as nat);
    }
}

} // verus!
