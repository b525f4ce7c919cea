//! Which mounts go with an unmount, whole subtrees, and changes to them.
use vstd::prelude::*;


use super::entry::key_of;
use super::maps::EntryKey;
use super::mount::{lemma_sieve, sieve, Location, MountTable, Mounts};
use super::tree::{distinct_mounts, lemma_distinct_below, lemma_push_distinct, lists};

verus! {

impl Mounts {
    /// Adds the mounts on the directory with key `key` of the mounts of `list`,
    /// from the `i`-th on, each followed by those that its unmount spreads to.
    pub open spec fn unmounts_from(
        self,
        list: Seq<usize>,
        i: int,
        key: EntryKey,
        found: Seq<usize>,
    ) -> Seq<usize>
        decreases
                (if found.len() < self.mounts.len() {
                    self.mounts.len() - found.len()
                } else {
                    0
                }),
                list.len() - i,
    {
        if i >= list.len() {
            found
        } else {
            match self.child_at(list[i] as int, key) {
                None => self.unmounts_from(list, i + 1, key, found),
                Some(c) => if found.contains(c) {
                    self.unmounts_from(list, i + 1, key, found)
                } else if found.len() >= self.mounts.len() {
                    found
                } else {
                    let below = self.unmounts_from(
                        self.targets(list[i]),
                        0,
                        key,
                        found.push(c),
                    );
                    if below.len() <= found.len() {
                        below
                    } else {
                        self.unmounts_from(list, i + 1, key, below)
                    }
                },
            }
        }
    }

    /// Picks the mounts other than `m`.
    pub open spec fn not_self(self, m: usize) -> spec_fn(usize) -> bool {
        |x: usize| x != m
    }

    /// The mounts that an unmount of `m` spreads to.
    pub open spec fn unmounts_with(self, m: usize) -> Seq<usize> {
        match self.mounts[m as int].location {
            None => Seq::empty(),
            Some(l) => sieve(
                self.unmounts_from(
                    self.targets(l.mountpoint),
                    0,
                    key_of(self.entries, l.entry as int),
                    Seq::empty(),
                ),
                self.not_self(m),
            ),
        }
    }

    /// Whether a mount of `list` lies below the `i`-th.
    pub open spec fn has_below(self, list: Seq<usize>, i: int) -> bool {
        exists|j: int| 0 <= j < list.len() && #[trigger] self.mount_above(list[i], list[j])
    }

    /// The first mount of `list` from the `i`-th on with none of the list below
    /// it, or the first of all if each has one.
    pub open spec fn lowest_from(self, list: Seq<usize>, i: int) -> int
        decreases list.len() - i,
    {
        if i >= list.len() {
            0
        } else if !self.has_below(list, i) {
            i
        } else {
            self.lowest_from(list, i + 1)
        }
    }

    /// The mounts of `list`, what is below first.
    pub open spec fn from_below(self, list: Seq<usize>) -> Seq<usize>
        decreases list.len(),
    {
        if list.len() == 0 {
            list
        } else {
            let i = self.lowest_from(list, 0);
            if 0 <= i < list.len() {
                seq![list[i]] + self.from_below(list.remove(i))
            } else {
                list
            }
        }
    }
}

proof fn lemma_unmounts_from(s: Mounts, list: Seq<usize>, i: int, key: EntryKey, found: Seq<usize>)
    requires
        s.wf(),
        0 <= i,
        distinct_mounts(s, found),
        forall|k: int| 0 <= k < list.len() ==> s.is_alive((#[trigger] list[k]) as int),
    ensures
        distinct_mounts(s, s.unmounts_from(list, i, key, found)),
        s.unmounts_from(list, i, key, found).len() >= found.len(),
        forall|x: usize| #[trigger]
            found.contains(x) ==> s.unmounts_from(list, i, key, found).contains(x),
        forall|k: int|
            i <= k < list.len() && s.child_at((#[trigger] list[k]) as int, key) is Some
                ==> s.unmounts_from(list, i, key, found).contains(
                s.child_at(list[k] as int, key)->0,
            ),
    decreases
            (if found.len() < s.mounts.len() {
                s.mounts.len() - found.len()
            } else {
                0
            }),
            list.len() - i,
{
    if i < list.len() {
        assert(s.is_alive(list[i] as int));
        match s.child_at(list[i] as int, key) {
            None => {
                lemma_unmounts_from(s, list, i + 1, key, found);
            },
            Some(c) => {
                assert(s.mount_wf(list[i] as int));
                if found.contains(c) {
                    lemma_unmounts_from(s, list, i + 1, key, found);
                } else {
                    lemma_push_distinct(s, found, c);
                    lemma_targets_alive(s, list[i]);
                    let with = found.push(c);
                    assert(with[found.len() as int] == c);
                    assert(with.contains(c));
                    assert forall|x: usize| #[trigger] found.contains(x) implies with.contains(
                        x,
                    ) by {
                        let k = choose|k: int| 0 <= k < found.len() && found[k] == x;
                        assert(with[k] == x);
                    }
                    lemma_unmounts_from(s, s.targets(list[i]), 0, key, found.push(c));
                    assert(s.unmounts_from(s.targets(list[i]), 0, key, with).contains(c));
                    lemma_unmounts_from(
                        s,
                        list,
                        i + 1,
                        key,
                        s.unmounts_from(s.targets(list[i]), 0, key, found.push(c)),
                    );
                }
            },
        }
    }
}

proof fn lemma_targets_alive(s: Mounts, parent: usize)
    requires
        s.wf(),
    ensures
        forall|k: int|
            0 <= k < s.targets(parent).len() ==> s.is_alive((#[trigger] s.targets(parent)[k]) as int),
{
    if let Some(g) = s.mode(parent as int).spec_peer_group() {
        super::tree::lemma_picked(s, g, s.peers(g, parent));
        super::tree::lemma_slaves_of_group(s, g);
        let t = s.targets(parent);
        let a = s.members(g, parent);
        let b = s.slaves_of_group(g);
        assert forall|k: int| 0 <= k < t.len() implies s.is_alive((#[trigger] t[k]) as int) by {
            if k < a.len() {
                assert(t[k] == a[k]);
                assert(s.peers(g, parent)(a[k]));
            } else {
                assert(t[k] == b[k - a.len()]);
            }
        }
    }
}

proof fn lemma_lowest_from(s: Mounts, list: Seq<usize>, i: int)
    requires
        0 <= i,
        list.len() > 0,
    ensures
        0 <= s.lowest_from(list, i) < list.len(),
        (exists|k: int| i <= k < list.len() && !(#[trigger] s.has_below(list, k)))
            ==> !s.has_below(list, s.lowest_from(list, i)),
    decreases list.len() - i,
{
    if i < list.len() && s.has_below(list, i) {
        lemma_lowest_from(s, list, i + 1);
    }
}

/// The order from below keeps the mounts.
pub proof fn lemma_from_below_keeps(s: Mounts, list: Seq<usize>)
    ensures
        s.from_below(list).to_multiset() == list.to_multiset(),
        s.from_below(list).len() == list.len(),
    decreases list.len(),
{
    broadcast use vstd::seq_lib::group_to_multiset_ensures;

    if list.len() > 0 {
        lemma_lowest_from(s, list, 0);
        let i = s.lowest_from(list, 0);
        let rest = list.remove(i);
        lemma_from_below_keeps(s, rest);
        let r = s.from_below(rest);
        assert((seq![list[i]] + r) =~= r.insert(0, list[i]));
        assert(list =~= rest.insert(i, list[i]));
        assert(r.insert(0, list[i]).to_multiset() =~= r.to_multiset().insert(list[i]));
        assert(rest.insert(i, list[i]).to_multiset() =~= rest.to_multiset().insert(list[i]));
    }
}

/// How many steps the way up from mount `m` has, as far as `n`.
spec fn height(s: Mounts, m: usize, n: nat) -> nat
    decreases n,
{
    if n == 0 {
        0
    } else {
        match s.mounts[m as int].location {
            Some(l) => 1 + height(s, l.mountpoint, (n - 1) as nat),
            None => 0,
        }
    }
}

proof fn lemma_height_enough(s: Mounts, m: usize, n: nat, k: nat)
    requires
        n <= k,
        s.up(m, n) is None,
    ensures
        height(s, m, k) == height(s, m, n),
    decreases n,
{
    if n > 0 {
        if let Some(l) = s.mounts[m as int].location {
            lemma_height_enough(s, l.mountpoint, (n - 1) as nat, (k - 1) as nat);
        }
    }
}

proof fn lemma_height_below(s: Mounts, a: usize, b: usize, k: nat, n: nat)
    requires
        k <= n,
        s.up(b, k) == Some(a),
        s.up(b, n) is None,
    ensures
        height(s, b, n) == k + height(s, a, (n - k) as nat),
        s.up(a, (n - k) as nat) is None,
    decreases k,
{
    if k > 0 {
        let l = s.mounts[b as int].location->0;
        lemma_height_below(s, a, l.mountpoint, (k - 1) as nat, (n - 1) as nat);
    }
}

/// Where the way up from each mount ends, one of them has none below it.
proof fn lemma_some_lowest(s: Mounts, list: Seq<usize>) -> (best: int)
    requires
        list.len() > 0,
        forall|k: int| 0 <= k < list.len() ==> s.rooted(#[trigger] list[k]),
    ensures
        0 <= best < list.len(),
        !s.has_below(list, best),
        forall|k: int|
            0 <= k < list.len() ==> height(s, #[trigger] list[k], s.mounts.len()) <= height(
                s,
                list[best],
                s.mounts.len(),
            ),
    decreases list.len(),
{
    let n = s.mounts.len();
    let last = list.len() - 1;
    let best = if list.len() == 1 {
        0
    } else {
        let rest = list.drop_last();
        assert forall|k: int| 0 <= k < rest.len() implies s.rooted(#[trigger] rest[k]) by {
            assert(rest[k] == list[k]);
        }
        let b = lemma_some_lowest(s, rest);
        assert forall|k: int| 0 <= k < last implies height(s, #[trigger] list[k], n) <= height(
            s,
            list[b],
            n,
        ) by {
            assert(rest[k] == list[k]);
        }
        if height(s, list[last], n) > height(s, list[b], n) {
            last
        } else {
            b
        }
    };
    if s.has_below(list, best) {
        let j = choose|j: int|
            0 <= j < list.len() && #[trigger] s.mount_above(list[best], list[j]);
        let a = list[best];
        let b = list[j];
        let k = choose|k: nat| 1 <= k <= s.mounts.len() && #[trigger] s.up(b, k) == Some(a);
        assert(s.rooted(list[j]));
        lemma_height_below(s, a, b, k, n);
        lemma_height_enough(s, a, (n - k) as nat, n);
    }
    best
}

/// Where the way up from each mount ends, no mount comes before one that lies
/// below it.
pub proof fn lemma_from_below_order(s: Mounts, list: Seq<usize>, i: int, j: int)
    requires
        0 <= i < j < list.len(),
        forall|k: int| 0 <= k < list.len() ==> s.rooted(#[trigger] list[k]),
    ensures
        !s.mount_above(s.from_below(list)[i], s.from_below(list)[j]),
    decreases list.len(),
{
    let at = s.lowest_from(list, 0);
    let b = lemma_some_lowest(s, list);
    lemma_lowest_from(s, list, 0);
    assert(!s.has_below(list, at));
    let rest = list.remove(at);
    let r = s.from_below(rest);
    lemma_from_below_keeps(s, rest);
    assert(s.from_below(list) == seq![list[at]] + r);
    assert forall|k: int| 0 <= k < rest.len() implies s.rooted(#[trigger] rest[k]) by {
        assert(rest[k] == list[if k < at {
            k
        } else {
            k + 1
        }]);
    }
    if i == 0 {
        let y = r[j - 1];
        lemma_member(r, rest, j - 1);
        let k = choose|k: int| 0 <= k < rest.len() && rest[k] == y;
        assert(list[if k < at {
            k
        } else {
            k + 1
        }] == y);
    } else {
        lemma_from_below_order(s, rest, i - 1, j - 1);
    }
}

proof fn lemma_member(r: Seq<usize>, rest: Seq<usize>, i: int)
    requires
        r.to_multiset() == rest.to_multiset(),
        0 <= i < r.len(),
    ensures
        rest.contains(r[i]),
{
    broadcast use vstd::seq_lib::group_to_multiset_ensures;

    assert(r.contains(r[i]));
    assert(r.to_multiset().count(r[i]) > 0);
    assert(rest.to_multiset().count(r[i]) > 0);
}

impl MountTable {
    fn collect_propagate_unmount_rec(&self, parent: usize, key: EntryKey, found: &mut Vec<usize>)
        requires
            self@.wf(),
            parent < self@.mounts.len(),
            distinct_mounts(self@, old(found)@),
        ensures
            final(found)@ == self@.unmounts_from(
                self@.targets(parent),
                0,
                key,
                old(found)@,
            ),
            distinct_mounts(self@, final(found)@),
            final(found)@.len() >= old(found)@.len(),
        decreases self@.mounts.len() - old(found)@.len(),
    {
        let list: Vec<usize> = self.list_targets(parent);
        let ghost start = found@;
        let mut i: usize = 0;
        while i < list.len()
            invariant
                self@.wf(),
                i <= list@.len(),
                forall|k: int| 0 <= k < list@.len() ==> self@.is_alive((#[trigger] list@[k]) as int),
                distinct_mounts(self@, found@),
                found@.len() >= start.len(),
                start == old(found)@,
                self@.unmounts_from(list@, 0, key, start) == self@.unmounts_from(
                    list@,
                    i as int,
                    key,
                    found@,
                ),
            decreases list@.len() - i,
        {
            let peer: usize = list[i];
            assert(self@.is_alive(list@[i as int] as int));
            match self.child_at(peer, key) {
                None => {},
                Some(c) => {
                    if !lists(found, c) {
                        let ghost before = found@;
                        proof {
                            lemma_push_distinct(self@, found@, c);
                            lemma_distinct_below(found@.push(c), self@.mounts.len());
                        }
                        found.push(c);
                        self.collect_propagate_unmount_rec(peer, key, found);
                        assert(found@.len() > before.len());
                    }
                },
            }
            i = i + 1;
        }
    }

    fn is_above_one(&self, list: &Vec<usize>, i: usize) -> (r: bool)
        requires
            self@.wf(),
            i < list@.len(),
            forall|k: int| 0 <= k < list@.len() ==> (#[trigger] list@[k]) < self@.mounts.len(),
        ensures
            r == self@.has_below(list@, i as int),
    {
        let mut j: usize = 0;
        while j < list.len()
            invariant
                self@.wf(),
                i < list@.len(),
                j <= list@.len(),
                forall|k: int| 0 <= k < list@.len() ==> (#[trigger] list@[k]) < self@.mounts.len(),
                forall|k: int|
                    0 <= k < j ==> !(#[trigger] self@.mount_above(list@[i as int], list@[k])),
            decreases list@.len() - j,
        {
            assert(list@[i as int] < self@.mounts.len() && list@[j as int] < self@.mounts.len());
            if self.is_mount_ancestor_of(list[i], list[j]) {
                return true;
            }
            j = j + 1;
        }
        false
    }

    /// Orders mounts, what is below first.
    fn sort_from_below(&self, list: Vec<usize>) -> (r: Vec<usize>)
        requires
            self@.wf(),
            forall|k: int| 0 <= k < list@.len() ==> (#[trigger] list@[k]) < self@.mounts.len(),
        ensures
            r@ == self@.from_below(list@),
    {
        let mut left: Vec<usize> = list;
        let mut r: Vec<usize> = Vec::new();
        while left.len() > 0
            invariant
                self@.wf(),
                forall|k: int| 0 <= k < left@.len() ==> (#[trigger] left@[k]) < self@.mounts.len(),
                self@.from_below(list@) == r@ + self@.from_below(left@),
            decreases left@.len(),
        {
            let ghost before = left@;
            let ghost done = r@;
            let mut at: usize = 0;
            let mut i: usize = 0;
            let mut found: bool = false;
            while i < left.len() && !found
                invariant
                    self@.wf(),
                    left@ == before,
                    before.len() > 0,
                    i <= left@.len(),
                    forall|k: int|
                        0 <= k < left@.len() ==> (#[trigger] left@[k]) < self@.mounts.len(),
                    found ==> at < left@.len() && self@.lowest_from(before, 0) == at,
                    !found ==> at == 0 && self@.lowest_from(before, 0) == self@.lowest_from(
                        before,
                        i as int,
                    ),
                decreases left@.len() - i + if found {
                    0int
                } else {
                    1
                },
            {
                if !self.is_above_one(&left, i) {
                    at = i;
                    found = true;
                } else {
                    i = i + 1;
                }
            }
            assert(self@.lowest_from(before, 0) == at);
            let m: usize = left.remove(at);
            r.push(m);
            proof {
                assert(left@ =~= before.remove(at as int));
                assert forall|k: int| 0 <= k < left@.len() implies (#[trigger] left@[k])
                    < self@.mounts.len() by {
                    assert(left@[k] == before[if k < at {
                        k
                    } else {
                        k + 1
                    }]);
                }
                assert(self@.from_below(before) == seq![before[at as int]] + self@.from_below(
                    left@,
                ));
                assert(r@ + self@.from_below(left@) =~= done + (seq![before[at as int]]
                    + self@.from_below(left@)));
            }
        }
        assert(r@ + self@.from_below(left@) =~= r@);
        r
    }

    /// The mounts that go when mount `m` goes, what is below first.
    pub fn collect_propagate_unmount(&self, m: usize) -> (r: Vec<usize>)
        requires
            self@.wf(),
            m < self@.mounts.len(),
        ensures
            r@ == self@.from_below(self@.unmounts_with(m)),
    {
        let l: Location = match self.location(m) {
            Some(l) => l,
            None => {
                return Vec::new();
            },
        };
        proof {
            self.lemma_parts();
            assert(self@.mount_wf(m as int));
        }
        let key: EntryKey = self.entries.key(l.entry);
        let mut found: Vec<usize> = Vec::new();
        self.collect_propagate_unmount_rec(l.mountpoint, key, &mut found);
        let ghost keep = self@.not_self(m);
        let mut rest: Vec<usize> = Vec::new();
        let mut i: usize = 0;
        while i < found.len()
            invariant
                i <= found@.len(),
                keep == self@.not_self(m),
                distinct_mounts(self@, found@),
                rest@ == sieve(found@.take(i as int), keep),
                forall|k: int| 0 <= k < rest@.len() ==> (#[trigger] rest@[k]) < self@.mounts.len(),
            decreases found@.len() - i,
        {
            assert(found@.take((i + 1) as int).drop_last() =~= found@.take(i as int));
            assert(self@.is_alive(found@[i as int] as int));
            if found[i] != m {
                rest.push(found[i]);
            }
            i = i + 1;
        }
        assert(found@.take(i as int) =~= found@);
        self.sort_from_below(rest)
    }
}

/// An unmount spreads as the mount did: what hangs on the same directory of a
/// mount that the parent spreads to goes too, and the mount itself is not among
/// those.
pub proof fn lemma_unmount_spreads(s: Mounts, m: usize, at: Location, y: usize, c: usize)
    requires
        s.wf(),
        m < s.mounts.len(),
        s.mounts[m as int].location == Some(at),
        s.targets(at.mountpoint).contains(y),
        s.child_at(y as int, key_of(s.entries, at.entry as int)) == Some(c),
        c != m,
    ensures
        s.unmounts_with(m).contains(c),
        !s.unmounts_with(m).contains(m),
{
    let key = key_of(s.entries, at.entry as int);
    let list = s.targets(at.mountpoint);
    lemma_targets_alive(s, at.mountpoint);
    lemma_unmounts_from(s, list, 0, key, Seq::empty());
    let all = s.unmounts_from(list, 0, key, Seq::empty());
    let k = choose|k: int| 0 <= k < list.len() && list[k] == y;
    assert(s.child_at(list[k] as int, key) is Some);
    lemma_sieve(all, s.not_self(m), c);
    lemma_sieve(all, s.not_self(m), m);
}

} // verus!
