//! Finding one's way in the mount tree.
use vstd::prelude::*;

use super::entry::key_of;
use super::maps::{child_map, EntryKey};
use super::mount::{lemma_sieve, lemma_sieve_no_duplicates, sieve, Location, MountTable, Mounts};

verus! {

/// Different numbers below `n` are no more than `n`.
pub(crate) proof fn lemma_distinct_below(s: Seq<usize>, n: nat)
    requires
        s.no_duplicates(),
        forall|i: int| 0 <= i < s.len() ==> (#[trigger] s[i]) < n,
    ensures
        s.len() <= n,
{
    let t: Seq<int> = s.map_values(|x: usize| x as int);
    assert(t.no_duplicates()) by {
        assert forall|i: int, j: int| 0 <= i < t.len() && 0 <= j < t.len() && i != j implies t[i]
            != t[j] by {
            assert(s[i] != s[j]);
        }
    }
    t.unique_seq_to_set();
    let all = vstd::set_lib::set_int_range(0, n as int);
    vstd::set_lib::lemma_int_range(0, n as int);
    assert(t.to_set().subset_of(all)) by {
        assert forall|x: int| #[trigger] t.to_set().contains(x) implies all.contains(x) by {
            let i = choose|i: int| 0 <= i < t.len() && t[i] == x;
            assert(s[i] < n);
        }
    }
    vstd::set_lib::lemma_len_subset(t.to_set(), all);
}

impl Mounts {
    /// The live mount on the directory with key `k` of mount `m`.
    pub open spec fn child_at(self, m: int, k: EntryKey) -> Option<usize> {
        if self.mounts[m].children.contains_key(k) && self.mounts[self.mounts[m].children[k] as int].alive {
            Some(self.mounts[m].children[k])
        } else {
            None
        }
    }

    /// The key of the root of mount `m`.
    pub open spec fn root_key(self, m: int) -> EntryKey {
        key_of(self.entries, self.mounts[m].root as int)
    }

    /// The root of mount `m`.
    pub open spec fn root_location(self, m: usize) -> Location {
        Location { mountpoint: m, entry: self.mounts[m as int].root }
    }

    /// Whether `l` is the root of its mount.
    pub open spec fn at_root(self, l: Location) -> bool {
        key_of(self.entries, l.entry as int) == self.root_key(l.mountpoint as int)
    }

    /// The topmost of the mounts that lie on top of each other from `m` on.
    /// `seen` are those that were passed, `m` among them.
    pub open spec fn topmost(self, m: usize, seen: Seq<usize>) -> usize
        decreases self.mounts.len() - seen.len(),
    {
        match self.child_at(m as int, self.root_key(m as int)) {
            Some(c) => if seen.contains(c) || seen.len() >= self.mounts.len() {
                m
            } else {
                self.topmost(c, seen.push(c))
            },
            None => m,
        }
    }

    /// What is seen at `l`: the root of what is mounted there, if something is.
    pub open spec fn resolved(self, l: Location) -> Location {
        match self.child_at(l.mountpoint as int, key_of(self.entries, l.entry as int)) {
            Some(c) => self.root_location(self.topmost(c, seq![c])),
            None => l,
        }
    }

    /// The mount `n` steps above `m`.
    pub open spec fn up(self, m: usize, n: nat) -> Option<usize>
        decreases n,
    {
        if n == 0 {
            Some(m)
        } else {
            match self.mounts[m as int].location {
                Some(l) => self.up(l.mountpoint, (n - 1) as nat),
                None => None,
            }
        }
    }

    /// Whether mount `a` lies above mount `m`. There are no more steps than
    /// mounts.
    pub open spec fn mount_above(self, a: usize, m: usize) -> bool {
        a != m && exists|n: nat| 1 <= n <= self.mounts.len() && #[trigger] self.up(m, n) == Some(a)
    }

    /// Whether the way up from mount `m` ends.
    pub open spec fn rooted(self, m: usize) -> bool {
        self.up(m, self.mounts.len()) is None
    }

    /// Picks the peers in group `g` other than `exclude`.
    pub open spec fn peers(self, g: u64, exclude: usize) -> spec_fn(usize) -> bool {
        |x: usize|
            self.is_alive(x as int) && x != exclude && self.mode(x as int).spec_peer_group() == Some(g)
    }

    /// The live peers in group `g` other than `exclude`.
    pub open spec fn members(self, g: u64, exclude: usize) -> Seq<usize> {
        sieve(self.group(g), self.peers(g, exclude))
    }

    /// Picks the slaves of group `g`.
    pub open spec fn slaves(self, g: u64) -> spec_fn(usize) -> bool {
        |x: usize| self.is_alive(x as int) && self.mode(x as int).spec_master_group() == Some(g)
    }

    /// The live slaves of group `g`.
    pub open spec fn direct_slaves(self, g: u64) -> Seq<usize> {
        sieve(self.group(g), self.slaves(g))
    }

    /// Adds the mounts of `list` from the `i`-th on to `found`, each followed by
    /// the slaves of its own group.
    pub open spec fn slaves_from(self, list: Seq<usize>, i: int, found: Seq<usize>) -> Seq<usize>
        decreases
                (if found.len() < self.mounts.len() {
                    self.mounts.len() - found.len()
                } else {
                    0
                }),
                list.len() - i,
    {
        if i >= list.len() {
            found
        } else if found.contains(list[i]) {
            self.slaves_from(list, i + 1, found)
        } else if found.len() >= self.mounts.len() {
            found
        } else {
            let with = found.push(list[i]);
            let below = match self.mode(list[i] as int).spec_peer_group() {
                Some(g) => self.slaves_from(self.direct_slaves(g), 0, with),
                None => with,
            };
            if below.len() <= found.len() {
                below
            } else {
                self.slaves_from(list, i + 1, below)
            }
        }
    }

    /// The slaves of group `g`, theirs, and so on.
    pub open spec fn slaves_of_group(self, g: u64) -> Seq<usize> {
        self.slaves_from(self.direct_slaves(g), 0, Seq::empty())
    }

    /// The group that the first live member of `s` that has a master is a slave
    /// of.
    pub open spec fn first_master(self, s: Seq<usize>) -> Option<u64>
        decreases s.len(),
    {
        if s.len() == 0 {
            None
        } else if self.is_alive(s[0] as int) && self.mode(s[0] as int).spec_master_group() is Some {
            self.mode(s[0] as int).spec_master_group()
        } else {
            self.first_master(s.drop_first())
        }
    }

    /// The group `n` steps up from the group `g`.
    pub open spec fn group_up(self, g: u64, n: nat) -> Option<u64>
        decreases n,
    {
        if n == 0 {
            Some(g)
        } else {
            match self.first_master(self.group(g)) {
                Some(h) => self.group_up(h, (n - 1) as nat),
                None => None,
            }
        }
    }

    /// Whether group `g` is the master of mount `m` or above its master. A group
    /// that is a master has a mount that is its slave, so there are no more
    /// steps than mounts.
    pub open spec fn slave_of(self, m: usize, g: u64) -> bool {
        self.mode(m as int).spec_master_group() matches Some(h) && exists|n: nat|
            n <= self.mounts.len() && #[trigger] self.group_up(h, n) == Some(g)
    }
}

/// Members of a group that were picked are distinct mounts.
pub(crate) proof fn lemma_picked(s: Mounts, g: u64, keep: spec_fn(usize) -> bool)
    requires
        s.wf(),
    ensures
        sieve(s.group(g), keep).no_duplicates(),
        forall|i: int|
            0 <= i < sieve(s.group(g), keep).len() ==> (#[trigger] sieve(s.group(g), keep)[i])
                < s.mounts.len() && keep(sieve(s.group(g), keep)[i]),
{
    assert(s.group_wf(g));
    lemma_sieve_no_duplicates(s.group(g), keep);
    let t = sieve(s.group(g), keep);
    assert forall|i: int| 0 <= i < t.len() implies (#[trigger] t[i]) < s.mounts.len() && keep(
        t[i],
    ) by {
        assert(t.contains(t[i]));
        lemma_sieve(s.group(g), keep, t[i]);
        let k = choose|k: int| 0 <= k < s.group(g).len() && s.group(g)[k] == t[i];
        assert(s.group(g)[k] == t[i]);
    }
}

/// A list of distinct live mounts.
pub open spec fn distinct_mounts(s: Mounts, found: Seq<usize>) -> bool {
    &&& found.no_duplicates()
    &&& forall|i: int| 0 <= i < found.len() ==> s.is_alive((#[trigger] found[i]) as int)
}

pub(crate) proof fn lemma_push_distinct(s: Mounts, found: Seq<usize>, x: usize)
    requires
        distinct_mounts(s, found),
        !found.contains(x),
        s.is_alive(x as int),
    ensures
        distinct_mounts(s, found.push(x)),
        found.len() < s.mounts.len(),
{
    let t = found.push(x);
    assert(t.no_duplicates()) by {
        assert forall|i: int, j: int| 0 <= i < t.len() && 0 <= j < t.len() && i != j implies t[i]
            != t[j] by {
            if i == found.len() {
                assert(found.contains(found[j]));
            } else if j == found.len() {
                assert(found.contains(found[i]));
            }
        }
    }
    assert forall|i: int| 0 <= i < t.len() implies s.is_alive((#[trigger] t[i]) as int) by {
        if i < found.len() {
            assert(t[i] == found[i]);
        }
    }
    lemma_distinct_below(t, s.mounts.len());
}

/// The search for slaves finds distinct live mounts, keeps what it had and
/// takes in everything of its list.
pub(crate) proof fn lemma_slaves_from(s: Mounts, list: Seq<usize>, i: int, found: Seq<usize>)
    requires
        s.wf(),
        0 <= i,
        distinct_mounts(s, found),
        forall|k: int| 0 <= k < list.len() ==> s.is_alive((#[trigger] list[k]) as int),
    ensures
        distinct_mounts(s, s.slaves_from(list, i, found)),
        s.slaves_from(list, i, found).len() >= found.len(),
        forall|x: usize| #[trigger]
            found.contains(x) ==> s.slaves_from(list, i, found).contains(x),
        forall|k: int|
            i <= k < list.len() ==> s.slaves_from(list, i, found).contains(#[trigger] list[k]),
    decreases
            (if found.len() < s.mounts.len() {
                s.mounts.len() - found.len()
            } else {
                0
            }),
            list.len() - i,
{
    if i < list.len() {
        let r = s.slaves_from(list, i, found);
        assert(s.is_alive(list[i] as int));
        if found.contains(list[i]) {
            lemma_slaves_from(s, list, i + 1, found);
        } else {
            lemma_push_distinct(s, found, list[i]);
            let with = found.push(list[i]);
            assert(with[found.len() as int] == list[i]);
            assert(with.contains(list[i]));
            assert forall|x: usize| #[trigger] found.contains(x) implies with.contains(x) by {
                let k = choose|k: int| 0 <= k < found.len() && found[k] == x;
                assert(with[k] == x);
            }
            let below = match s.mode(list[i] as int).spec_peer_group() {
                Some(g) => s.slaves_from(s.direct_slaves(g), 0, with),
                None => with,
            };
            if let Some(g) = s.mode(list[i] as int).spec_peer_group() {
                lemma_picked(s, g, s.slaves(g));
                lemma_slaves_from(s, s.direct_slaves(g), 0, with);
            }
            assert(below.contains(list[i]));
            lemma_slaves_from(s, list, i + 1, below);
        }
        assert forall|k: int| i <= k < list.len() implies r.contains(#[trigger] list[k]) by {
            if k == i {
            }
        }
    }
}

/// Whether the direct slaves of group `g` are all in `found`.
pub open spec fn slaves_are_in(s: Mounts, g: u64, found: Seq<usize>) -> bool {
    forall|k: int|
        0 <= k < s.direct_slaves(g).len() ==> found.contains(#[trigger] s.direct_slaves(g)[k])
}

/// Every mount that the search takes in has the slaves of its own group taken
/// in too.
proof fn lemma_slaves_closed(s: Mounts, list: Seq<usize>, i: int, found: Seq<usize>)
    requires
        s.wf(),
        0 <= i,
        distinct_mounts(s, found),
        forall|k: int| 0 <= k < list.len() ==> s.is_alive((#[trigger] list[k]) as int),
    ensures
        forall|x: usize, g: u64|
            #![trigger s.slaves_from(list, i, found).contains(x), s.direct_slaves(g)]
            s.slaves_from(list, i, found).contains(x) && !found.contains(x) && s.mode(
                x as int,
            ).spec_peer_group() == Some(g) ==> slaves_are_in(s, g, s.slaves_from(list, i, found)),
    decreases
            (if found.len() < s.mounts.len() {
                s.mounts.len() - found.len()
            } else {
                0
            }),
            list.len() - i,
{
    let r = s.slaves_from(list, i, found);
    if i < list.len() {
        assert(s.is_alive(list[i] as int));
        if found.contains(list[i]) {
            lemma_slaves_closed(s, list, i + 1, found);
            assert(r == s.slaves_from(list, i + 1, found));
        } else {
            lemma_push_distinct(s, found, list[i]);
            let with = found.push(list[i]);
            let below = match s.mode(list[i] as int).spec_peer_group() {
                Some(g) => s.slaves_from(s.direct_slaves(g), 0, with),
                None => with,
            };
            if let Some(g) = s.mode(list[i] as int).spec_peer_group() {
                lemma_picked(s, g, s.slaves(g));
                lemma_slaves_from(s, s.direct_slaves(g), 0, with);
                lemma_slaves_closed(s, s.direct_slaves(g), 0, with);
            }
            lemma_slaves_from(s, list, i + 1, below);
            lemma_slaves_closed(s, list, i + 1, below);
            assert(below.len() > found.len());
            assert(r == s.slaves_from(list, i + 1, below));
            assert forall|x: usize, g: u64|
                #![trigger r.contains(x), s.direct_slaves(g)]
                r.contains(x) && !found.contains(x) && s.mode(x as int).spec_peer_group() == Some(g)
                implies slaves_are_in(s, g, r) by {
                if below.contains(x) {
                    if x == list[i] {
                        assert(below == s.slaves_from(s.direct_slaves(g), 0, with));
                        assert(slaves_are_in(s, g, below));
                    } else {
                        if with.contains(x) {
                            let k = choose|k: int| 0 <= k < with.len() && with[k] == x;
                            assert(found[k] == x);
                        }
                        assert(slaves_are_in(s, g, below));
                    }
                    assert forall|k: int| 0 <= k < s.direct_slaves(g).len() implies r.contains(
                        #[trigger] s.direct_slaves(g)[k],
                    ) by {
                        assert(below.contains(s.direct_slaves(g)[k]));
                    }
                }
            }
        }
    }
}

/// The slaves of a group are found with all that follows: the group's own
/// slaves are among them, and with each of them the slaves of its group.
pub(crate) proof fn lemma_slaves_of_group(s: Mounts, g: u64)
    requires
        s.wf(),
    ensures
        distinct_mounts(s, s.slaves_of_group(g)),
        slaves_are_in(s, g, s.slaves_of_group(g)),
        forall|x: usize, h: u64|
            #![trigger s.slaves_of_group(g).contains(x), s.direct_slaves(h)]
            s.slaves_of_group(g).contains(x) && s.mode(x as int).spec_peer_group() == Some(h)
                ==> slaves_are_in(s, h, s.slaves_of_group(g)),
{
    lemma_picked(s, g, s.slaves(g));
    lemma_slaves_from(s, s.direct_slaves(g), 0, Seq::empty());
    lemma_slaves_closed(s, s.direct_slaves(g), 0, Seq::empty());
}

impl MountTable {
    pub fn root_location(&self, m: usize) -> (r: Location)
        requires
            m < self@.mounts.len(),
        ensures
            r == self@.root_location(m),
    {
        proof {
            self.lemma_parts();
        }
        Location { mountpoint: m, entry: self.mounts[m].root }
    }

    /// Where a mount is mounted.
    pub fn location(&self, m: usize) -> (r: Option<Location>)
        requires
            m < self@.mounts.len(),
        ensures
            r == self@.mounts[m as int].location,
    {
        proof {
            self.lemma_parts();
        }
        self.mounts[m].location
    }

    pub fn device(&self, m: usize) -> (r: u64)
        requires
            m < self@.mounts.len(),
        ensures
            r == self@.mounts[m as int].device,
    {
        proof {
            self.lemma_parts();
        }
        self.mounts[m].device
    }

    pub fn is_readonly(&self, m: usize) -> (r: bool)
        requires
            m < self@.mounts.len(),
        ensures
            r == self@.mounts[m as int].read_only,
    {
        proof {
            self.lemma_parts();
        }
        self.mounts[m].read_only
    }

    pub fn get_flags(&self, m: usize) -> (r: usize)
        requires
            m < self@.mounts.len(),
        ensures
            r == self@.mounts[m as int].flags,
    {
        proof {
            self.lemma_parts();
        }
        self.mounts[m].flags
    }

    pub fn is_alive(&self, m: usize) -> (r: bool)
        requires
            m < self@.mounts.len(),
        ensures
            r == self@.is_alive(m as int),
    {
        proof {
            self.lemma_parts();
        }
        self.mounts[m].alive
    }

    /// The live mount on the directory with key `key` of mount `m`.
    pub(crate) fn child_at(&self, m: usize, key: EntryKey) -> (r: Option<usize>)
        requires
            self@.wf(),
            m < self@.mounts.len(),
        ensures
            r == self@.child_at(m as int, key),
            r matches Some(c) ==> self@.is_alive(c as int),
    {
        proof {
            self.lemma_parts();
            assert(self@.mount_wf(m as int));
            assert(self@.mounts[m as int].children == child_map(self.mounts@[m as int].children));
        }
        match self.mounts[m].children.get(key) {
            Some(c) => {
                assert(self@.mounts[m as int].children.contains_key(key));
                assert(self@.mounts[c as int].alive == self.mounts@[c as int].alive);
                if self.mounts[c].alive {
                    Some(c)
                } else {
                    None
                }
            },
            None => None,
        }
    }

    /// The topmost of the mounts that lie on top of each other from `m` on.
    pub fn effective_mountpoint(&self, m: usize) -> (r: usize)
        requires
            self@.wf(),
            self@.is_alive(m as int),
        ensures
            r == self@.topmost(m, seq![m]),
            self@.is_alive(r as int),
    {
        let mut at: usize = m;
        let mut seen: Vec<usize> = Vec::new();
        seen.push(m);
        assert(seen@ =~= seq![m]);
        loop
            invariant
                self@.wf(),
                self@.is_alive(at as int),
                distinct_mounts(self@, seen@),
                self@.topmost(m, seq![m]) == self@.topmost(at, seen@),
            decreases self@.mounts.len() - seen@.len(),
        {
            proof {
                self.lemma_parts();
                assert(self@.mount_wf(at as int));
                assert(self@.mounts[at as int].root == self.mounts@[at as int].root);
                lemma_distinct_below(seen@, self@.mounts.len());
            }
            let key: EntryKey = self.entries.key(self.mounts[at].root);
            match self.child_at(at, key) {
                None => {
                    return at;
                },
                Some(c) => {
                    if lists(&seen, c) {
                        return at;
                    }
                    proof {
                        lemma_push_distinct(self@, seen@, c);
                        lemma_distinct_below(seen@.push(c), self@.mounts.len());
                    }
                    seen.push(c);
                    at = c;
                },
            }
        }
    }

    /// What is seen at `l`: the root of what is mounted there, if something is.
    pub fn resolve_mounted_location(&self, l: Location) -> (r: Location)
        requires
            self@.wf(),
            self@.location_wf(l),
        ensures
            r == self@.resolved(l),
            self@.location_wf(r),
            self@.is_alive(l.mountpoint as int) ==> self@.is_alive(r.mountpoint as int),
    {
        proof {
            self.lemma_parts();
        }
        let key: EntryKey = self.entries.key(l.entry);
        match self.child_at(l.mountpoint, key) {
            None => l,
            Some(c) => {
                let top: usize = self.effective_mountpoint(c);
                assert(self@.mount_wf(top as int));
                self.root_location(top)
            },
        }
    }

    /// Whether `l` is the root of its mount.
    pub fn is_root_of_mount(&self, l: Location) -> (r: bool)
        requires
            self@.wf(),
            self@.location_wf(l),
        ensures
            r == self@.at_root(l),
    {
        proof {
            self.lemma_parts();
            assert(self@.mount_wf(l.mountpoint as int));
        }
        let a: EntryKey = self.entries.key(l.entry);
        let b: EntryKey = self.entries.key(self.mounts[l.mountpoint].root);
        a.0 == b.0 && a.1 == b.1
    }

    /// Whether `l` is the root of the whole tree.
    pub fn is_root(&self, l: Location) -> (r: bool)
        requires
            self@.wf(),
            self@.location_wf(l),
        ensures
            r == (self@.mounts[l.mountpoint as int].location is None && self@.at_root(l)),
    {
        self.location(l.mountpoint).is_none() && self.is_root_of_mount(l)
    }

    /// Whether something was mounted at `l`.
    pub fn is_mountpoint(&self, l: Location) -> (r: bool)
        requires
            self@.location_wf(l),
        ensures
            r == self@.mounts[l.mountpoint as int].children.contains_key(
                key_of(self@.entries, l.entry as int),
            ),
    {
        proof {
            self.lemma_parts();
        }
        let key: EntryKey = self.entries.key(l.entry);
        self.mounts[l.mountpoint].children.get(key).is_some()
    }

    /// Whether mount `a` lies above mount `m`.
    pub fn is_mount_ancestor_of(&self, a: usize, m: usize) -> (r: bool)
        requires
            self@.wf(),
            a < self@.mounts.len(),
            m < self@.mounts.len(),
        ensures
            r == self@.mount_above(a, m),
    {
        if a == m {
            return false;
        }
        let mut at: usize = m;
        let mut n: usize = 0;
        assert(self@.up(m, 0) == Some(m));
        proof {
            self.lemma_parts();
        }
        while n < self.mounts.len()
            invariant
                self@.wf(),
                self@.mounts.len() == self.mounts@.len(),
                a != m,
                n <= self@.mounts.len(),
                at < self@.mounts.len(),
                self@.up(m, n as nat) == Some(at),
                forall|k: nat| k <= n ==> #[trigger] self@.up(m, k) != Some(a),
            decreases self@.mounts.len() - n,
        {
            proof {
                assert(self@.mount_wf(at as int));
                lemma_up_step(self@, m, n as nat, at);
            }
            match self.location(at) {
                None => {
                    proof {
                        assert forall|k: nat| 1 <= k <= self@.mounts.len() implies #[trigger] self@.up(
                            m,
                            k,
                        ) != Some(a) by {
                            if k > n {
                                lemma_up_ends(self@, m, (n + 1) as nat, k);
                            }
                        }
                    }
                    return false;
                },
                Some(l) => {
                    if l.mountpoint == a {
                        assert(self@.up(m, (n + 1) as nat) == Some(a));
                        return true;
                    }
                    at = l.mountpoint;
                },
            }
            n = n + 1;
        }
        false
    }

    /// The live peers in a group other than `exclude`.
    pub fn peer_group_members(&self, group: u64, exclude: usize) -> (r: Vec<usize>)
        requires
            self@.wf(),
        ensures
            r@ == self@.members(group, exclude),
            distinct_mounts(self@, r@),
    {
        let mut r: Vec<usize> = Vec::new();
        proof {
            self.lemma_parts();
            lemma_picked(self@, group, self@.peers(group, exclude));
        }
        if let Some(list) = self.groups.get(group) {
            let ghost keep = self@.peers(group, exclude);
            assert(self@.group_wf(group));
            let mut i: usize = 0;
            while i < list.len()
                invariant
                    i <= list@.len(),
                    keep == self@.peers(group, exclude),
                    list@ == self@.group(group),
                    self@.group_wf(group),
                    self@.mounts.len() == self.mounts@.len(),
                    r@ == sieve(list@.take(i as int), keep),
                decreases list@.len() - i,
            {
                let x: usize = list[i];
                proof {
                    self.lemma_parts();
                    assert(self@.group(group)[i as int] == x);
                    assert(list@.take((i + 1) as int).drop_last() =~= list@.take(i as int));
                }
                if self.is_alive(x) && x != exclude && is_group(
                    self.propagation(x).peer_group(),
                    group,
                ) {
                    r.push(x);
                }
                i = i + 1;
            }
            assert(list@.take(i as int) =~= list@);
        }
        r
    }

    /// The live slaves of a group.
    fn list_slaves(&self, group: u64) -> (r: Vec<usize>)
        requires
            self@.wf(),
        ensures
            r@ == self@.direct_slaves(group),
            distinct_mounts(self@, r@),
    {
        let mut r: Vec<usize> = Vec::new();
        proof {
            self.lemma_parts();
            lemma_picked(self@, group, self@.slaves(group));
        }
        if let Some(list) = self.groups.get(group) {
            let ghost keep = self@.slaves(group);
            assert(self@.group_wf(group));
            let mut i: usize = 0;
            while i < list.len()
                invariant
                    i <= list@.len(),
                    keep == self@.slaves(group),
                    list@ == self@.group(group),
                    self@.group_wf(group),
                    self@.mounts.len() == self.mounts@.len(),
                    r@ == sieve(list@.take(i as int), keep),
                decreases list@.len() - i,
            {
                let x: usize = list[i];
                proof {
                    self.lemma_parts();
                    assert(self@.group(group)[i as int] == x);
                    assert(list@.take((i + 1) as int).drop_last() =~= list@.take(i as int));
                }
                if self.is_alive(x) && is_group(self.propagation(x).master_group(), group) {
                    r.push(x);
                }
                i = i + 1;
            }
            assert(list@.take(i as int) =~= list@);
        }
        r
    }

    fn collect_slaves_of_group_rec(&self, group: u64, found: &mut Vec<usize>)
        requires
            self@.wf(),
            distinct_mounts(self@, old(found)@),
        ensures
            final(found)@ == self@.slaves_from(
                self@.direct_slaves(group),
                0,
                old(found)@,
            ),
            distinct_mounts(self@, final(found)@),
            final(found)@.len() >= old(found)@.len(),
        decreases self@.mounts.len() - old(found)@.len(),
    {
        let list: Vec<usize> = self.list_slaves(group);
        let ghost start = found@;
        proof {
            lemma_picked(self@, group, self@.slaves(group));
            lemma_slaves_from(self@, list@, 0, found@);
        }
        let mut i: usize = 0;
        while i < list.len()
            invariant
                self@.wf(),
                i <= list@.len(),
                distinct_mounts(self@, list@),
                distinct_mounts(self@, found@),
                found@.len() >= start.len(),
                start == old(found)@,
                self@.slaves_from(list@, 0, start) == self@.slaves_from(list@, i as int, found@),
            decreases list@.len() - i,
        {
            let slave: usize = list[i];
            assert(self@.is_alive(list@[i as int] as int));
            if !lists(found, slave) {
                let ghost before = found@;
                proof {
                    lemma_push_distinct(self@, found@, slave);
                    lemma_distinct_below(found@.push(slave), self@.mounts.len());
                }
                found.push(slave);
                match self.propagation(slave).peer_group() {
                    Some(g) => {
                        self.collect_slaves_of_group_rec(g, found);
                    },
                    None => {},
                }
                assert(found@.len() > before.len());
            }
            i = i + 1;
        }
    }

    /// The slaves of a group, theirs, and so on.
    pub fn slaves_of_group(&self, group: u64) -> (r: Vec<usize>)
        requires
            self@.wf(),
        ensures
            r@ == self@.slaves_of_group(group),
            distinct_mounts(self@, r@),
    {
        let mut found: Vec<usize> = Vec::new();
        self.collect_slaves_of_group_rec(group, &mut found);
        found
    }

    /// The group that the first live member of a group that has a master is a
    /// slave of.
    fn peer_group_master(&self, group: u64) -> (r: Option<u64>)
        requires
            self@.wf(),
        ensures
            r == self@.first_master(self@.group(group)),
    {
        proof {
            self.lemma_parts();
        }
        match self.groups.get(group) {
            None => None,
            Some(list) => {
                let mut i: usize = 0;
                proof {
                    assert(self@.group_wf(group));
                    assert(list@.skip(0) =~= list@);
                }
                while i < list.len()
                    invariant
                        i <= list@.len(),
                        list@ == self@.group(group),
                        self@.group_wf(group),
                        self@.first_master(list@) == self@.first_master(list@.skip(i as int)),
                    decreases list@.len() - i,
                {
                    let x: usize = list[i];
                    proof {
                        assert(self@.group(group)[i as int] == x);
                        assert(list@.skip(i as int)[0] == x);
                        assert(list@.skip(i as int).drop_first() =~= list@.skip((i + 1) as int));
                    }
                    if self.is_alive(x) {
                        let master: Option<u64> = self.propagation(x).master_group();
                        if master.is_some() {
                            return master;
                        }
                    }
                    i = i + 1;
                }
                None
            },
        }
    }

    /// Whether group `g` is the master of mount `m` or above its master.
    pub fn is_slave_of(&self, m: usize, g: u64) -> (r: bool)
        requires
            self@.wf(),
            m < self@.mounts.len(),
        ensures
            r == self@.slave_of(m, g),
    {
        let first: u64 = match self.propagation(m).master_group() {
            Some(h) => h,
            None => {
                return false;
            },
        };
        let mut at: u64 = first;
        let mut n: usize = 0;
        assert(self@.group_up(first, 0) == Some(first));
        proof {
            self.lemma_parts();
        }
        loop
            invariant
                self@.wf(),
                self@.mounts.len() == self.mounts@.len(),
                m < self@.mounts.len(),
                self@.mode(m as int).spec_master_group() == Some(first),
                n <= self@.mounts.len(),
                self@.group_up(first, n as nat) == Some(at),
                forall|k: nat| k < n ==> #[trigger] self@.group_up(first, k) != Some(g),
            decreases self@.mounts.len() - n,
        {
            if at == g {
                return true;
            }
            if n >= self.mounts.len() {
                return false;
            }
            proof {
                lemma_group_up_step(self@, first, n as nat, at);
            }
            match self.peer_group_master(at) {
                None => {
                    proof {
                        assert forall|k: nat| k <= self@.mounts.len() implies #[trigger] self@.group_up(
                            first,
                            k,
                        ) != Some(g) by {
                            if k > n {
                                lemma_group_up_ends(self@, first, (n + 1) as nat, k);
                            }
                        }
                    }
                    return false;
                },
                Some(h) => {
                    at = h;
                },
            }
            n = n + 1;
        }
    }
}

fn is_group(a: Option<u64>, g: u64) -> (r: bool)
    ensures
        r == (a == Some(g)),
{
    match a {
        Some(h) => h == g,
        None => false,
    }
}

pub(crate) fn lists(list: &Vec<usize>, x: usize) -> (r: bool)
    ensures
        r == list@.contains(x),
{
    let mut i: usize = 0;
    while i < list.len()
        invariant
            i <= list@.len(),
            forall|k: int| 0 <= k < i ==> list@[k] != x,
        decreases list@.len() - i,
    {
        if list[i] == x {
            assert(list@[i as int] == x);
            return true;
        }
        i = i + 1;
    }
    false
}

/// The last step of the way up.
proof fn lemma_up_step(s: Mounts, m: usize, n: nat, at: usize)
    requires
        s.up(m, n) == Some(at),
    ensures
        s.up(m, (n + 1) as nat) == match s.mounts[at as int].location {
            Some(l) => Some(l.mountpoint),
            None => None,
        },
    decreases n,
{
    reveal_with_fuel(Mounts::up, 2);
    if n > 0 {
        lemma_up_step(s, s.mounts[m as int].location->0.mountpoint, (n - 1) as nat, at);
    }
}

proof fn lemma_up_ends(s: Mounts, m: usize, n: nat, k: nat)
    requires
        n <= k,
        s.up(m, n) is None,
    ensures
        s.up(m, k) is None,
    decreases n,
{
    if n > 0 {
        if let Some(l) = s.mounts[m as int].location {
            lemma_up_ends(s, l.mountpoint, (n - 1) as nat, (k - 1) as nat);
        }
    }
}

proof fn lemma_group_up_step(s: Mounts, g: u64, n: nat, at: u64)
    requires
        s.group_up(g, n) == Some(at),
    ensures
        s.group_up(g, (n + 1) as nat) == s.first_master(s.group(at)),
    decreases n,
{
    reveal_with_fuel(Mounts::group_up, 2);
    if n > 0 {
        lemma_group_up_step(s, s.first_master(s.group(g))->0, (n - 1) as nat, at);
    }
}

proof fn lemma_group_up_ends(s: Mounts, g: u64, n: nat, k: nat)
    requires
        n <= k,
        s.group_up(g, n) is None,
    ensures
        s.group_up(g, k) is None,
    decreases n,
{
    if n > 0 {
        if let Some(h) = s.first_master(s.group(g)) {
            lemma_group_up_ends(s, h, (n - 1) as nat, (k - 1) as nat);
        }
    }
}

} // verus!
