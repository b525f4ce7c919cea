//! The mount tree and the peer groups of its mounts.
use vstd::prelude::*;

use super::entry::{entries_wf, Entry, EntryInfo, EntryTree};
use super::maps::{child_map, no_groups, ChildMap, EntryKey, GroupMap};
use super::propagation::PropagationMode;

verus! {

/// A place in the tree: an entry as seen through a mount.
#[derive(Debug, Clone, Copy, PartialEq, Eq, Structural)]
pub struct Location {
    pub mountpoint: usize,
    pub entry: usize,
}

/// One mount.
pub struct Mountpoint {
    pub(crate) root: usize,
    pub(crate) location: Option<Location>,
    pub(crate) children: ChildMap,
    pub(crate) device: u64,
    pub(crate) id: u64,
    pub(crate) propagation: PropagationMode,
    pub(crate) read_only: bool,
    pub(crate) flags: usize,
    pub(crate) alive: bool,
}

/// What a [`Mountpoint`] holds.
pub ghost struct Mount {
    /// The entry at its root.
    pub root: usize,
    /// Where it is mounted.
    pub location: Option<Location>,
    /// The mounts on its directories.
    pub children: Map<EntryKey, usize>,
    pub device: u64,
    pub id: u64,
    pub mode: PropagationMode,
    pub read_only: bool,
    pub flags: usize,
    /// Whether anything still holds the mount.
    pub alive: bool,
}

impl Mountpoint {
    pub closed spec fn view(&self) -> Mount {
        Mount {
            root: self.root,
            location: self.location,
            children: self.children@,
            device: self.device,
            id: self.id,
            mode: self.propagation,
            read_only: self.read_only,
            flags: self.flags,
            alive: self.alive,
        }
    }

    /// What can be said of the parts of a mount.
    pub(crate) proof fn lemma_view(&self)
        ensures
            self@ == (Mount {
                root: self.root,
                location: self.location,
                children: child_map(self.children),
                device: self.device,
                id: self.id,
                mode: self.propagation,
                read_only: self.read_only,
                flags: self.flags,
                alive: self.alive,
            }),
    {
    }
}

/// All mounts, known by their places, and the groups that they belong to.
pub struct MountTable {
    pub(crate) entries: EntryTree,
    pub(crate) mounts: Vec<Mountpoint>,
    pub(crate) groups: GroupMap,
    pub(crate) next_device: u64,
    pub(crate) next_id: u64,
    pub(crate) next_group: u64,
}

/// What a [`MountTable`] holds.
pub ghost struct Mounts {
    pub entries: Seq<EntryInfo>,
    pub mounts: Seq<Mount>,
    pub groups: Map<u64, Seq<usize>>,
    pub next_device: u64,
    pub next_id: u64,
    pub next_group: u64,
}

/// The members of `s` that `keep` picks.
pub open spec fn sieve(s: Seq<usize>, keep: spec_fn(usize) -> bool) -> Seq<usize>
    decreases s.len(),
{
    if s.len() == 0 {
        s
    } else if keep(s.last()) {
        sieve(s.drop_last(), keep).push(s.last())
    } else {
        sieve(s.drop_last(), keep)
    }
}

pub(crate) proof fn lemma_sieve(s: Seq<usize>, keep: spec_fn(usize) -> bool, x: usize)
    ensures
        sieve(s, keep).contains(x) <==> s.contains(x) && keep(x),
    decreases s.len(),
{
    if s.len() > 0 {
        let rest = s.drop_last();
        lemma_sieve(rest, keep, x);
        assert(s.contains(x) <==> rest.contains(x) || s.last() == x) by {
            if s.contains(x) {
                let i = choose|i: int| 0 <= i < s.len() && s[i] == x;
                if i < s.len() - 1 {
                    assert(rest[i] == x);
                }
            }
            if rest.contains(x) {
                let i = choose|i: int| 0 <= i < rest.len() && rest[i] == x;
                assert(s[i] == x);
            }
        }
        let t = sieve(rest, keep);
        if keep(s.last()) {
            assert(t.push(s.last()).contains(x) <==> t.contains(x) || s.last() == x) by {
                let u = t.push(s.last());
                if u.contains(x) {
                    let i = choose|i: int| 0 <= i < u.len() && u[i] == x;
                    if i < t.len() {
                        assert(t[i] == x);
                    }
                }
                if t.contains(x) {
                    let i = choose|i: int| 0 <= i < t.len() && t[i] == x;
                    assert(u[i] == x);
                }
                assert(u[u.len() - 1] == s.last());
            }
        }
    }
}

pub(crate) proof fn lemma_sieve_no_duplicates(s: Seq<usize>, keep: spec_fn(usize) -> bool)
    requires
        s.no_duplicates(),
    ensures
        sieve(s, keep).no_duplicates(),
    decreases s.len(),
{
    if s.len() > 0 {
        let rest = s.drop_last();
        assert(rest.no_duplicates()) by {
            assert forall|i: int, j: int| 0 <= i < rest.len() && 0 <= j < rest.len() && i != j
                implies rest[i] != rest[j] by {
                assert(rest[i] == s[i] && rest[j] == s[j]);
            }
        }
        lemma_sieve_no_duplicates(rest, keep);
        lemma_sieve(rest, keep, s.last());
        assert(!rest.contains(s.last())) by {
            if rest.contains(s.last()) {
                let i = choose|i: int| 0 <= i < rest.len() && rest[i] == s.last();
                assert(s[i] == s[s.len() - 1]);
            }
        }
        let t = sieve(rest, keep);
        if keep(s.last()) {
            let u = t.push(s.last());
            assert forall|i: int, j: int| 0 <= i < u.len() && 0 <= j < u.len() && i != j implies u[i]
                != u[j] by {
                if i == t.len() {
                    assert(t.contains(t[j]));
                } else if j == t.len() {
                    assert(t.contains(t[i]));
                }
            }
        }
    }
}

impl Mounts {
    /// The members of group `g`, dead ones among them.
    pub open spec fn group(self, g: u64) -> Seq<usize> {
        if self.groups.contains_key(g) {
            self.groups[g]
        } else {
            Seq::empty()
        }
    }

    pub open spec fn mode(self, m: int) -> PropagationMode {
        self.mounts[m].mode
    }

    pub open spec fn is_alive(self, m: int) -> bool {
        0 <= m < self.mounts.len() && self.mounts[m].alive
    }

    /// What a mount refers to is there.
    pub open spec fn mount_wf(self, m: int) -> bool {
        let mount = self.mounts[m];
        &&& mount.root < self.entries.len()
        &&& mount.location matches Some(l) ==> l.mountpoint < self.mounts.len() && l.entry
            < self.entries.len()
        &&& forall|k: EntryKey| #[trigger]
            mount.children.contains_key(k) ==> mount.children[k] < self.mounts.len()
    }

    /// The members of group `g` are mounts.
    pub open spec fn group_in_range(self, g: u64) -> bool {
        forall|i: int|
            0 <= i < self.group(g).len() ==> (#[trigger] self.group(g)[i]) < self.mounts.len()
    }

    /// A group holds each of its members once, and its members name it.
    pub open spec fn group_wf(self, g: u64) -> bool {
        let s = self.group(g);
        &&& s.no_duplicates()
        &&& forall|i: int| 0 <= i < s.len() ==> (#[trigger] s[i]) < self.mounts.len()
        &&& forall|i: int|
            0 <= i < s.len() && self.mounts[(#[trigger] s[i]) as int].alive
                ==> self.mounts[s[i] as int].mode.mentions(g)
    }

    pub open spec fn wf(self) -> bool {
        &&& entries_wf(self.entries)
        &&& forall|m: int| 0 <= m < self.mounts.len() ==> #[trigger] self.mount_wf(m)
        &&& forall|g: u64| #[trigger] self.group_wf(g)
    }

    pub open spec fn location_wf(self, l: Location) -> bool {
        l.mountpoint < self.mounts.len() && l.entry < self.entries.len()
    }

    /// With mount `m` exchanged for `x`.
    pub open spec fn with_mount(self, m: int, x: Mount) -> Self {
        Mounts { mounts: self.mounts.update(m, x), ..self }
    }

    pub open spec fn with_mode(self, m: int, mode: PropagationMode) -> Self {
        self.with_mount(m, Mount { mode, ..self.mounts[m] })
    }

    /// With `m` in group `g`.
    pub open spec fn joined(self, g: u64, m: usize) -> Self {
        Mounts {
            groups: self.groups.insert(
                g,
                if self.group(g).contains(m) {
                    self.group(g)
                } else {
                    self.group(g).push(m)
                },
            ),
            ..self
        }
    }

    /// Picks the live mounts other than `m`.
    pub open spec fn others(self, m: usize) -> spec_fn(usize) -> bool {
        |x: usize| self.is_alive(x as int) && x != m
    }

    /// Without `m` in group `g`. Dead members leave with it, and a group without
    /// members is gone.
    pub open spec fn left(self, g: u64, m: usize) -> Self {
        if !self.groups.contains_key(g) {
            self
        } else {
            let rest = sieve(self.groups[g], self.others(m));
            Mounts {
                groups: if rest.len() == 0 {
                    self.groups.remove(g)
                } else {
                    self.groups.insert(g, rest)
                },
                ..self
            }
        }
    }

    /// With `m` in the groups that `mode` names.
    pub open spec fn registered(self, m: usize, mode: PropagationMode) -> Self {
        match mode {
            PropagationMode::Shared { peer_group } => self.joined(peer_group, m),
            PropagationMode::Slave { master_group } => self.joined(master_group, m),
            PropagationMode::SharedAndSlave { peer_group, master_group } => {
                if peer_group != master_group {
                    self.joined(peer_group, m).joined(master_group, m)
                } else {
                    self.joined(peer_group, m)
                }
            },
            _ => self,
        }
    }

    /// Without `m` in the groups that `mode` names.
    pub open spec fn unregistered(self, m: usize, mode: PropagationMode) -> Self {
        match mode {
            PropagationMode::Shared { peer_group } => self.left(peer_group, m),
            PropagationMode::Slave { master_group } => self.left(master_group, m),
            PropagationMode::SharedAndSlave { peer_group, master_group } => {
                if peer_group != master_group {
                    self.left(peer_group, m).left(master_group, m)
                } else {
                    self.left(peer_group, m)
                }
            },
            _ => self,
        }
    }

    /// With mode `mode` for mount `m`, which moves to the groups of that mode.
    pub open spec fn moved_to(self, m: usize, mode: PropagationMode) -> Self {
        self.with_mode(m as int, mode).unregistered(m, self.mode(m as int)).registered(m, mode)
    }

    /// With mode `mode` for mount `m`; nothing happens where it has that mode.
    pub open spec fn mode_changed(self, m: usize, mode: PropagationMode) -> Self {
        if self.mode(m as int) == mode {
            self
        } else {
            self.moved_to(m, mode)
        }
    }

    /// With one more group counted.
    pub open spec fn next_group_taken(self) -> Self {
        Mounts { next_group: self.next_group.wrapping_add(1), ..self }
    }

    /// The mode that [`MountTable::make_shared`] gives.
    pub open spec fn shared_mode(self, m: usize) -> PropagationMode {
        match self.mode(m as int) {
            PropagationMode::Slave { master_group } => PropagationMode::SharedAndSlave {
                peer_group: self.next_group,
                master_group,
            },
            _ => PropagationMode::Shared { peer_group: self.next_group },
        }
    }

    pub open spec fn made_shared(self, m: usize) -> Self {
        if self.mode(m as int).spec_peer_group() is Some {
            self
        } else {
            self.next_group_taken().moved_to(m, self.shared_mode(m))
        }
    }

    pub open spec fn made_slave(self, m: usize) -> Self {
        match self.mode(m as int) {
            PropagationMode::Shared { peer_group } => self.moved_to(
                m,
                PropagationMode::Slave { master_group: peer_group },
            ),
            PropagationMode::SharedAndSlave { peer_group, .. } => self.moved_to(
                m,
                PropagationMode::Slave { master_group: peer_group },
            ),
            PropagationMode::Slave { .. } => self,
            _ => self.moved_to(m, PropagationMode::Private),
        }
    }
}

/// A group is well formed where only its list differs.
proof fn lemma_left(s: Mounts, g: u64, m: usize, h: u64)
    ensures
        ({
            let t = s.left(g, m);
            &&& t.mounts == s.mounts
            &&& t.entries == s.entries
            &&& h != g ==> t.group(h) == s.group(h)
            &&& forall|x: usize| #[trigger]
                t.group(g).contains(x) ==> s.group(g).contains(x) && x != m
            &&& forall|x: usize|
                x != m && s.is_alive(x as int) && #[trigger] s.group(g).contains(x) ==> t.group(
                    g,
                ).contains(x)
            &&& s.group(g).no_duplicates() ==> t.group(g).no_duplicates()
        }),
{
    let t = s.left(g, m);
    if s.groups.contains_key(g) {
        assert forall|x: usize| #[trigger] t.group(g).contains(x) implies s.group(g).contains(x) && x
            != m by {
            lemma_sieve(s.groups[g], s.others(m), x);
        }
        assert forall|x: usize|
            x != m && s.is_alive(x as int) && #[trigger] s.group(g).contains(x) implies t.group(
            g,
        ).contains(x) by {
            lemma_sieve(s.groups[g], s.others(m), x);
        }
        if s.group(g).no_duplicates() {
            lemma_sieve_no_duplicates(s.groups[g], s.others(m));
        }
    }
}

proof fn lemma_joined(s: Mounts, g: u64, m: usize, h: u64)
    ensures
        ({
            let t = s.joined(g, m);
            &&& t.mounts == s.mounts
            &&& t.entries == s.entries
            &&& h != g ==> t.group(h) == s.group(h)
            &&& forall|x: usize| #[trigger]
                t.group(g).contains(x) <==> s.group(g).contains(x) || x == m
            &&& s.group(g).no_duplicates() ==> t.group(g).no_duplicates()
        }),
{
    let t = s.joined(g, m);
    let list = s.group(g);
    if !list.contains(m) {
        let pushed = list.push(m);
        assert forall|x: usize| #[trigger] pushed.contains(x) <==> list.contains(x) || x == m by {
            if pushed.contains(x) {
                let i = choose|i: int| 0 <= i < pushed.len() && pushed[i] == x;
                if i < list.len() {
                    assert(list[i] == x);
                }
            }
            if list.contains(x) {
                let i = choose|i: int| 0 <= i < list.len() && list[i] == x;
                assert(pushed[i] == x);
            }
            assert(pushed[list.len() as int] == m);
        }
        if list.no_duplicates() {
            assert forall|i: int, j: int|
                0 <= i < pushed.len() && 0 <= j < pushed.len() && i != j implies pushed[i]
                != pushed[j] by {
                if i == list.len() {
                    assert(list.contains(list[j]));
                } else if j == list.len() {
                    assert(list.contains(list[i]));
                }
            }
        }
    }
}

/// Leaving the groups of a mode changes no other group; each of the groups
/// loses `m` and gains nobody.
pub(crate) proof fn lemma_unregistered(s: Mounts, m: usize, mode: PropagationMode, h: u64)
    ensures
        ({
            let t = s.unregistered(m, mode);
            &&& t.mounts == s.mounts
            &&& t.entries == s.entries
            &&& !mode.mentions(h) ==> t.group(h) == s.group(h)
            &&& forall|x: usize| #[trigger] t.group(h).contains(x) ==> s.group(h).contains(x)
            &&& mode.mentions(h) ==> !t.group(h).contains(m)
            &&& forall|x: usize|
                x != m && s.is_alive(x as int) && #[trigger] s.group(h).contains(x) ==> t.group(
                    h,
                ).contains(x)
            &&& s.group(h).no_duplicates() ==> t.group(h).no_duplicates()
        }),
{
    match mode {
        PropagationMode::Shared { peer_group } => {
            lemma_left(s, peer_group, m, h);
        },
        PropagationMode::Slave { master_group } => {
            lemma_left(s, master_group, m, h);
        },
        PropagationMode::SharedAndSlave { peer_group, master_group } => {
            lemma_left(s, peer_group, m, h);
            lemma_left(s, peer_group, m, master_group);
            lemma_left(s.left(peer_group, m), master_group, m, h);
        },
        _ => {},
    }
}

pub(crate) proof fn lemma_registered(s: Mounts, m: usize, mode: PropagationMode, h: u64)
    ensures
        ({
            let t = s.registered(m, mode);
            &&& t.mounts == s.mounts
            &&& t.entries == s.entries
            &&& !mode.mentions(h) ==> t.group(h) == s.group(h)
            &&& forall|x: usize| #[trigger]
                t.group(h).contains(x) <==> s.group(h).contains(x) || (mode.mentions(h) && x == m)
            &&& s.group(h).no_duplicates() ==> t.group(h).no_duplicates()
        }),
{
    match mode {
        PropagationMode::Shared { peer_group } => {
            lemma_joined(s, peer_group, m, h);
        },
        PropagationMode::Slave { master_group } => {
            lemma_joined(s, master_group, m, h);
        },
        PropagationMode::SharedAndSlave { peer_group, master_group } => {
            lemma_joined(s, peer_group, m, h);
            lemma_joined(s, peer_group, m, master_group);
            lemma_joined(s.joined(peer_group, m), master_group, m, h);
        },
        _ => {},
    }
}

/// A live mount that has moved to a mode is in the groups of that mode and in
/// no other, and everything stays well formed.
pub(crate) proof fn lemma_moved_to(s: Mounts, m: usize, mode: PropagationMode)
    requires
        s.wf(),
        s.is_alive(m as int),
    ensures
        s.moved_to(m, mode).wf(),
        s.moved_to(m, mode).mounts == s.with_mode(m as int, mode).mounts,
        s.moved_to(m, mode).entries == s.entries,
        s.moved_to(m, mode).next_group == s.next_group,
        s.moved_to(m, mode).next_id == s.next_id,
        s.moved_to(m, mode).next_device == s.next_device,
        forall|g: u64| #[trigger]
            s.moved_to(m, mode).group(g).contains(m) <==> mode.mentions(g),
{
    let before = s.mode(m as int);
    let a = s.with_mode(m as int, mode);
    let b = a.unregistered(m, before);
    let t = b.registered(m, mode);
    assert(t.mounts == a.mounts && t.entries == s.entries) by {
        lemma_unregistered(a, m, before, 0);
        lemma_registered(b, m, mode, 0);
    }
    assert forall|g: u64| #[trigger] t.group_wf(g) && (t.group(g).contains(m) <==> mode.mentions(
        g,
    )) by {
        assert(s.group_wf(g));
        assert(a.group(g) == s.group(g));
        lemma_unregistered(a, m, before, g);
        lemma_registered(b, m, mode, g);
        let l = t.group(g);
        if a.group(g).contains(m) {
            let i = choose|i: int| 0 <= i < s.group(g).len() && s.group(g)[i] == m;
            assert(s.mounts[s.group(g)[i] as int].mode.mentions(g));
        }
        assert(!b.group(g).contains(m));
        assert forall|i: int| 0 <= i < l.len() implies (#[trigger] l[i]) < t.mounts.len() && (
        t.mounts[l[i] as int].alive ==> t.mounts[l[i] as int].mode.mentions(g)) by {
            let x = l[i];
            assert(l.contains(x));
            if x != m {
                assert(s.group(g).contains(x));
                let k = choose|k: int| 0 <= k < s.group(g).len() && s.group(g)[k] == x;
                assert(s.group(g)[k] == x);
            }
        }
    }
    assert forall|g: u64| #[trigger] t.group(g).contains(m) <==> mode.mentions(g) by {
        assert(t.group_wf(g));
    }
    assert forall|k: int| 0 <= k < t.mounts.len() implies #[trigger] t.mount_wf(k) by {
        assert(s.mount_wf(k));
    }
}

impl MountTable {
    pub closed spec fn view(&self) -> Mounts {
        Mounts {
            entries: self.entries@,
            mounts: Seq::new(self.mounts@.len(), |i: int| self.mounts@[i]@),
            groups: self.groups@,
            next_device: self.next_device,
            next_id: self.next_id,
            next_group: self.next_group,
        }
    }

    /// What can be said of the parts of a table.
    pub(crate) proof fn lemma_parts(&self)
        ensures
            self@.entries == self.entries@,
            self@.mounts.len() == self.mounts@.len(),
            self@.mounts.len() <= usize::MAX,
            forall|i: int|
                0 <= i < self.mounts@.len() ==> (#[trigger] self@.mounts[i]) == (Mount {
                    root: self.mounts@[i].root,
                    location: self.mounts@[i].location,
                    children: child_map(self.mounts@[i].children),
                    device: self.mounts@[i].device,
                    id: self.mounts@[i].id,
                    mode: self.mounts@[i].propagation,
                    read_only: self.mounts@[i].read_only,
                    flags: self.mounts@[i].flags,
                    alive: self.mounts@[i].alive,
                }),
            self@.groups == self.groups@,
            self@.next_device == self.next_device,
            self@.next_id == self.next_id,
            self@.next_group == self.next_group,
    {
        assert(self.mounts@.len() == self.mounts.len());
    }

    /// Nothing is mounted, no entry is known.
    pub fn new() -> (r: Self)
        ensures
            r@ == (Mounts {
                entries: Seq::empty(),
                mounts: Seq::empty(),
                groups: no_groups(),
                next_device: 1,
                next_id: 1,
                next_group: 1,
            }),
            r@.wf(),
    {
        let r = MountTable {
            entries: EntryTree::new(),
            mounts: Vec::new(),
            groups: GroupMap::new(),
            next_device: 1,
            next_id: 1,
            next_group: 1,
        };
        assert(r@.mounts =~= Seq::empty());
        r
    }

    /// Takes an entry in and returns its place.
    pub fn add_entry(&mut self, entry: Entry) -> (r: usize)
        requires
            old(self)@.wf(),
            entry.parent matches Some(p) ==> p < old(self)@.entries.len(),
        ensures
            r == old(self)@.entries.len(),
            final(self)@ == (Mounts { entries: old(self)@.entries.push(entry@), ..old(self)@ }),
            final(self)@.wf(),
    {
        let r: usize = self.entries.push(entry);
        assert(self@.mounts =~= old(self)@.mounts);
        assert forall|m: int| 0 <= m < self@.mounts.len() implies #[trigger] self@.mount_wf(m) by {
            assert(old(self)@.mount_wf(m));
        }
        assert forall|g: u64| #[trigger] self@.group_wf(g) by {
            assert(old(self)@.group_wf(g));
        }
        r
    }

    fn set_mode(&mut self, m: usize, mode: PropagationMode)
        requires
            m < old(self)@.mounts.len(),
        ensures
            final(self)@ == old(self)@.with_mode(m as int, mode),
    {
        self.mounts[m].propagation = mode;
        assert(self@.mounts =~= old(self)@.with_mode(m as int, mode).mounts);
    }

    /// Puts `m` into group `group`.
    fn peer_group_add(&mut self, group: u64, m: usize)
        ensures
            final(self)@ == old(self)@.joined(group, m),
    {
        let mut list: Vec<usize> = Vec::new();
        let mut found: bool = false;
        match self.groups.get(group) {
            Some(members) => {
                let mut i: usize = 0;
                while i < members.len()
                    invariant
                        i <= members@.len(),
                        list@ == members@.take(i as int),
                        found <==> members@.take(i as int).contains(m),
                    decreases members@.len() - i,
                {
                    let x: usize = members[i];
                    list.push(x);
                    proof {
                        let a = members@.take(i as int);
                        let b = members@.take((i + 1) as int);
                        assert(b =~= a.push(x));
                        assert(b[i as int] == x);
                        assert(b.contains(m) <==> a.contains(m) || x == m) by {
                            if a.contains(m) {
                                let k = choose|k: int| 0 <= k < a.len() && a[k] == m;
                                assert(b[k] == m);
                            }
                            if b.contains(m) && x != m {
                                let k = choose|k: int| 0 <= k < b.len() && b[k] == m;
                                assert(a[k] == m);
                            }
                        }
                    }
                    if x == m {
                        found = true;
                    }
                    i = i + 1;
                }
                assert(members@.take(i as int) =~= members@);
            },
            None => {},
        }
        assert(list@ == self@.group(group));
        assert(found <==> self@.group(group).contains(m));
        if !found {
            list.push(m);
        }
        self.groups.insert(group, list);
        assert(self@.mounts =~= old(self)@.mounts);
    }

    /// Takes `m` out of group `group`.
    fn peer_group_remove(&mut self, group: u64, m: usize)
        requires
            old(self)@.group_in_range(group),
        ensures
            final(self)@ == old(self)@.left(group, m),
    {
        let mut rest: Vec<usize> = Vec::new();
        match self.groups.get(group) {
            None => {
                return;
            },
            Some(members) => {
                let ghost keep = self@.others(m);
                let mut i: usize = 0;
                while i < members.len()
                    invariant
                        i <= members@.len(),
                        keep == self@.others(m),
                        members@ == self@.group(group),
                        self@.group_in_range(group),
                        self@.mounts.len() == self.mounts@.len(),
                        rest@ == sieve(members@.take(i as int), keep),
                    decreases members@.len() - i,
                {
                    let x: usize = members[i];
                    assert(self@.group(group)[i as int] == x);
                    assert(members@.take((i + 1) as int).drop_last() =~= members@.take(i as int));
                    assert(self@.mounts[x as int].alive == self.mounts@[x as int].alive);
                    if self.mounts[x].alive && x != m {
                        rest.push(x);
                    }
                    i = i + 1;
                }
                assert(members@.take(i as int) =~= members@);
            },
        }
        if rest.len() == 0 {
            self.groups.remove(group);
        } else {
            self.groups.insert(group, rest);
        }
        assert(self@.mounts =~= old(self)@.mounts);
    }
}

/// A mount that leaves its groups leaves everything well formed.
pub(crate) proof fn lemma_unregistered_wf(s: Mounts, m: usize, mode: PropagationMode)
    requires
        s.wf(),
    ensures
        s.unregistered(m, mode).wf(),
        s.unregistered(m, mode).mounts == s.mounts,
        s.unregistered(m, mode).entries == s.entries,
        forall|g: u64| #[trigger] s.group_in_range(g),
{
    let t = s.unregistered(m, mode);
    lemma_unregistered(s, m, mode, 0);
    assert forall|g: u64| #[trigger] s.group_in_range(g) by {
        assert(s.group_wf(g));
    }
    assert forall|k: int| 0 <= k < t.mounts.len() implies #[trigger] t.mount_wf(k) by {
        assert(s.mount_wf(k));
    }
    assert forall|g: u64| #[trigger] t.group_wf(g) by {
        assert(s.group_wf(g));
        lemma_unregistered(s, m, mode, g);
        let l = t.group(g);
        assert forall|i: int| 0 <= i < l.len() implies (#[trigger] l[i]) < t.mounts.len() && (
        t.mounts[l[i] as int].alive ==> t.mounts[l[i] as int].mode.mentions(g)) by {
            assert(l.contains(l[i]));
            assert(s.group(g).contains(l[i]));
            let k = choose|k: int| 0 <= k < s.group(g).len() && s.group(g)[k] == l[i];
            assert(s.group(g)[k] == l[i]);
        }
    }
}

/// Leaving a group takes nobody in.
proof fn lemma_left_in_range(s: Mounts, g: u64, m: usize, h: u64)
    requires
        s.group_in_range(h),
    ensures
        s.left(g, m).group_in_range(h),
{
    lemma_left(s, g, m, h);
    let t = s.left(g, m);
    assert forall|i: int| 0 <= i < t.group(h).len() implies (#[trigger] t.group(h)[i])
        < t.mounts.len() by {
        if h == g {
            let x = t.group(g)[i];
            assert(t.group(g).contains(x));
            let k = choose|k: int| 0 <= k < s.group(g).len() && s.group(g)[k] == x;
            assert(s.group(g)[k] == x);
        } else {
            assert(t.group(h)[i] == s.group(h)[i]);
        }
    }
}

impl MountTable {
    fn add_to_registry(&mut self, m: usize, mode: PropagationMode)
        ensures
            final(self)@ == old(self)@.registered(m, mode),
    {
        match mode {
            PropagationMode::Shared { peer_group } => {
                self.peer_group_add(peer_group, m);
            },
            PropagationMode::Slave { master_group } => {
                self.peer_group_add(master_group, m);
            },
            PropagationMode::SharedAndSlave { peer_group, master_group } => {
                self.peer_group_add(peer_group, m);
                if peer_group != master_group {
                    self.peer_group_add(master_group, m);
                }
            },
            _ => {},
        }
    }

    pub(crate) fn remove_from_registry(&mut self, m: usize, mode: PropagationMode)
        requires
            forall|g: u64| #[trigger] old(self)@.group_in_range(g),
        ensures
            final(self)@ == old(self)@.unregistered(m, mode),
    {
        match mode {
            PropagationMode::Shared { peer_group } => {
                assert(self@.group_in_range(peer_group));
                self.peer_group_remove(peer_group, m);
            },
            PropagationMode::Slave { master_group } => {
                assert(self@.group_in_range(master_group));
                self.peer_group_remove(master_group, m);
            },
            PropagationMode::SharedAndSlave { peer_group, master_group } => {
                assert(self@.group_in_range(peer_group));
                assert(self@.group_in_range(master_group));
                proof {
                    lemma_left_in_range(self@, peer_group, m, master_group);
                }
                self.peer_group_remove(peer_group, m);
                if peer_group != master_group {
                    self.peer_group_remove(master_group, m);
                }
            },
            _ => {},
        }
    }

    fn move_to(&mut self, m: usize, mode: PropagationMode)
        requires
            old(self)@.wf(),
            old(self)@.is_alive(m as int),
        ensures
            final(self)@ == old(self)@.moved_to(m, mode),
            final(self)@.wf(),
    {
        proof {
            self.lemma_parts();
            lemma_moved_to(self@, m, mode);
        }
        let before: PropagationMode = self.mounts[m].propagation;
        self.set_mode(m, mode);
        assert forall|g: u64| #[trigger] self@.group_in_range(g) by {
            assert(old(self)@.group_wf(g));
            assert(self@.group(g) == old(self)@.group(g));
        }
        self.remove_from_registry(m, before);
        self.add_to_registry(m, mode);
    }

    /// Takes the number of a new group.
    pub(crate) fn take_group(&mut self) -> (r: u64)
        ensures
            r == old(self)@.next_group,
            final(self)@ == old(self)@.next_group_taken(),
            old(self)@.wf() ==> final(self)@.wf(),
    {
        let g: u64 = self.next_group;
        self.next_group = self.next_group.wrapping_add(1);
        proof {
            assert(self@.mounts =~= old(self)@.mounts);
            if old(self)@.wf() {
                assert forall|m: int| 0 <= m < self@.mounts.len() implies #[trigger] self@.mount_wf(
                    m,
                ) by {
                    assert(old(self)@.mount_wf(m));
                }
                assert forall|h: u64| #[trigger] self@.group_wf(h) by {
                    assert(old(self)@.group_wf(h));
                }
            }
        }
        g
    }

    pub fn propagation(&self, m: usize) -> (r: PropagationMode)
        requires
            m < self@.mounts.len(),
        ensures
            r == self@.mode(m as int),
    {
        proof {
            self.lemma_parts();
        }
        self.mounts[m].propagation
    }

    /// Gives a mount another mode, and with it other groups.
    pub fn change_propagation(&mut self, m: usize, mode: PropagationMode)
        requires
            old(self)@.wf(),
            old(self)@.is_alive(m as int),
        ensures
            final(self)@ == old(self)@.mode_changed(m, mode),
            final(self)@.wf(),
    {
        if self.propagation(m) == mode {
            return;
        }
        self.move_to(m, mode);
    }

    /// Makes a mount shared, in a new group if it has none, and returns its
    /// group.
    pub fn make_shared(&mut self, m: usize) -> (r: u64)
        requires
            old(self)@.wf(),
            old(self)@.is_alive(m as int),
        ensures
            final(self)@ == old(self)@.made_shared(m),
            final(self)@.mode(m as int).spec_peer_group() == Some(r),
            final(self)@.wf(),
    {
        match self.propagation(m) {
            PropagationMode::Shared { peer_group } => peer_group,
            PropagationMode::SharedAndSlave { peer_group, .. } => peer_group,
            PropagationMode::Slave { master_group } => {
                let peer_group: u64 = self.take_group();
                proof {
                    lemma_moved_to(
                        self@,
                        m,
                        PropagationMode::SharedAndSlave { peer_group, master_group },
                    );
                }
                self.move_to(m, PropagationMode::SharedAndSlave { peer_group, master_group });
                peer_group
            },
            _ => {
                let peer_group: u64 = self.take_group();
                proof {
                    lemma_moved_to(self@, m, PropagationMode::Shared { peer_group });
                }
                self.move_to(m, PropagationMode::Shared { peer_group });
                peer_group
            },
        }
    }

    /// Makes a shared mount a slave of the group that it was in. A mount that
    /// was not shared becomes private.
    pub fn make_slave(&mut self, m: usize)
        requires
            old(self)@.wf(),
            old(self)@.is_alive(m as int),
        ensures
            final(self)@ == old(self)@.made_slave(m),
            final(self)@.wf(),
    {
        match self.propagation(m) {
            PropagationMode::Shared { peer_group } => {
                self.move_to(m, PropagationMode::Slave { master_group: peer_group });
            },
            PropagationMode::SharedAndSlave { peer_group, .. } => {
                self.move_to(m, PropagationMode::Slave { master_group: peer_group });
            },
            PropagationMode::Slave { .. } => {},
            _ => {
                self.move_to(m, PropagationMode::Private);
            },
        }
    }

    pub fn make_private(&mut self, m: usize)
        requires
            old(self)@.wf(),
            old(self)@.is_alive(m as int),
        ensures
            final(self)@ == old(self)@.mode_changed(m, PropagationMode::Private),
            final(self)@.wf(),
    {
        self.change_propagation(m, PropagationMode::Private);
    }

    pub fn make_unbindable(&mut self, m: usize)
        requires
            old(self)@.wf(),
            old(self)@.is_alive(m as int),
        ensures
            final(self)@ == old(self)@.mode_changed(m, PropagationMode::Unbindable),
            final(self)@.wf(),
    {
        self.change_propagation(m, PropagationMode::Unbindable);
    }
}

} // verus!
