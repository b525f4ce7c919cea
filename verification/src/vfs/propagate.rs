//! Spreading a new mount to peers and slaves.
//!
//! What spreads may spread further, so the functions here call each other. The
//! order in which the mounts below a mount are visited is left open: the
//! contracts relate the table before to the tables that any order can lead to.
use vstd::prelude::*;

use super::entry::is_above;
use super::maps::{child_map, lists_children, no_children, EntryKey};
use super::mount::{lemma_moved_to, Location, Mount, MountTable, Mounts};
use super::mount_ops::{lemma_same_groups_wf, lemma_with_new_wf};
use super::propagation::PropagationMode;

verus! {

impl Mounts {
    /// The mode of the copy of mount `new` that appears below `peer` when `new`
    /// appears below `parent`, and whether the copy is in a new group.
    pub open spec fn propagated_mode(self, parent: usize, peer: usize, new: usize) -> (
        PropagationMode,
        bool,
    ) {
        let group = self.mode(parent as int).spec_peer_group();
        let shared = self.mode(peer as int).spec_peer_group() is Some;
        if group is Some && group == self.mode(peer as int).spec_peer_group() {
            (self.mode(new as int), false)
        } else if group matches Some(g) && self.slave_of(peer, g) {
            match self.mode(new as int).spec_peer_group() {
                Some(master_group) => if shared {
                    (
                        PropagationMode::SharedAndSlave {
                            peer_group: self.next_group,
                            master_group,
                        },
                        true,
                    )
                } else {
                    (PropagationMode::Slave { master_group }, false)
                },
                None => if shared {
                    (PropagationMode::Shared { peer_group: self.next_group }, true)
                } else {
                    (PropagationMode::Private, false)
                },
            }
        } else {
            (self.mode(new as int), false)
        }
    }

    /// Whether the entry `e` is seen through mount `m`.
    pub open spec fn reaches(self, m: usize, e: usize) -> bool {
        is_above(self.entries, self.mounts[m as int].root as int, e as int)
    }

    /// Whether two mounts are different and neither lies above the other.
    pub open spec fn apart(self, a: usize, b: usize) -> bool {
        a != b && !self.mount_above(a, b) && !self.mount_above(b, a)
    }

    /// With the copy of mount `new`, the bind of `source` that is seen at the
    /// entry `entry` of mount `peer`, and the copy.
    pub open spec fn with_copy(self, peer: usize, entry: usize, source: Location) -> (
        Mounts,
        usize,
    ) {
        self.spread_bind(self.resolved(Location { mountpoint: peer, entry }), source)
    }

    /// With the mode for the copy `shadow` that [`Mounts::propagated_mode`] gives.
    pub open spec fn with_copy_mode(
        self,
        parent: usize,
        peer: usize,
        new: usize,
        shadow: usize,
    ) -> Mounts {
        let (mode, takes) = self.propagated_mode(parent, peer, new);
        self.group_counted(takes).mode_changed(shadow, mode)
    }

    /// The mounts that a mount below `parent` spreads to first.
    pub open spec fn targets(self, parent: usize) -> Seq<usize> {
        match self.mode(parent as int).spec_peer_group() {
            Some(g) => self.members(g, parent) + self.slaves_of_group(g),
            None => Seq::empty(),
        }
    }
}

/// What has happened while a mount spreads.
pub ghost struct Spread {
    pub ms: Mounts,
    /// The copies, each behind the mount that it was made for.
    pub created: Seq<(usize, usize)>,
    /// False once copies are nested too deeply; then nothing more happens.
    pub ok: bool,
}

/// Marks the stages that a spread passes.
pub open spec fn is_stage(s: Spread) -> bool {
    true
}

/// Whether a copy was made for mount `p`.
pub open spec fn served(created: Seq<(usize, usize)>, p: usize) -> bool {
    exists|i: int| 0 <= i < created.len() && (#[trigger] created[i]).0 == p
}

/// Mount `new`, a bind of `source` at the entry `entry` of mount `parent`,
/// spreads to the first `i` of `targets`.
pub open spec fn spread_to(
    s: Spread,
    targets: Seq<usize>,
    i: nat,
    parent: usize,
    entry: usize,
    source: Location,
    new: usize,
    depth: nat,
    t: Spread,
) -> bool
    decreases depth, 2nat, i,
{
    if i == 0 {
        s == t
    } else {
        exists|mid: Spread|
            #[trigger] is_stage(mid) && spread_to(
                s,
                targets,
                (i - 1) as nat,
                parent,
                entry,
                source,
                new,
                depth,
                mid,
            ) && spread_to_one(mid, targets[i - 1], parent, entry, source, new, depth, t)
    }
}

/// It spreads to one mount: a copy appears there, with copies of everything
/// below it, and the copy spreads to the slaves of that mount.
pub open spec fn spread_to_one(
    s: Spread,
    peer: usize,
    parent: usize,
    entry: usize,
    source: Location,
    new: usize,
    depth: nat,
    t: Spread,
) -> bool
    decreases depth, 1nat, 0nat,
{
    let (bound, shadow) = s.ms.with_copy(peer, entry, source);
    if !s.ok || !s.ms.apart(peer, new) || served(s.created, peer) || !s.ms.reaches(peer, entry) {
        t == s
    } else if depth == 0 {
        t == (Spread { ok: false, ..s })
    } else if shadow == new {
        t == (Spread { ms: bound, ..s })
    } else {
        exists|below: Spread|
            #[trigger] is_stage(below) && spread_subtree(
                Spread {
                    ms: bound.with_copy_mode(parent, peer, new, shadow),
                    created: Seq::empty(),
                    ok: true,
                },
                new,
                shadow,
                (depth - 1) as nat,
                below,
            ) && spread_to_slaves(
                Spread {
                    created: s.created.push((peer, shadow)) + below.created,
                    ..below
                },
                peer,
                entry,
                source,
                shadow,
                (depth - 1) as nat,
                t,
            )
    }
}

/// It spreads to the slaves of the group of `parent`.
pub open spec fn spread_to_slaves(
    s: Spread,
    parent: usize,
    entry: usize,
    source: Location,
    new: usize,
    depth: nat,
    t: Spread,
) -> bool
    decreases depth, 3nat, 0nat,
{
    match s.ms.mode(parent as int).spec_peer_group() {
        Some(g) => {
            let targets = s.ms.slaves_of_group(g);
            spread_to(s, targets, targets.len(), parent, entry, source, new, depth, t)
        },
        None => t == s,
    }
}

/// The mounts below `from` appear below `to`, in any order.
pub open spec fn spread_subtree(
    s: Spread,
    from: usize,
    to: usize,
    depth: nat,
    t: Spread,
) -> bool
    decreases depth, 3nat, 0nat,
{
    exists|order: Seq<(EntryKey, usize)>|
        #[trigger] lists_children(order, s.ms.mounts[from as int].children) && spread_children(
            s,
            order,
            order.len(),
            from,
            to,
            depth,
            t,
        )
}

/// The first `i` of the mounts below `from` appear below `to`.
pub open spec fn spread_children(
    s: Spread,
    order: Seq<(EntryKey, usize)>,
    i: nat,
    from: usize,
    to: usize,
    depth: nat,
    t: Spread,
) -> bool
    decreases depth, 2nat, i,
{
    if i == 0 {
        s == t
    } else {
        exists|mid: Spread|
            #[trigger] is_stage(mid) && spread_children(s, order, (i - 1) as nat, from, to, depth, mid)
                && spread_child(mid, order[i - 1].1, from, to, depth, t)
    }
}

/// Mount `child` below `from` appears below `to`: a copy, with copies of
/// everything below it, which spreads to the slaves of `to`.
pub open spec fn spread_child(
    s: Spread,
    child: usize,
    from: usize,
    to: usize,
    depth: nat,
    t: Spread,
) -> bool
    decreases depth, 1nat, 0nat,
{
    match s.ms.mounts[child as int].location {
        None => t == s,
        Some(l) => {
            let source = s.ms.root_location(child);
            let (bound, shadow) = s.ms.with_copy(to, l.entry, source);
            if !s.ok || !s.ms.is_alive(child as int) || !s.ms.apart(child, to) || !s.ms.reaches(
                to,
                l.entry,
            ) {
                t == s
            } else if depth == 0 {
                t == (Spread { ok: false, ..s })
            } else if shadow == child {
                t == (Spread { ms: bound, ..s })
            } else {
                exists|below: Spread|
                    #[trigger] is_stage(below) && spread_subtree(
                        Spread {
                            ms: bound.with_copy_mode(from, to, child, shadow),
                            created: s.created.push((to, shadow)),
                            ok: true,
                        },
                        child,
                        shadow,
                        (depth - 1) as nat,
                        below,
                    ) && spread_to_slaves(
                        below,
                        to,
                        l.entry,
                        source,
                        shadow,
                        (depth - 1) as nat,
                        t,
                    )
            }
        },
    }
}

/// What never changes of the mounts that there were: only modes and the mounts
/// on their directories do.
pub open spec fn grown(s: Mounts, t: Mounts) -> bool {
    &&& t.entries == s.entries
    &&& t.mounts.len() >= s.mounts.len()
    &&& forall|m: int|
        0 <= m < s.mounts.len() ==> {
            let a = s.mounts[m];
            let b = #[trigger] t.mounts[m];
            &&& a.root == b.root
            &&& a.location == b.location
            &&& a.device == b.device
            &&& a.id == b.id
            &&& a.read_only == b.read_only
            &&& a.flags == b.flags
            &&& a.alive == b.alive
        }
}

/// Whether mount `m` is among the copies.
pub open spec fn is_copy(created: Seq<(usize, usize)>, m: int) -> bool {
    exists|k: int| 0 <= k < created.len() && (#[trigger] created[k]).1 == m
}

/// Every mount that is new in `t` is among the copies.
pub open spec fn reported(s: Mounts, t: Mounts, created: Seq<(usize, usize)>) -> bool {
    forall|m: int|
        s.mounts.len() <= m < t.mounts.len() ==> #[trigger] is_copy(created, m)
}

/// Whether `b` is `a` with more behind it.
pub open spec fn extends(a: Seq<(usize, usize)>, b: Seq<(usize, usize)>) -> bool {
    a.len() <= b.len() && b.take(a.len() as int) == a
}

proof fn lemma_reported_joins(
    s: Mounts,
    m: Mounts,
    t: Mounts,
    a: Seq<(usize, usize)>,
    b: Seq<(usize, usize)>,
)
    requires
        reported(s, m, a),
        reported(m, t, b),
        extends(a, b),
    ensures
        reported(s, t, b),
{
    assert forall|x: int| s.mounts.len() <= x < t.mounts.len() implies #[trigger] is_copy(b, x) by {
        if x < m.mounts.len() {
            assert(is_copy(a, x));
            let k = choose|k: int| 0 <= k < a.len() && (#[trigger] a[k]).1 == x;
            assert(b.take(a.len() as int)[k] == b[k]);
            assert(b[k].1 == x);
        }
    }
}

pub(crate) proof fn lemma_extends(a: Seq<(usize, usize)>, b: Seq<(usize, usize)>, c: Seq<(usize, usize)>)
    requires
        extends(a, b),
        extends(b, c),
    ensures
        extends(a, c),
{
    assert(c.take(a.len() as int) =~= b.take(a.len() as int)) by {
        assert forall|k: int| 0 <= k < a.len() implies c.take(a.len() as int)[k] == b.take(
            a.len() as int,
        )[k] by {
            assert(c.take(b.len() as int)[k] == b[k]);
        }
    }
}

/// Whether `t` has no mount that `s` has not, but for `m`.
pub open spec fn only_new(s: Mounts, t: Mounts, m: usize) -> bool {
    t.mounts.len() == s.mounts.len() || (t.mounts.len() == s.mounts.len() + 1 && m
        == s.mounts.len())
}

/// A new bind adds one mount at most, and only that.
pub(crate) proof fn lemma_bind_grows(s: Mounts, at: Location, source: Location)
    requires
        s.wf(),
        s.location_wf(at),
        s.location_wf(source),
        s.mounts.len() <= usize::MAX,
    ensures
        grown(s, s.spread_bind(at, source).0),
        only_new(s, s.spread_bind(at, source).0, s.spread_bind(at, source).1),
{
    if s.mounted_at(at) is None {
        let (mode, takes) = s.bind_mode(at, source);
        let c = s.group_counted(takes);
        let n = s.next_mount();
        let from = c.mounts[source.mountpoint as int];
        let x = Mount {
            root: source.entry,
            location: Some(at),
            children: no_children(),
            device: from.device,
            id: c.next_id,
            mode: PropagationMode::Private,
            read_only: from.read_only,
            flags: from.flags,
            alive: true,
        };
        let counted = Mounts { next_id: c.next_id.wrapping_add(1), ..c };
        assert(counted.wf()) by {
            assert forall|m: int| 0 <= m < c.mounts.len() implies #[trigger] counted.mount_wf(
                m,
            ) by {
                assert(s.mount_wf(m));
            }
            lemma_same_groups_wf(s, counted);
        }
        lemma_with_new_wf(counted, x);
        lemma_moved_to(counted.with_new(x), n, mode);
    }
}

proof fn lemma_copy_mode(s: Mounts, parent: usize, peer: usize, new: usize, shadow: usize)
    requires
        s.wf(),
        s.is_alive(shadow as int),
    ensures
        grown(s, s.with_copy_mode(parent, peer, new, shadow)),
        s.with_copy_mode(parent, peer, new, shadow).mounts.len() == s.mounts.len(),
{
    let (mode, takes) = s.propagated_mode(parent, peer, new);
    let c = s.group_counted(takes);
    assert(c.wf()) by {
        assert forall|m: int| 0 <= m < c.mounts.len() implies #[trigger] c.mount_wf(m) by {
            assert(s.mount_wf(m));
        }
        lemma_same_groups_wf(s, c);
    }
    lemma_moved_to(c, shadow, mode);
}

impl MountTable {
    /// The mode of the copy of mount `new` that appears below `peer`, with the
    /// group counted that it takes.
    fn propagated_propagation_mode(&mut self, parent: usize, peer: usize, new: usize) -> (r:
        PropagationMode)
        requires
            old(self)@.wf(),
            parent < old(self)@.mounts.len(),
            peer < old(self)@.mounts.len(),
            new < old(self)@.mounts.len(),
        ensures
            r == old(self)@.propagated_mode(parent, peer, new).0,
            final(self)@ == old(self)@.group_counted(
                old(self)@.propagated_mode(parent, peer, new).1,
            ),
            final(self)@.wf(),
    {
        let new_mode: PropagationMode = self.propagation(new);
        let peer_mode: PropagationMode = self.propagation(peer);
        let group: u64 = match self.propagation(parent).peer_group() {
            Some(g) => g,
            None => {
                return new_mode;
            },
        };
        let is_peer: bool = match peer_mode.peer_group() {
            Some(g) => g == group,
            None => false,
        };
        if is_peer || !self.is_slave_of(peer, group) {
            return new_mode;
        }
        match new_mode.peer_group() {
            Some(master_group) => {
                if peer_mode.is_shared() {
                    let peer_group: u64 = self.take_group();
                    PropagationMode::SharedAndSlave { peer_group, master_group }
                } else {
                    PropagationMode::Slave { master_group }
                }
            },
            None => {
                if peer_mode.is_shared() {
                    let peer_group: u64 = self.take_group();
                    PropagationMode::Shared { peer_group }
                } else {
                    PropagationMode::Private
                }
            },
        }
    }

    fn mounts_apart(&self, a: usize, b: usize) -> (r: bool)
        requires
            self@.wf(),
            a < self@.mounts.len(),
            b < self@.mounts.len(),
        ensures
            r == self@.apart(a, b),
    {
        a != b && !self.is_mount_ancestor_of(a, b) && !self.is_mount_ancestor_of(b, a)
    }

    fn mount_reaches(&self, m: usize, entry: usize) -> (r: bool)
        requires
            self@.wf(),
            m < self@.mounts.len(),
            entry < self@.entries.len(),
        ensures
            r == self@.reaches(m, entry),
    {
        proof {
            self.lemma_parts();
            assert(self@.mount_wf(m as int));
        }
        self.entries.is_ancestor_of(self.mounts[m].root, entry)
    }

    /// Makes a copy for `peer` and gives it its mode; none where the copy is
    /// `new` itself.
    fn make_copy(&mut self, parent: usize, peer: usize, entry: usize, source: Location, new: usize) -> (r:
        Option<usize>)
        requires
            old(self)@.wf(),
            parent < old(self)@.mounts.len(),
            old(self)@.is_alive(peer as int),
            new < old(self)@.mounts.len(),
            entry < old(self)@.entries.len(),
            old(self)@.location_wf(source),
        ensures
            final(self)@.wf(),
            grown(old(self)@, final(self)@),
            ({
                let (bound, shadow) = old(self)@.with_copy(peer, entry, source);
                if shadow == new {
                    &&& r is None
                    &&& final(self)@ == bound
                    &&& final(self)@.mounts.len() == old(self)@.mounts.len()
                } else {
                    &&& r == Some(shadow)
                    &&& final(self)@ == bound.with_copy_mode(parent, peer, new, shadow)
                    &&& final(self)@.is_alive(shadow as int)
                    &&& only_new(old(self)@, final(self)@, shadow)
                }
            }),
    {
        let at: Location = self.resolve_mounted_location(Location { mountpoint: peer, entry });
        let ghost s0 = self@;
        proof {
            self.lemma_parts();
        }
        let shadow: usize = self.mount_bind_silent(at, source);
        let ghost bound = self@;
        proof {
            self.lemma_parts();
            lemma_bind_grows(s0, at, source);
        }
        if shadow == new {
            return None;
        }
        let mode: PropagationMode = self.propagated_propagation_mode(parent, peer, new);
        proof {
            lemma_copy_mode(bound, parent, peer, new, shadow);
        }
        self.change_propagation(shadow, mode);
        Some(shadow)
    }
}

/// What every step of a spread keeps.
pub open spec fn step_keeps(
    s: Mounts,
    before: Seq<(usize, usize)>,
    t: Mounts,
    after: Seq<(usize, usize)>,
) -> bool {
    &&& t.wf()
    &&& grown(s, t)
    &&& extends(before, after)
    &&& reported(s, t, after)
}

proof fn lemma_step_keeps(
    s: Mounts,
    a: Seq<(usize, usize)>,
    m: Mounts,
    b: Seq<(usize, usize)>,
    t: Mounts,
    c: Seq<(usize, usize)>,
)
    requires
        step_keeps(s, a, m, b),
        step_keeps(m, b, t, c),
    ensures
        step_keeps(s, a, t, c),
{
    lemma_extends(a, b, c);
    lemma_reported_joins(s, m, t, b, c);
}

/// A copy that is recorded keeps what a step keeps.
proof fn lemma_copy_recorded(
    s: Mounts,
    t: Mounts,
    shadow: usize,
    before: Seq<(usize, usize)>,
    pair: (usize, usize),
)
    requires
        t.wf(),
        grown(s, t),
        only_new(s, t, shadow),
        pair.1 == shadow,
    ensures
        step_keeps(s, before, t, before.push(pair)),
{
    let after = before.push(pair);
    assert(after.take(before.len() as int) =~= before);
    assert(after[before.len() as int] == pair);
    assert forall|x: int| s.mounts.len() <= x < t.mounts.len() implies #[trigger] is_copy(
        after,
        x,
    ) by {
        assert(x == shadow);
    }
}

fn is_served(created: &Vec<(usize, usize)>, p: usize) -> (r: bool)
    ensures
        r == served(created@, p),
{
    let mut i: usize = 0;
    while i < created.len()
        invariant
            i <= created@.len(),
            forall|k: int| 0 <= k < i ==> (#[trigger] created@[k]).0 != p,
        decreases created@.len() - i,
    {
        if created[i].0 == p {
            assert(created@[i as int].0 == p);
            return true;
        }
        i = i + 1;
    }
    false
}

impl MountTable {
    fn spread_list(
        &mut self,
        targets: &Vec<usize>,
        parent: usize,
        entry: usize,
        source: Location,
        new: usize,
        depth: usize,
        created: &mut Vec<(usize, usize)>,
        ok: bool,
    ) -> (r: bool)
        requires
            old(self)@.wf(),
            parent < old(self)@.mounts.len(),
            new < old(self)@.mounts.len(),
            entry < old(self)@.entries.len(),
            old(self)@.location_wf(source),
            forall|i: int|
                0 <= i < targets@.len() ==> old(self)@.is_alive((#[trigger] targets@[i]) as int),
        ensures
            step_keeps(old(self)@, old(created)@, final(self)@, final(created)@),
            spread_to(
                Spread { ms: old(self)@, created: old(created)@, ok },
                targets@,
                targets@.len(),
                parent,
                entry,
                source,
                new,
                depth as nat,
                Spread { ms: final(self)@, created: final(created)@, ok: r },
            ),
        decreases depth, 2int,
    {
        let ghost s0 = Spread { ms: self@, created: created@, ok };
        let mut ok: bool = ok;
        let mut i: usize = 0;
        assert(created@.take(created@.len() as int) =~= created@);
        while i < targets.len()
            invariant
                i <= targets@.len(),
                s0.ms == old(self)@,
                s0.created == old(created)@,
                step_keeps(s0.ms, s0.created, self@, created@),
                parent < s0.ms.mounts.len(),
                new < s0.ms.mounts.len(),
                entry < s0.ms.entries.len(),
                s0.ms.location_wf(source),
                forall|k: int|
                    0 <= k < targets@.len() ==> s0.ms.is_alive((#[trigger] targets@[k]) as int),
                spread_to(
                    s0,
                    targets@,
                    i as nat,
                    parent,
                    entry,
                    source,
                    new,
                    depth as nat,
                    Spread { ms: self@, created: created@, ok },
                ),
            decreases targets@.len() - i,
        {
            let ghost mid = Spread { ms: self@, created: created@, ok };
            assert(is_stage(mid));
            let peer: usize = targets[i];
            assert(s0.ms.is_alive(targets@[i as int] as int));
            assert(self@.mounts[peer as int].alive == s0.ms.mounts[peer as int].alive);
            if ok {
                ok = self.spread_one(peer, parent, entry, source, new, depth, created);
                proof {
                    lemma_step_keeps(
                        s0.ms,
                        s0.created,
                        mid.ms,
                        mid.created,
                        self@,
                        created@,
                    );
                }
            }
            proof {
                assert(spread_to_one(
                    mid,
                    peer,
                    parent,
                    entry,
                    source,
                    new,
                    depth as nat,
                    Spread { ms: self@, created: created@, ok },
                ));
            }
            i = i + 1;
        }
        ok
    }

    fn spread_one(
        &mut self,
        peer: usize,
        parent: usize,
        entry: usize,
        source: Location,
        new: usize,
        depth: usize,
        created: &mut Vec<(usize, usize)>,
    ) -> (r: bool)
        requires
            old(self)@.wf(),
            parent < old(self)@.mounts.len(),
            old(self)@.is_alive(peer as int),
            new < old(self)@.mounts.len(),
            entry < old(self)@.entries.len(),
            old(self)@.location_wf(source),
        ensures
            step_keeps(old(self)@, old(created)@, final(self)@, final(created)@),
            spread_to_one(
                Spread { ms: old(self)@, created: old(created)@, ok: true },
                peer,
                parent,
                entry,
                source,
                new,
                depth as nat,
                Spread { ms: final(self)@, created: final(created)@, ok: r },
            ),
        decreases depth, 1int,
    {
        let ghost s0 = self@;
        let ghost c0 = created@;
        assert(created@.take(created@.len() as int) =~= created@);
        if !self.mounts_apart(peer, new) || is_served(created, peer) || !self.mount_reaches(
            peer,
            entry,
        ) {
            return true;
        }
        if depth == 0 {
            return false;
        }
        match self.make_copy(parent, peer, entry, source, new) {
            None => true,
            Some(shadow) => {
                let ghost s1 = self@;
                proof {
                    lemma_copy_recorded(s0, s1, shadow, c0, (peer, shadow));
                }
                let mut below: Vec<(usize, usize)> = Vec::new();
                let ok: bool = self.propagate_subtree_within(new, shadow, depth - 1, &mut below);
                let ghost s2 = self@;
                let ghost b = below@;
                created.push((peer, shadow));
                created.append(&mut below);
                let ghost c2 = created@;
                proof {
                    assert(c2 =~= c0.push((peer, shadow)) + b);
                    
                    lemma_suffix_reported(s1, s2, c0.push((peer, shadow)), b);
                    lemma_step_keeps(s0, c0, s1, c0.push((peer, shadow)), s2, c2);
                }
                let r: bool = self.propagate_to_slaves(
                    peer,
                    entry,
                    source,
                    shadow,
                    depth - 1,
                    created,
                    ok,
                );
                proof {
                    lemma_step_keeps(s0, c0, s2, c2, self@, created@);
                    let inner = Spread { ms: s2, created: b, ok };
                    assert(is_stage(inner));
                    assert(spread_subtree(
                        Spread { ms: s1, created: Seq::empty(), ok: true },
                        new,
                        shadow,
                        (depth - 1) as nat,
                        inner,
                    ));
                    assert(Spread { created: c0.push((peer, shadow)) + inner.created, ..inner } == (
                    Spread { ms: s2, created: c2, ok }));
                }
                r
            },
        }
    }

    fn propagate_to_slaves(
        &mut self,
        parent: usize,
        entry: usize,
        source: Location,
        new: usize,
        depth: usize,
        created: &mut Vec<(usize, usize)>,
        ok: bool,
    ) -> (r: bool)
        requires
            old(self)@.wf(),
            parent < old(self)@.mounts.len(),
            new < old(self)@.mounts.len(),
            entry < old(self)@.entries.len(),
            old(self)@.location_wf(source),
        ensures
            step_keeps(old(self)@, old(created)@, final(self)@, final(created)@),
            spread_to_slaves(
                Spread { ms: old(self)@, created: old(created)@, ok },
                parent,
                entry,
                source,
                new,
                depth as nat,
                Spread { ms: final(self)@, created: final(created)@, ok: r },
            ),
        decreases depth, 3int,
    {
        assert(created@.take(created@.len() as int) =~= created@);
        match self.propagation(parent).peer_group() {
            None => ok,
            Some(group) => {
                let targets: Vec<usize> = self.slaves_of_group(group);
                self.spread_list(&targets, parent, entry, source, new, depth, created, ok)
            },
        }
    }

    fn propagate_subtree_within(
        &mut self,
        from: usize,
        to: usize,
        depth: usize,
        created: &mut Vec<(usize, usize)>,
    ) -> (r: bool)
        requires
            old(self)@.wf(),
            from < old(self)@.mounts.len(),
            old(self)@.is_alive(to as int),
        ensures
            step_keeps(old(self)@, old(created)@, final(self)@, final(created)@),
            spread_subtree(
                Spread { ms: old(self)@, created: old(created)@, ok: true },
                from,
                to,
                depth as nat,
                Spread { ms: final(self)@, created: final(created)@, ok: r },
            ),
        decreases depth, 3int,
    {
        let ghost s0 = Spread { ms: self@, created: created@, ok: true };
        proof {
            self.lemma_parts();
            assert(self@.mounts[from as int].children == child_map(
                self.mounts@[from as int].children,
            ));
            assert(self@.mount_wf(from as int));
        }
        let order: Vec<(EntryKey, usize)> = self.mounts[from].children.list();
        assert forall|k: int| 0 <= k < order@.len() implies (#[trigger] order@[k]).1
            < s0.ms.mounts.len() by {
            assert(s0.ms.mounts[from as int].children.contains_key(order@[k].0));
        }
        let mut ok: bool = true;
        let mut i: usize = 0;
        assert(created@.take(created@.len() as int) =~= created@);
        while i < order.len()
            invariant
                i <= order@.len(),
                s0.ms == old(self)@,
                s0.created == old(created)@,
                step_keeps(s0.ms, s0.created, self@, created@),
                from < s0.ms.mounts.len(),
                s0.ms.is_alive(to as int),
                forall|k: int|
                    0 <= k < order@.len() ==> (#[trigger] order@[k]).1 < s0.ms.mounts.len(),
                spread_children(
                    s0,
                    order@,
                    i as nat,
                    from,
                    to,
                    depth as nat,
                    Spread { ms: self@, created: created@, ok },
                ),
            decreases order@.len() - i,
        {
            let ghost mid = Spread { ms: self@, created: created@, ok };
            assert(is_stage(mid));
            let child: usize = order[i].1;
            assert(order@[i as int].1 < s0.ms.mounts.len());
            assert(self@.mounts[to as int].alive == s0.ms.mounts[to as int].alive);
            if ok {
                ok = self.spread_below(child, from, to, depth, created);
                proof {
                    lemma_step_keeps(
                        s0.ms,
                        s0.created,
                        mid.ms,
                        mid.created,
                        self@,
                        created@,
                    );
                }
            }
            proof {
                assert(spread_child(
                    mid,
                    child,
                    from,
                    to,
                    depth as nat,
                    Spread { ms: self@, created: created@, ok },
                ));
            }
            i = i + 1;
        }
        ok
    }

    fn spread_below(
        &mut self,
        child: usize,
        from: usize,
        to: usize,
        depth: usize,
        created: &mut Vec<(usize, usize)>,
    ) -> (r: bool)
        requires
            old(self)@.wf(),
            child < old(self)@.mounts.len(),
            from < old(self)@.mounts.len(),
            old(self)@.is_alive(to as int),
        ensures
            step_keeps(old(self)@, old(created)@, final(self)@, final(created)@),
            spread_child(
                Spread { ms: old(self)@, created: old(created)@, ok: true },
                child,
                from,
                to,
                depth as nat,
                Spread { ms: final(self)@, created: final(created)@, ok: r },
            ),
        decreases depth, 1int,
    {
        let ghost s0 = self@;
        let ghost c0 = created@;
        assert(created@.take(created@.len() as int) =~= created@);
        assert(self@.mount_wf(child as int));
        let entry: usize = match self.location(child) {
            Some(l) => l.entry,
            None => {
                return true;
            },
        };
        if !self.is_alive(child) || !self.mounts_apart(child, to) || !self.mount_reaches(
            to,
            entry,
        ) {
            return true;
        }
        if depth == 0 {
            return false;
        }
        let source: Location = self.root_location(child);
        match self.make_copy(from, to, entry, source, child) {
            None => true,
            Some(shadow) => {
                let ghost s1 = self@;
                proof {
                    lemma_copy_recorded(s0, s1, shadow, c0, (to, shadow));
                }
                created.push((to, shadow));
                let ghost c1 = created@;
                let ok: bool = self.propagate_subtree_within(child, shadow, depth - 1, created);
                let ghost s2 = self@;
                let ghost c2 = created@;
                proof {
                    lemma_step_keeps(s0, c0, s1, c1, s2, c2);
                }
                let r: bool = self.propagate_to_slaves(
                    to,
                    entry,
                    source,
                    shadow,
                    depth - 1,
                    created,
                    ok,
                );
                proof {
                    lemma_step_keeps(s0, c0, s2, c2, self@, created@);
                    assert(is_stage(Spread { ms: s2, created: c2, ok }));
                    assert(spread_subtree(
                        Spread { ms: s1, created: c1, ok: true },
                        child,
                        shadow,
                        (depth - 1) as nat,
                        Spread { ms: s2, created: c2, ok },
                    ));
                }
                r
            },
        }
    }
}

proof fn lemma_suffix_reported(
    s: Mounts,
    t: Mounts,
    a: Seq<(usize, usize)>,
    b: Seq<(usize, usize)>,
)
    requires
        t.wf(),
        grown(s, t),
        reported(s, t, b),
    ensures
        step_keeps(s, a, t, a + b),
{
    let c = a + b;
    assert(c.take(a.len() as int) =~= a);
    assert forall|x: int| s.mounts.len() <= x < t.mounts.len() implies #[trigger] is_copy(c, x) by {
        assert(is_copy(b, x));
        let k = choose|k: int| 0 <= k < b.len() && (#[trigger] b[k]).1 == x;
        assert(c[a.len() + k].1 == x);
    }
}

/// The copies that a spread made, each behind the mount that it was made for.
/// As nothing else holds the copies, the caller has to.
pub struct Propagation {
    pub created: Vec<(usize, usize)>,
    /// Whether all copies were made; otherwise they would have been nested more
    /// deeply than can be counted.
    pub complete: bool,
}

impl MountTable {
    /// The mounts that a mount below `parent` spreads to first.
    pub(crate) fn list_targets(&self, parent: usize) -> (r: Vec<usize>)
        requires
            self@.wf(),
            parent < self@.mounts.len(),
        ensures
            r@ == self@.targets(parent),
            forall|i: int| 0 <= i < r@.len() ==> self@.is_alive((#[trigger] r@[i]) as int),
    {
        match self.propagation(parent).peer_group() {
            None => Vec::new(),
            Some(group) => {
                let mut r: Vec<usize> = self.peer_group_members(group, parent);
                let mut slaves: Vec<usize> = self.slaves_of_group(group);
                let ghost a = r@;
                let ghost b = slaves@;
                r.append(&mut slaves);
                assert forall|i: int| 0 <= i < r@.len() implies self@.is_alive(
                    (#[trigger] r@[i]) as int,
                ) by {
                    if i < a.len() {
                        assert(r@[i] == a[i]);
                    } else {
                        assert(r@[i] == b[i - a.len()]);
                    }
                }
                r
            },
        }
    }

    /// Spreads mount `new` below `parent` to the peers and the slaves of
    /// `parent`. `source` is what was bound, if it was a bind.
    pub fn propagate_new_mount(
        &mut self,
        parent: usize,
        source: Option<Location>,
        new: usize,
    ) -> (r: Propagation)
        requires
            old(self)@.wf(),
            parent < old(self)@.mounts.len(),
            new < old(self)@.mounts.len(),
            source matches Some(l) ==> old(self)@.location_wf(l),
        ensures
            final(self)@.wf(),
            grown(old(self)@, final(self)@),
            reported(old(self)@, final(self)@, r.created@),
            match old(self)@.mounts[new as int].location {
                None => r.complete && r.created@ == Seq::<(usize, usize)>::empty() && final(self)@
                    == old(self)@,
                Some(l) => spread_to(
                    Spread { ms: old(self)@, created: Seq::empty(), ok: true },
                    old(self)@.targets(parent),
                    old(self)@.targets(parent).len(),
                    parent,
                    l.entry,
                    match source {
                        Some(l) => l,
                        None => old(self)@.root_location(new),
                    },
                    new,
                    usize::MAX as nat,
                    Spread { ms: final(self)@, created: r.created@, ok: r.complete },
                ),
            },
    {
        let mut created: Vec<(usize, usize)> = Vec::new();
        assert(self@.mount_wf(new as int));
        let entry: usize = match self.location(new) {
            Some(l) => l.entry,
            None => {
                return Propagation { created, complete: true };
            },
        };
        let from: Location = match source {
            Some(l) => l,
            None => self.root_location(new),
        };
        let targets: Vec<usize> = self.list_targets(parent);
        let complete: bool = self.spread_list(
            &targets,
            parent,
            entry,
            from,
            new,
            usize::MAX,
            &mut created,
            true,
        );
        Propagation { created, complete }
    }

    /// Lets the mounts below `from` appear below `to`.
    pub fn propagate_subtree(&mut self, from: usize, to: usize) -> (r: Propagation)
        requires
            old(self)@.wf(),
            from < old(self)@.mounts.len(),
            old(self)@.is_alive(to as int),
        ensures
            final(self)@.wf(),
            grown(old(self)@, final(self)@),
            reported(old(self)@, final(self)@, r.created@),
            spread_subtree(
                Spread { ms: old(self)@, created: Seq::empty(), ok: true },
                from,
                to,
                usize::MAX as nat,
                Spread { ms: final(self)@, created: r.created@, ok: r.complete },
            ),
    {
        let mut created: Vec<(usize, usize)> = Vec::new();
        let complete: bool = self.propagate_subtree_within(from, to, usize::MAX, &mut created);
        Propagation { created, complete }
    }
}

/// A mount below a private mount does not spread.
pub proof fn lemma_private_does_not_spread(
    s: Mounts,
    parent: usize,
    entry: usize,
    source: Location,
    new: usize,
    depth: nat,
    t: Spread,
)
    requires
        s.mode(parent as int).spec_peer_group() is None,
        spread_to(
            Spread { ms: s, created: Seq::empty(), ok: true },
            s.targets(parent),
            s.targets(parent).len(),
            parent,
            entry,
            source,
            new,
            depth,
            t,
        ),
    ensures
        t == (Spread { ms: s, created: Seq::empty(), ok: true }),
{
}

/// Copies that were made are not forgotten.
pub(crate) proof fn lemma_spread_to_extends(
    s: Spread,
    targets: Seq<usize>,
    i: nat,
    parent: usize,
    entry: usize,
    source: Location,
    new: usize,
    depth: nat,
    t: Spread,
)
    requires
        spread_to(s, targets, i, parent, entry, source, new, depth, t),
    ensures
        extends(s.created, t.created),
        t.ok ==> s.ok,
    decreases depth, 2nat, i,
{
    if i == 0 {
        assert(t.created.take(s.created.len() as int) =~= s.created);
    } else {
        let mid = choose|mid: Spread|
            #[trigger] is_stage(mid) && spread_to(
                s,
                targets,
                (i - 1) as nat,
                parent,
                entry,
                source,
                new,
                depth,
                mid,
            ) && spread_to_one(mid, targets[i - 1], parent, entry, source, new, depth, t);
        lemma_spread_to_extends(
            s,
            targets,
            (i - 1) as nat,
            parent,
            entry,
            source,
            new,
            depth,
            mid,
        );
        lemma_spread_to_one_extends(
            mid,
            targets[i - 1],
            parent,
            entry,
            source,
            new,
            depth,
            t,
        );
        lemma_extends(s.created, mid.created, t.created);
    }
}

pub(crate) proof fn lemma_spread_to_one_extends(
    s: Spread,
    peer: usize,
    parent: usize,
    entry: usize,
    source: Location,
    new: usize,
    depth: nat,
    t: Spread,
)
    requires
        spread_to_one(s, peer, parent, entry, source, new, depth, t),
    ensures
        extends(s.created, t.created),
        t.ok ==> s.ok,
        t.ok && s.ms.apart(peer, new) && s.ms.reaches(peer, entry) && s.ms.with_copy(
            peer,
            entry,
            source,
        ).1 != new ==> served(t.created, peer),
    decreases depth, 1nat, 0nat,
{
    let (bound, shadow) = s.ms.with_copy(peer, entry, source);
    if !s.ok || !s.ms.apart(peer, new) || served(s.created, peer) || !s.ms.reaches(peer, entry)
        || depth == 0 || shadow == new {
        assert(t.created.take(s.created.len() as int) =~= s.created);
    } else {
        let from = Spread {
            ms: bound.with_copy_mode(parent, peer, new, shadow),
            created: Seq::empty(),
            ok: true,
        };
        let below = choose|below: Spread|
            #[trigger] is_stage(below) && spread_subtree(from, new, shadow, (depth - 1) as nat, below)
                && spread_to_slaves(
                Spread { created: s.created.push((peer, shadow)) + below.created, ..below },
                peer,
                entry,
                source,
                shadow,
                (depth - 1) as nat,
                t,
            );
        let mine = s.created.push((peer, shadow)) + below.created;
        lemma_spread_to_slaves_extends(
            Spread { created: mine, ..below },
            peer,
            entry,
            source,
            shadow,
            (depth - 1) as nat,
            t,
        );
        assert(mine.take(s.created.len() as int) =~= s.created);
        lemma_extends(s.created, mine, t.created);
        let k = s.created.len() as int;
        assert(t.created.take(mine.len() as int)[k] == mine[k]);
        assert(t.created[k].0 == peer);
    }
}

pub(crate) proof fn lemma_spread_to_slaves_extends(
    s: Spread,
    parent: usize,
    entry: usize,
    source: Location,
    new: usize,
    depth: nat,
    t: Spread,
)
    requires
        spread_to_slaves(s, parent, entry, source, new, depth, t),
    ensures
        extends(s.created, t.created),
        t.ok ==> s.ok,
    decreases depth, 3nat, 0nat,
{
    match s.ms.mode(parent as int).spec_peer_group() {
        Some(g) => {
            let targets = s.ms.slaves_of_group(g);
            lemma_spread_to_extends(
                s,
                targets,
                targets.len(),
                parent,
                entry,
                source,
                new,
                depth,
                t,
            );
        },
        None => {
            assert(t.created.take(s.created.len() as int) =~= s.created);
        },
    }
}

/// When a new mount has spread completely, each of the first `i` targets has
/// got a copy of it. Only those are left out that lie above or below the new
/// mount, that do not show the directory, or at which the new mount is already
/// seen.
pub proof fn lemma_every_target_gets_a_copy(
    s: Spread,
    targets: Seq<usize>,
    i: nat,
    parent: usize,
    entry: usize,
    source: Location,
    new: usize,
    depth: nat,
    t: Spread,
    k: int,
)
    requires
        spread_to(s, targets, i, parent, entry, source, new, depth, t),
        t.ok,
        0 <= k < i,
    ensures
        served(t.created, targets[k]) || exists|mid: Spread|
            {
                &&& #[trigger] is_stage(mid)
                &&& spread_to(s, targets, k as nat, parent, entry, source, new, depth, mid)
                &&& (!mid.ms.apart(targets[k], new) || !mid.ms.reaches(targets[k], entry)
                    || mid.ms.with_copy(targets[k], entry, source).1 == new)
            },
    decreases i,
{
    let mid = choose|mid: Spread|
        #[trigger] is_stage(mid) && spread_to(
            s,
            targets,
            (i - 1) as nat,
            parent,
            entry,
            source,
            new,
            depth,
            mid,
        ) && spread_to_one(mid, targets[i - 1], parent, entry, source, new, depth, t);
    lemma_spread_to_one_extends(mid, targets[i - 1], parent, entry, source, new, depth, t);
    if k == i - 1 {
        assert(is_stage(mid));
    } else {
        lemma_every_target_gets_a_copy(
            s,
            targets,
            (i - 1) as nat,
            parent,
            entry,
            source,
            new,
            depth,
            mid,
            k,
        );
        if served(mid.created, targets[k]) {
            let j = choose|j: int|
                0 <= j < mid.created.len() && (#[trigger] mid.created[j]).0 == targets[k];
            assert(t.created.take(mid.created.len() as int)[j] == mid.created[j]);
            assert(t.created[j].0 == targets[k]);
        }
    }
}

} // verus!
