//! What changes to mounts come to in the mounts around them.
use vstd::prelude::*;

use super::groups::lemma_counted_wf;
use super::maps::{lists_children, EntryKey};
use super::mount::{lemma_moved_to, lemma_sieve, sieve, Location, Mounts};
use super::propagate::{
    extends, is_stage, lemma_every_target_gets_a_copy, lemma_extends, lemma_spread_to_slaves_extends,
    served, spread_child, spread_children, spread_subtree, spread_to, spread_to_one,
    spread_to_slaves, Spread,
};
use super::propagation::PropagationMode;
use super::subtree::{
    all_changed, below_changed, is_step, lemma_changed, same_tree, PropagationChange,
};
use super::tree::lemma_slaves_of_group;

verus! {

/// Whether a mode takes part in group `g` as a peer.
pub open spec fn is_peer(mode: PropagationMode, g: u64) -> bool {
    match mode {
        PropagationMode::Shared { peer_group } => peer_group == g,
        PropagationMode::SharedAndSlave { peer_group, .. } => peer_group == g,
        _ => false,
    }
}

/// Whether a mode has group `g` as its master.
pub open spec fn is_slave(mode: PropagationMode, g: u64) -> bool {
    match mode {
        PropagationMode::Slave { master_group } => master_group == g,
        PropagationMode::SharedAndSlave { master_group, .. } => master_group == g,
        _ => false,
    }
}

/// What is mounted below a mount of group `g` goes to every other live peer of the
/// group, to every live slave of it, and on to the slaves of those slaves. What is
/// mounted below a mount that is in no group goes nowhere.
pub proof fn lemma_targets(s: Mounts, parent: usize, g: u64, x: usize, y: usize, h: u64)
    requires
        s.wf(),
        s.is_alive(x as int),
        y < s.mounts.len(),
    ensures
        is_peer(s.mounts[parent as int].mode, g) && x != parent && s.group(g).contains(x)
            && is_peer(s.mounts[x as int].mode, g) ==> s.targets(parent).contains(x),
        is_peer(s.mounts[parent as int].mode, g) && s.group(g).contains(x) && is_slave(
            s.mounts[x as int].mode,
            g,
        ) ==> s.targets(parent).contains(x),
        is_peer(s.mounts[parent as int].mode, g) && s.group(g).contains(y) && s.is_alive(y as int)
            && is_slave(s.mounts[y as int].mode, g) && is_peer(s.mounts[y as int].mode, h)
            && s.group(h).contains(x) && is_slave(s.mounts[x as int].mode, h) ==> s.targets(
            parent,
        ).contains(x),
        !(s.mounts[parent as int].mode is Shared) && !(s.mounts[parent as int].mode is SharedAndSlave)
            ==> s.targets(parent).len() == 0,
{
    if is_peer(s.mounts[parent as int].mode, g) {
        let a = s.members(g, parent);
        let b = s.slaves_of_group(g);
        let t = s.targets(parent);
        assert(t == a + b);
        lemma_sieve(s.group(g), s.peers(g, parent), x);
        lemma_sieve(s.group(g), s.slaves(g), x);
        lemma_sieve(s.group(g), s.slaves(g), y);
        lemma_sieve(s.group(h), s.slaves(h), x);
        lemma_slaves_of_group(s, g);
        if a.contains(x) {
            let i = choose|i: int| 0 <= i < a.len() && a[i] == x;
            assert(t[i] == x);
        }
        if s.direct_slaves(g).contains(x) {
            let i = choose|i: int| 0 <= i < s.direct_slaves(g).len() && s.direct_slaves(g)[i] == x;
            assert(b.contains(s.direct_slaves(g)[i]));
        }
        if s.direct_slaves(g).contains(y) {
            let i = choose|i: int| 0 <= i < s.direct_slaves(g).len() && s.direct_slaves(g)[i] == y;
            assert(b.contains(s.direct_slaves(g)[i]));
            if is_peer(s.mounts[y as int].mode, h) && s.direct_slaves(h).contains(x) {
                let j = choose|j: int|
                    0 <= j < s.direct_slaves(h).len() && s.direct_slaves(h)[j] == x;
                assert(b.contains(s.direct_slaves(h)[j]));
            }
        }
        if b.contains(x) {
            let i = choose|i: int| 0 <= i < b.len() && b[i] == x;
            assert(t[a.len() + i] == x);
        }
    }
}

/// A copy at a peer takes part in propagation as the new mount does. A copy at a
/// slave is a slave of the new mount, if that is shared, and shared itself, in a
/// new group, if the slave is.
pub proof fn lemma_copy_follows_its_place(
    s: Mounts,
    parent: usize,
    peer: usize,
    new: usize,
    g: u64,
)
    requires
        is_peer(s.mounts[parent as int].mode, g),
    ensures
        ({
            let (mode, takes) = s.propagated_mode(parent, peer, new);
            let at = s.mounts[peer as int].mode;
            let shown = s.mounts[new as int].mode;
            &&& is_peer(at, g) ==> mode == shown && !takes
            &&& !is_peer(at, g) && is_slave(at, g) ==> {
                let shared = at is SharedAndSlave;
                &&& takes == shared
                &&& match shown {
                    PropagationMode::Shared { peer_group } => mode == if shared {
                        PropagationMode::SharedAndSlave {
                            peer_group: s.next_group,
                            master_group: peer_group,
                        }
                    } else {
                        PropagationMode::Slave { master_group: peer_group }
                    },
                    PropagationMode::SharedAndSlave { peer_group, .. } => mode == if shared {
                        PropagationMode::SharedAndSlave {
                            peer_group: s.next_group,
                            master_group: peer_group,
                        }
                    } else {
                        PropagationMode::Slave { master_group: peer_group }
                    },
                    _ => mode == if shared {
                        PropagationMode::Shared { peer_group: s.next_group }
                    } else {
                        PropagationMode::Private
                    },
                }
            }
        }),
{
    assert(s.group_up(g, 0) == Some(g));
}

/// What is mounted on the new mount appears on its copy too: when all has spread,
/// each mount below has got a copy there. Only those are left out that are gone,
/// that lie above or below the copy, whose directory the copy does not show, or
/// that are already seen there.
pub proof fn lemma_what_is_below_is_copied(
    s: Spread,
    order: Seq<(EntryKey, usize)>,
    i: nat,
    from: usize,
    to: usize,
    depth: nat,
    t: Spread,
    k: int,
)
    requires
        spread_children(s, order, i, from, to, depth, t),
        t.ok,
        0 <= k < i,
    ensures
        served(t.created, to) || exists|mid: Spread|
            {
                let child = order[k].1;
                let l = mid.ms.mounts[child as int].location;
                &&& #[trigger] is_stage(mid)
                &&& spread_children(s, order, k as nat, from, to, depth, mid)
                &&& (l is None || !mid.ms.is_alive(child as int) || !mid.ms.apart(child, to)
                    || !mid.ms.reaches(to, (l->0).entry) || mid.ms.with_copy(
                    to,
                    (l->0).entry,
                    mid.ms.root_location(child),
                ).1 == child)
            },
    decreases i,
{
    let mid = choose|mid: Spread|
        #[trigger] is_stage(mid) && spread_children(s, order, (i - 1) as nat, from, to, depth, mid)
            && spread_child(mid, order[i - 1].1, from, to, depth, t);
    lemma_spread_child_extends(mid, order[i - 1].1, from, to, depth, t);
    if k == i - 1 {
        assert(is_stage(mid));
    } else {
        lemma_what_is_below_is_copied(s, order, (i - 1) as nat, from, to, depth, mid, k);
        if served(mid.created, to) {
            lemma_served_stays(mid.created, t.created, to);
        }
    }
}

/// The table with the copy of mount `new` for mount `peer`.
pub open spec fn copied_to(
    s: Mounts,
    peer: usize,
    parent: usize,
    entry: usize,
    source: Location,
    new: usize,
) -> Mounts {
    let (bound, shadow) = s.with_copy(peer, entry, source);
    bound.with_copy_mode(parent, peer, new, shadow)
}

/// A copy that a peer or a slave gets is not the end of it: what is mounted on the
/// new mount is copied to the copy, and the copy spreads to the slaves of the mount
/// that it was made for. All that is reported.
#[verifier::rlimit(40)]
#[verifier::spinoff_prover]
pub proof fn lemma_copy_spreads_on(
    s: Spread,
    peer: usize,
    parent: usize,
    entry: usize,
    source: Location,
    new: usize,
    depth: nat,
    t: Spread,
)
    requires
        spread_to_one(s, peer, parent, entry, source, new, depth, t),
        t.ok,
        s.ok,
        s.ms.apart(peer, new),
        !served(s.created, peer),
        s.ms.reaches(peer, entry),
        s.ms.with_copy(peer, entry, source).1 != new,
    ensures
        exists|order: Seq<(EntryKey, usize)>, below: Spread|
            {
                let shadow = s.ms.with_copy(peer, entry, source).1;
                let start = Spread {
                    ms: copied_to(s.ms, peer, parent, entry, source, new),
                    created: Seq::empty(),
                    ok: true,
                };
                let created = s.created.push((peer, shadow)) + below.created;
                &&& #[trigger] lists_children(
                    order,
                    copied_to(s.ms, peer, parent, entry, source, new).mounts[new as int].children,
                )
                &&& #[trigger] is_stage(below)
                &&& below.ok
                &&& spread_children(start, order, order.len(), new, shadow, (depth - 1) as nat, below)
                &&& extends(created, t.created)
                &&& below.ms.mode(peer as int).spec_peer_group() matches Some(g) ==> forall|k: int|
                    0 <= k < below.ms.slaves_of_group(g).len() ==> served(
                        t.created,
                        #[trigger] below.ms.slaves_of_group(g)[k],
                    ) || exists|mid: Spread|
                        {
                            let x = below.ms.slaves_of_group(g)[k];
                            &&& #[trigger] is_stage(mid)
                            &&& spread_to(
                                Spread { created, ..below },
                                below.ms.slaves_of_group(g),
                                k as nat,
                                peer,
                                entry,
                                source,
                                shadow,
                                (depth - 1) as nat,
                                mid,
                            )
                            &&& (!mid.ms.apart(x, shadow) || !mid.ms.reaches(x, entry)
                                || mid.ms.with_copy(x, entry, source).1 == shadow)
                        }
            },
{
    let (bound, shadow) = s.ms.with_copy(peer, entry, source);
    let copied = copied_to(s.ms, peer, parent, entry, source, new);
    let start = Spread { ms: copied, created: Seq::empty(), ok: true };
    assert(depth > 0);
    let d = (depth - 1) as nat;
    let below = choose|below: Spread|
        #[trigger] is_stage(below) && spread_subtree(start, new, shadow, d, below)
            && spread_to_slaves(
            Spread { created: s.created.push((peer, shadow)) + below.created, ..below },
            peer,
            entry,
            source,
            shadow,
            d,
            t,
        );
    let created = s.created.push((peer, shadow)) + below.created;
    let order = choose|order: Seq<(EntryKey, usize)>|
        #[trigger] lists_children(order, copied.mounts[new as int].children) && spread_children(
            start,
            order,
            order.len(),
            new,
            shadow,
            d,
            below,
        );
    let mine = Spread { created, ..below };
    lemma_spread_to_slaves_extends(mine, peer, entry, source, shadow, d, t);
    if let Some(g) = below.ms.mode(peer as int).spec_peer_group() {
        let targets = below.ms.slaves_of_group(g);
        assert forall|k: int| 0 <= k < targets.len() implies served(
            t.created,
            #[trigger] targets[k],
        ) || exists|mid: Spread|
            {
                &&& #[trigger] is_stage(mid)
                &&& spread_to(mine, targets, k as nat, peer, entry, source, shadow, d, mid)
                &&& (!mid.ms.apart(targets[k], shadow) || !mid.ms.reaches(targets[k], entry)
                    || mid.ms.with_copy(targets[k], entry, source).1 == shadow)
            } by {
            lemma_every_target_gets_a_copy(
                mine,
                targets,
                targets.len(),
                peer,
                entry,
                source,
                shadow,
                d,
                t,
                k,
            );
        }
    }
    assert(lists_children(order, copied.mounts[new as int].children) && is_stage(below));
}

proof fn lemma_served_stays(a: Seq<(usize, usize)>, b: Seq<(usize, usize)>, p: usize)
    requires
        extends(a, b),
        served(a, p),
    ensures
        served(b, p),
{
    let j = choose|j: int| 0 <= j < a.len() && (#[trigger] a[j]).0 == p;
    assert(b.take(a.len() as int)[j] == a[j]);
    assert(b[j].0 == p);
}

proof fn lemma_spread_child_extends(
    s: Spread,
    child: usize,
    from: usize,
    to: usize,
    depth: nat,
    t: Spread,
)
    requires
        spread_child(s, child, from, to, depth, t),
    ensures
        extends(s.created, t.created),
        t.ok ==> s.ok,
        ({
            let l = s.ms.mounts[child as int].location;
            t.ok && l is Some && s.ms.is_alive(child as int) && s.ms.apart(child, to)
                && s.ms.reaches(to, (l->0).entry) && s.ms.with_copy(
                to,
                (l->0).entry,
                s.ms.root_location(child),
            ).1 != child ==> served(t.created, to)
        }),
    decreases depth, 1nat, 0nat,
{
    match s.ms.mounts[child as int].location {
        None => {
            assert(t.created.take(s.created.len() as int) =~= s.created);
        },
        Some(l) => {
            let source = s.ms.root_location(child);
            let (bound, shadow) = s.ms.with_copy(to, l.entry, source);
            if !s.ok || !s.ms.is_alive(child as int) || !s.ms.apart(child, to) || !s.ms.reaches(
                to,
                l.entry,
            ) || depth == 0 || shadow == child {
                assert(t.created.take(s.created.len() as int) =~= s.created);
            } else {
                let mine = s.created.push((to, shadow));
                let start = Spread {
                    ms: bound.with_copy_mode(from, to, child, shadow),
                    created: mine,
                    ok: true,
                };
                let below = choose|below: Spread|
                    #[trigger] is_stage(below) && spread_subtree(
                        start,
                        child,
                        shadow,
                        (depth - 1) as nat,
                        below,
                    ) && spread_to_slaves(
                        below,
                        to,
                        l.entry,
                        source,
                        shadow,
                        (depth - 1) as nat,
                        t,
                    );
                lemma_spread_subtree_extends(start, child, shadow, (depth - 1) as nat, below);
                lemma_spread_to_slaves_extends(
                    below,
                    to,
                    l.entry,
                    source,
                    shadow,
                    (depth - 1) as nat,
                    t,
                );
                assert(mine.take(s.created.len() as int) =~= s.created);
                lemma_extends(s.created, mine, below.created);
                lemma_extends(mine, below.created, t.created);
                lemma_extends(s.created, below.created, t.created);
                assert(mine[s.created.len() as int].0 == to);
                assert(served(mine, to));
                lemma_served_stays(mine, t.created, to);
            }
        },
    }
}

proof fn lemma_spread_subtree_extends(s: Spread, from: usize, to: usize, depth: nat, t: Spread)
    requires
        spread_subtree(s, from, to, depth, t),
    ensures
        extends(s.created, t.created),
        t.ok ==> s.ok,
    decreases depth, 3nat, 0nat,
{
    let order = choose|order: Seq<(EntryKey, usize)>|
        #[trigger] lists_children(order, s.ms.mounts[from as int].children) && spread_children(
            s,
            order,
            order.len(),
            from,
            to,
            depth,
            t,
        );
    lemma_spread_children_extends(s, order, order.len(), from, to, depth, t);
}

proof fn lemma_spread_children_extends(
    s: Spread,
    order: Seq<(EntryKey, usize)>,
    i: nat,
    from: usize,
    to: usize,
    depth: nat,
    t: Spread,
)
    requires
        spread_children(s, order, i, from, to, depth, t),
    ensures
        extends(s.created, t.created),
        t.ok ==> s.ok,
    decreases depth, 2nat, i,
{
    if i == 0 {
        assert(t.created.take(s.created.len() as int) =~= s.created);
    } else {
        let mid = choose|mid: Spread|
            #[trigger] is_stage(mid) && spread_children(s, order, (i - 1) as nat, from, to, depth, mid)
                && spread_child(mid, order[i - 1].1, from, to, depth, t);
        lemma_spread_children_extends(s, order, (i - 1) as nat, from, to, depth, mid);
        lemma_spread_child_extends(mid, order[i - 1].1, from, to, depth, t);
        lemma_extends(s.created, mid.created, t.created);
    }
}

/// Whether a mode is what a change makes of a mount.
pub open spec fn fits(c: PropagationChange, mode: PropagationMode) -> bool {
    match c {
        PropagationChange::Shared => mode is Shared || mode is SharedAndSlave,
        PropagationChange::Slave => mode is Slave || mode is Private,
        PropagationChange::Private => mode is Private,
        PropagationChange::Unbindable => mode is Unbindable,
    }
}

/// A change of one mount gives it a mode that fits and leaves the others.
proof fn lemma_change_fits(s: Mounts, m: usize, c: PropagationChange)
    requires
        s.wf(),
        s.is_alive(m as int),
    ensures
        s.changed(m, c).wf(),
        same_tree(s, s.changed(m, c)),
        fits(c, s.changed(m, c).mounts[m as int].mode),
        forall|x: int|
            0 <= x < s.mounts.len() && x != m ==> (#[trigger] s.changed(m, c).mounts[x]).mode
                == s.mounts[x].mode,
{
    lemma_changed(s, m, c);
    lemma_moved_to(s, m, PropagationMode::Private);
    lemma_moved_to(s, m, PropagationMode::Unbindable);
    let counted = s.next_group_taken();
    lemma_counted_wf(s, counted);
    lemma_moved_to(counted, m, s.shared_mode(m));
    if let Some(g) = s.mode(m as int).spec_peer_group() {
        lemma_moved_to(s, m, PropagationMode::Slave { master_group: g });
    }
}

/// Changing a mount and what is below it takes no mode away that fits.
proof fn lemma_all_changed_fits(
    s: Mounts,
    m: usize,
    c: PropagationChange,
    depth: nat,
    t: Mounts,
    ok: bool,
)
    requires
        s.wf(),
        s.is_alive(m as int),
        all_changed(s, m, c, depth, t, ok),
    ensures
        t.wf(),
        same_tree(s, t),
        fits(c, t.mounts[m as int].mode),
        forall|x: int|
            0 <= x < s.mounts.len() && fits(c, s.mounts[x].mode) ==> fits(
                c,
                (#[trigger] t.mounts[x]).mode,
            ),
    decreases depth, 2nat, 0nat,
{
    let u = s.changed(m, c);
    lemma_change_fits(s, m, c);
    let order = choose|order: Seq<(EntryKey, usize)>|
        #[trigger] lists_children(order, u.mounts[m as int].children) && below_changed(
            u,
            order,
            order.len(),
            c,
            depth,
            t,
            ok,
        );
    lemma_below_changed_fits(u, order, order.len(), c, depth, t, ok);
}

proof fn lemma_below_changed_fits(
    s: Mounts,
    order: Seq<(EntryKey, usize)>,
    i: nat,
    c: PropagationChange,
    depth: nat,
    t: Mounts,
    ok: bool,
)
    requires
        s.wf(),
        i <= order.len(),
        below_changed(s, order, i, c, depth, t, ok),
    ensures
        t.wf(),
        same_tree(s, t),
        forall|x: int|
            0 <= x < s.mounts.len() && fits(c, s.mounts[x].mode) ==> fits(
                c,
                (#[trigger] t.mounts[x]).mode,
            ),
    decreases depth, 1nat, i,
{
    if i > 0 {
        let child = order[i - 1].1;
        let (mid, mid_ok) = choose|mid: Mounts, mid_ok: bool|
            #[trigger] is_step(mid, mid_ok) && below_changed(
                s,
                order,
                (i - 1) as nat,
                c,
                depth,
                mid,
                mid_ok,
            ) && if !mid_ok || !mid.is_alive(child as int) {
                t == mid && ok == mid_ok
            } else if depth == 0 {
                t == mid && !ok
            } else {
                all_changed(mid, child, c, (depth - 1) as nat, t, ok)
            };
        lemma_below_changed_fits(s, order, (i - 1) as nat, c, depth, mid, mid_ok);
        if mid_ok && mid.is_alive(child as int) && depth > 0 {
            lemma_all_changed_fits(mid, child, c, (depth - 1) as nat, t, ok);
        }
    }
}

/// A change of a mount and everything below it reaches everything: whatever hangs
/// on the mount, on a mount that hangs on it, and so on, has a mode that fits
/// afterwards.
#[verifier::rlimit(40)]
#[verifier::spinoff_prover]
pub proof fn lemma_everything_below_is_changed(
    s: Mounts,
    m: usize,
    c: PropagationChange,
    depth: nat,
    t: Mounts,
    path: Seq<usize>,
)
    requires
        s.wf(),
        s.is_alive(m as int),
        all_changed(s, m, c, depth, t, true),
        path.len() > 0,
        path[0] == m,
        s.is_chain(path),
    ensures
        fits(c, t.mounts[path.last() as int].mode),
    decreases depth, 2nat, 0nat,
{
    lemma_all_changed_fits(s, m, c, depth, t, true);
    if path.len() > 1 {
        let u = s.changed(m, c);
        lemma_change_fits(s, m, c);
        let order = choose|order: Seq<(EntryKey, usize)>|
            #[trigger] lists_children(order, u.mounts[m as int].children) && below_changed(
                u,
                order,
                order.len(),
                c,
                depth,
                t,
                true,
            );
        let rest = path.skip(1);
        assert(s.hangs_on(path[1], path[0]));
        let key = choose|key: EntryKey|
            #[trigger] s.mounts[m as int].children.contains_key(key) && s.mounts[m as int].children[
                key] == path[1];
        assert(u.mounts[m as int].children == s.mounts[m as int].children);
        assert(u.mounts[m as int].children.contains_key(key));
        let k = choose|k: int| 0 <= k < order.len() && (#[trigger] order[k]).0 == key;
        assert(order[k].1 == path[1]);
        assert(s.is_chain(rest)) by {
            assert forall|j: int| 0 < j < rest.len() implies s.hangs_on(#[trigger] rest[j], rest[j - 1]) by {
                assert(rest[j] == path[j + 1] && rest[j - 1] == path[j]);
                assert(s.hangs_on(path[j + 1], path[j]));
            }
        }
        assert(s.mount_wf(m as int));
        lemma_chain_alike(s, u, rest);
        lemma_below_on_path(u, order, order.len(), c, depth, t, rest, k);
        assert(rest.last() == path.last());
    }
}

/// Tables that differ in modes at most have the same chains.
proof fn lemma_chain_alike(s: Mounts, t: Mounts, path: Seq<usize>)
    requires
        s.wf(),
        same_tree(s, t),
        s.is_chain(path),
        path.len() > 0,
        path[0] < s.mounts.len(),
    ensures
        t.is_chain(path),
{
    assert forall|j: int| 0 < j < path.len() implies t.hangs_on(#[trigger] path[j], path[j - 1]) by {
        assert(s.hangs_on(path[j], path[j - 1]));
        assert(path[j - 1] < s.mounts.len()) by {
            if j > 1 {
                assert(s.hangs_on(path[j - 1], path[j - 2]));
            }
        }
        let k = choose|k: EntryKey|
            #[trigger] s.mounts[path[j - 1] as int].children.contains_key(k) && s.mounts[path[j
                - 1] as int].children[k] == path[j];
        assert(t.mounts[path[j] as int].alive == s.mounts[path[j] as int].alive);
        assert(t.mounts[path[j - 1] as int].children.contains_key(k));
    }
}

#[verifier::rlimit(40)]
#[verifier::spinoff_prover]
proof fn lemma_below_on_path(
    s: Mounts,
    order: Seq<(EntryKey, usize)>,
    i: nat,
    c: PropagationChange,
    depth: nat,
    t: Mounts,
    path: Seq<usize>,
    k: int,
)
    requires
        s.wf(),
        i <= order.len(),
        below_changed(s, order, i, c, depth, t, true),
        0 <= k < i,
        path.len() > 0,
        path[0] == order[k].1,
        s.is_alive(path[0] as int),
        s.is_chain(path),
    ensures
        fits(c, t.mounts[path.last() as int].mode),
    decreases depth, 1nat, i,
{
    let child = order[i - 1].1;
    let (mid, mid_ok) = choose|mid: Mounts, mid_ok: bool|
        #[trigger] is_step(mid, mid_ok) && below_changed(
            s,
            order,
            (i - 1) as nat,
            c,
            depth,
            mid,
            mid_ok,
        ) && if !mid_ok || !mid.is_alive(child as int) {
            t == mid && true == mid_ok
        } else if depth == 0 {
            t == mid && !true
        } else {
            all_changed(mid, child, c, (depth - 1) as nat, t, true)
        };
    lemma_below_changed_fits(s, order, (i - 1) as nat, c, depth, mid, mid_ok);
    assert(path.last() < s.mounts.len()) by {
        if path.len() > 1 {
            assert(s.hangs_on(path[path.len() - 1], path[path.len() - 2]));
        }
    }
    if k == i - 1 {
        assert(mid.mounts[child as int].alive == s.mounts[child as int].alive);
        lemma_chain_alike(s, mid, path);
        lemma_everything_below_is_changed(mid, child, c, (depth - 1) as nat, t, path);
    } else {
        assert(mid_ok);
        lemma_below_on_path(s, order, (i - 1) as nat, c, depth, mid, path, k);
        if mid.is_alive(child as int) {
            lemma_all_changed_fits(mid, child, c, (depth - 1) as nat, t, true);
        }
    }
}

} // verus!
