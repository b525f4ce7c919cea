//! What the modes of mounts and their groups come to.
use vstd::prelude::*;

use crate::error::AxError;

use super::entry::{is_above, key_of};
use super::maps::no_children;
use super::mount::{
    lemma_moved_to, lemma_registered, lemma_unregistered, Location, Mount, Mounts,
};
use super::mount_ops::{
    lemma_same_groups_wf, lemma_with_child_wf, lemma_with_new_wf, lemma_without_child_wf,
};
use super::propagation::PropagationMode;

verus! {

impl Mounts {
    /// Every group that is in use has been counted.
    pub open spec fn groups_counted(self) -> bool {
        &&& forall|g: u64| #[trigger] self.groups.contains_key(g) ==> g < self.next_group
        &&& forall|m: int, g: u64|
            0 <= m < self.mounts.len() && #[trigger] self.mounts[m].mode.mentions(g) ==> g
                < self.next_group
    }
}

/// A mount that changes its mode is in the groups of the new mode and in no
/// other. Nobody else joins or leaves a group, and no other mount changes.
pub proof fn lemma_mode_change(s: Mounts, m: usize, mode: PropagationMode, g: u64, x: usize)
    requires
        s.wf(),
        s.is_alive(m as int),
        s.is_alive(x as int),
        x != m,
    ensures
        ({
            let t = s.moved_to(m, mode);
            let in_new = match mode {
                PropagationMode::Shared { peer_group } => g == peer_group,
                PropagationMode::Slave { master_group } => g == master_group,
                PropagationMode::SharedAndSlave { peer_group, master_group } => g == peer_group
                    || g == master_group,
                _ => false,
            };
            &&& t.mounts[m as int].mode == mode
            &&& t.group(g).contains(m) <==> in_new
            &&& t.group(g).contains(x) <==> s.group(g).contains(x)
            &&& t.mounts[x as int] == s.mounts[x as int]
            &&& t.mounts.len() == s.mounts.len()
        }),
{
    let before = s.mode(m as int);
    let a = s.with_mode(m as int, mode);
    let b = a.unregistered(m, before);
    lemma_moved_to(s, m, mode);
    lemma_unregistered(a, m, before, g);
    lemma_registered(b, m, mode, g);
    assert(a.group(g) == s.group(g));
    assert(a.is_alive(x as int));
}

/// The same of a mode that may be the one that the mount has.
pub proof fn lemma_mode_changed(s: Mounts, m: usize, mode: PropagationMode, g: u64, x: usize)
    requires
        s.wf(),
        s.is_alive(m as int),
        s.is_alive(x as int),
        x != m,
    ensures
        ({
            let t = s.mode_changed(m, mode);
            &&& t.mounts[m as int].mode == mode
            &&& s.mounts[m as int].mode == mode ==> t == s
            &&& s.mounts[m as int].mode != mode ==> (t.group(g).contains(m) <==> match mode {
                PropagationMode::Shared { peer_group } => g == peer_group,
                PropagationMode::Slave { master_group } => g == master_group,
                PropagationMode::SharedAndSlave { peer_group, master_group } => g == peer_group
                    || g == master_group,
                _ => false,
            })
            &&& t.group(g).contains(x) <==> s.group(g).contains(x)
            &&& t.mounts[x as int] == s.mounts[x as int]
        }),
{
    if s.mode(m as int) != mode {
        lemma_mode_change(s, m, mode, g, x);
    }
}

/// The only member of a group that nobody was in.
proof fn lemma_first_member(s: Mounts, m: usize, mode: PropagationMode, g: u64)
    requires
        s.wf(),
        s.is_alive(m as int),
        !s.groups.contains_key(g),
        !s.mode(m as int).mentions(g),
        mode.spec_peer_group() == Some(g),
        mode.spec_master_group() != Some(g),
    ensures
        s.moved_to(m, mode).groups.contains_key(g),
        s.moved_to(m, mode).groups[g] == seq![m],
{
    let before = s.mode(m as int);
    let a = s.with_mode(m as int, mode);
    let b = a.unregistered(m, before);
    lemma_unregistered(a, m, before, g);
    assert(a.group(g) == Seq::<usize>::empty());
    assert(b.group(g) == Seq::<usize>::empty());
    assert(!b.group(g).contains(m));
    assert(Seq::<usize>::empty().push(m) =~= seq![m]);
    assert(b.joined(g, m).groups[g] == seq![m]);
}

/// A mount that is made shared gets a group of its own, unless it is shared
/// already, in which case nothing happens. A slave stays one.
pub proof fn lemma_made_shared(s: Mounts, m: usize)
    requires
        s.wf(),
        s.is_alive(m as int),
        s.groups_counted(),
    ensures
        ({
            let t = s.made_shared(m);
            let g = s.next_group;
            match s.mounts[m as int].mode {
                PropagationMode::Shared { .. } | PropagationMode::SharedAndSlave { .. } => t == s,
                PropagationMode::Slave { master_group } => {
                    &&& t.mounts[m as int].mode == (PropagationMode::SharedAndSlave {
                        peer_group: g,
                        master_group,
                    })
                    &&& t.groups[g] == seq![m]
                    &&& t.group(master_group).contains(m)
                    &&& t.next_group == g.wrapping_add(1)
                },
                _ => {
                    &&& t.mounts[m as int].mode == (PropagationMode::Shared { peer_group: g })
                    &&& t.groups[g] == seq![m]
                    &&& t.next_group == g.wrapping_add(1)
                },
            }
        }),
{
    let g = s.next_group;
    let c = s.next_group_taken();
    lemma_counted_wf(s, c);
    let before = s.mounts[m as int].mode;
    assert(s.mounts[m as int].mode.mentions(g) ==> g < s.next_group);
    assert(!s.groups.contains_key(g));
    if before.spec_peer_group() is None {
        let mode = s.shared_mode(m);
        if let PropagationMode::Slave { master_group } = before {
            assert(s.mounts[m as int].mode.mentions(master_group));
            assert(mode.mentions(master_group));
        }
        lemma_moved_to(c, m, mode);
        lemma_first_member(c, m, mode, g);
    }
}

/// Counting a group changes nothing else.
pub(crate) proof fn lemma_counted_wf(s: Mounts, c: Mounts)
    requires
        s.wf(),
        c.entries == s.entries,
        c.groups == s.groups,
        c.mounts == s.mounts,
    ensures
        c.wf(),
{
    assert forall|m: int| 0 <= m < c.mounts.len() implies #[trigger] c.mount_wf(m) by {
        assert(s.mount_wf(m));
    }
    lemma_same_groups_wf(s, c);
}

/// A shared mount that is made a slave has the group that it was in as its
/// master, and leaves the master that it had. A slave stays as it is, and any
/// other mount becomes private.
pub proof fn lemma_made_slave(s: Mounts, m: usize, g: u64)
    requires
        s.wf(),
        s.is_alive(m as int),
    ensures
        ({
            let t = s.made_slave(m);
            match s.mounts[m as int].mode {
                PropagationMode::Shared { peer_group } => {
                    &&& t.mounts[m as int].mode == (PropagationMode::Slave {
                        master_group: peer_group,
                    })
                    &&& t.group(g).contains(m) <==> g == peer_group
                },
                PropagationMode::SharedAndSlave { peer_group, .. } => {
                    &&& t.mounts[m as int].mode == (PropagationMode::Slave {
                        master_group: peer_group,
                    })
                    &&& t.group(g).contains(m) <==> g == peer_group
                },
                PropagationMode::Slave { .. } => t == s,
                _ => {
                    &&& t.mounts[m as int].mode == PropagationMode::Private
                    &&& !t.group(g).contains(m)
                },
            }
        }),
{
    match s.mode(m as int) {
        PropagationMode::Shared { peer_group } => {
            lemma_moved_to(s, m, PropagationMode::Slave { master_group: peer_group });
        },
        PropagationMode::SharedAndSlave { peer_group, .. } => {
            lemma_moved_to(s, m, PropagationMode::Slave { master_group: peer_group });
        },
        PropagationMode::Slave { .. } => {},
        _ => {
            lemma_moved_to(s, m, PropagationMode::Private);
        },
    }
}

/// A file system that is mounted below a shared mount is shared, in a group that
/// no mount had before and in which it is alone; one that is mounted elsewhere is
/// private and in no group. The mount is as new in everything else, and no other
/// mount changes but for the one that it hangs from, which gets a child.
pub proof fn lemma_mounted_fs(s: Mounts, at: Location, root: usize)
    requires
        s.wf(),
        s.location_wf(at),
        root < s.entries.len(),
        s.mounts.len() < usize::MAX,
        s.groups_counted(),
    ensures
        ({
            let t = s.with_fs(at, root);
            let n = s.mounts.len() as int;
            let parent = s.mounts[at.mountpoint as int];
            let new = t.mounts[n];
            &&& t.mounts.len() == n + 1
            &&& new.root == root
            &&& new.location == Some(at)
            &&& new.alive
            &&& !new.read_only
            &&& new.flags == 0
            &&& new.device == s.next_device
            &&& new.id == s.next_id
            &&& match parent.mode {
                PropagationMode::Shared { .. } | PropagationMode::SharedAndSlave { .. } => {
                    &&& new.mode is Shared
                    &&& !s.groups.contains_key(new.mode->Shared_peer_group)
                    &&& forall|m: int|
                        0 <= m < n ==> !(#[trigger] s.mounts[m]).mode.mentions(
                            new.mode->Shared_peer_group,
                        )
                    &&& t.groups == s.groups.insert(
                        new.mode->Shared_peer_group,
                        seq![n as usize],
                    )
                    &&& t.next_group == s.next_group.wrapping_add(1)
                },
                _ => {
                    &&& new.mode == PropagationMode::Private
                    &&& t.groups == s.groups
                    &&& t.next_group == s.next_group
                },
            }
            &&& t.mounts[at.mountpoint as int] == (Mount {
                children: parent.children.insert(
                    (s.entries[at.entry as int].inode, s.entries[at.entry as int].fs),
                    n as usize,
                ),
                ..parent
            })
            &&& forall|m: int|
                0 <= m < n && m != at.mountpoint ==> #[trigger] t.mounts[m] == s.mounts[m]
        }),
{
    let g = s.next_group;
    let n = s.mounts.len() as usize;
    assert(!s.groups.contains_key(g));
    assert(s.group(g) == Seq::<usize>::empty());
    assert(!s.group(g).contains(n));
    assert(Seq::<usize>::empty().push(n) =~= seq![n]);
    assert forall|m: int| 0 <= m < n implies !(#[trigger] s.mounts[m]).mode.mentions(g) by {}
    if s.mode(at.mountpoint as int).spec_peer_group() is Some {
        let t = s.with_fs(at, root);
        assert(t.groups == s.groups.insert(g, seq![n]));
    }
}

/// What a bind leads to, where nothing is mounted yet.
#[verifier::rlimit(40)]
#[verifier::spinoff_prover]
proof fn lemma_bound(s: Mounts, at: Location, source: Location)
    requires
        s.wf(),
        s.location_wf(at),
        s.location_wf(source),
        s.mounts.len() < usize::MAX,
    ensures
        ({
            let (mode, takes) = s.bind_mode(at, source);
            let c = s.group_counted(takes);
            let t = c.with_bind(at, source, mode);
            let n = s.mounts.len() as usize;
            let from = s.mounts[source.mountpoint as int];
            &&& t.wf()
            &&& t.mounts.len() == n + 1
            &&& t.next_group == c.next_group
            &&& t.mounts[n as int] == (Mount {
                root: source.entry,
                location: Some(at),
                children: no_children(),
                device: from.device,
                id: s.next_id,
                mode,
                read_only: from.read_only,
                flags: from.flags,
                alive: true,
            })
            &&& forall|m: int| 0 <= m < n && m != at.mountpoint ==> #[trigger] t.mounts[m] == s.mounts[m]
            &&& t.mounts[at.mountpoint as int] == (Mount {
                children: s.mounts[at.mountpoint as int].children.insert(
                    key_of(s.entries, at.entry as int),
                    n,
                ),
                ..s.mounts[at.mountpoint as int]
            })
            &&& forall|g: u64| #[trigger] t.group(g).contains(n) <==> mode.mentions(g)
            &&& forall|g: u64, x: usize|
                x < n && s.mounts[x as int].alive ==> (#[trigger] t.group(g).contains(x)
                    <==> s.group(g).contains(x))
            &&& takes && !s.groups.contains_key(s.next_group) && mode.spec_master_group() != Some(
                s.next_group,
            ) ==> t.groups.contains_key(s.next_group) && t.groups[s.next_group] == seq![n]
        }),
{
    let (mode, takes) = s.bind_mode(at, source);
    let c = s.group_counted(takes);
    lemma_counted_wf(s, c);
    let n = s.next_mount();
    let from = s.mounts[source.mountpoint as int];
    let x = Mount {
        root: source.entry,
        location: Some(at),
        children: no_children(),
        device: from.device,
        id: s.next_id,
        mode: PropagationMode::Private,
        read_only: from.read_only,
        flags: from.flags,
        alive: true,
    };
    let counted = Mounts { next_id: s.next_id.wrapping_add(1), ..c };
    lemma_counted_wf(c, counted);
    lemma_with_new_wf(counted, x);
    let plain = counted.with_new(x);
    let moved = plain.mode_changed(n, mode);
    assert(moved.mounts[n as int].mode == mode && moved.wf() && moved.mounts.len()
        == plain.mounts.len() && moved.next_group == c.next_group && moved.entries == s.entries) by {
        lemma_moved_to(plain, n, mode);
    }
    assert forall|g: u64| #[trigger] plain.group(g) == s.group(g) && !s.group(g).contains(n) by {
        assert(s.group_wf(g));
        if s.group(g).contains(n) {
            let i = choose|i: int| 0 <= i < s.group(g).len() && s.group(g)[i] == n;
            assert(s.group(g)[i] < s.mounts.len());
        }
    }
    if mode != PropagationMode::Private {
        lemma_moved_to(plain, n, mode);
        if takes && !s.groups.contains_key(s.next_group) && mode.spec_master_group() != Some(
            s.next_group,
        ) {
            lemma_first_member(plain, n, mode, s.next_group);
        }
    }
    let t = c.with_bind(at, source, mode);
    assert(t == moved.with_child(at.mountpoint as int, key_of(s.entries, at.entry as int), n));
    lemma_with_child_wf(moved, at.mountpoint as int, key_of(s.entries, at.entry as int), n);
    assert(t.groups == moved.groups);
    assert forall|g: u64| #[trigger] t.group(g).contains(n) <==> mode.mentions(g) by {
        assert(t.group(g) == moved.group(g));
        assert(moved.group(g).contains(n) <==> mode.mentions(g)) by {
            if mode == PropagationMode::Private {
                assert(plain.group(g) == s.group(g));
            }
        }
    }
    assert forall|g: u64, y: usize| y < n && s.mounts[y as int].alive implies (
    #[trigger] t.group(g).contains(y) <==> s.group(g).contains(y)) by {
        assert(t.group(g) == moved.group(g));
        assert(plain.group(g) == s.group(g));
        assert(plain.mounts[y as int] == s.mounts[y as int]);
        lemma_mode_changed(plain, n, mode, g, y);
    }
    assert forall|m: int| 0 <= m < n && m != at.mountpoint implies #[trigger] t.mounts[m]
        == s.mounts[m] by {
        assert(plain.mounts[m] == s.mounts[m]);
        if mode != PropagationMode::Private {
            assert(moved.mounts == plain.with_mode(n as int, mode).mounts);
        }
    }
}

/// A bind shows what its source shows, with the properties of the source's
/// mount. If the root of a mount is bound, the bind takes part in propagation as
/// that mount does, and so it does if a directory of a shared mount is bound
/// somewhere that is not above or below it. Below a shared mount, a bind that
/// would not be shared becomes so, in a new group in which it is alone. Nobody
/// else joins or leaves a group.
#[verifier::rlimit(40)]
#[verifier::spinoff_prover]
pub proof fn lemma_bound_mount(s: Mounts, at: Location, source: Location, x: usize, g: u64)
    requires
        s.wf(),
        s.location_wf(at),
        s.location_wf(source),
        s.mounts.len() < usize::MAX,
        s.groups_counted(),
        s.mounted_at(at) is None,
        x < s.mounts.len(),
        s.mounts[x as int].alive,
    ensures
        ({
            let (t, n) = s.spread_bind(at, source);
            let from = s.mounts[source.mountpoint as int];
            let new = t.mounts[n as int];
            let here = s.entries[source.entry as int];
            let top = s.entries[from.root as int];
            let whole = here.inode == top.inode && here.fs == top.fs;
            let below_shared = match s.mounts[at.mountpoint as int].mode {
                PropagationMode::Shared { .. } | PropagationMode::SharedAndSlave { .. } => true,
                _ => false,
            };
            let follows = whole || !s.related(at.entry, source.entry);
            &&& n == s.mounts.len()
            &&& new.root == source.entry
            &&& new.location == Some(at)
            &&& new.alive
            &&& new.read_only == from.read_only
            &&& new.flags == from.flags
            &&& new.device == from.device
            &&& new.id == s.next_id
            &&& match from.mode {
                PropagationMode::Shared { peer_group } if follows => {
                    &&& new.mode == from.mode
                    &&& t.group(peer_group).contains(n)
                },
                PropagationMode::SharedAndSlave { peer_group, master_group } if follows => {
                    &&& new.mode == from.mode
                    &&& t.group(peer_group).contains(n)
                    &&& t.group(master_group).contains(n)
                },
                PropagationMode::Slave { master_group } if whole => {
                    &&& !below_shared ==> new.mode == from.mode
                    &&& below_shared ==> {
                        &&& new.mode == (PropagationMode::SharedAndSlave {
                            peer_group: s.next_group,
                            master_group,
                        })
                        &&& t.groups[s.next_group] == seq![n]
                    }
                    &&& t.group(master_group).contains(n)
                },
                _ => {
                    &&& below_shared ==> {
                        &&& new.mode == (PropagationMode::Shared { peer_group: s.next_group })
                        &&& t.groups[s.next_group] == seq![n]
                    }
                    &&& !below_shared ==> {
                        &&& new.mode is Private || (whole && new.mode == from.mode)
                        &&& from.mode is Private ==> new.mode is Private
                        &&& !t.group(g).contains(n)
                    }
                },
            }
            &&& t.group(g).contains(x) <==> s.group(g).contains(x)
            &&& t.mounts[x as int].mode == s.mounts[x as int].mode
        }),
{
    lemma_bound(s, at, source);
    let (mode, takes) = s.bind_mode(at, source);
    let from = s.mounts[source.mountpoint as int];
    assert(!s.groups.contains_key(s.next_group));
    if let PropagationMode::Slave { master_group } = from.mode {
        assert(s.mounts[source.mountpoint as int].mode.mentions(master_group));
    }
    let (t, n) = s.spread_bind(at, source);
    assert(t.group(g).contains(n) <==> mode.mentions(g));
    assert(t.group(g).contains(x) <==> s.group(g).contains(x));
}

/// A mount that leaves the tree leaves its groups, and nobody else does.
pub proof fn lemma_unmounted_mount(s: Mounts, l: Location, g: u64, x: usize)
    requires
        s.wf(),
        s.location_wf(l),
        s.is_alive(l.mountpoint as int),
        s.is_alive(x as int),
        x != l.mountpoint,
    ensures
        ({
            let (r, t) = s.unmounted(l);
            let mount = s.mounts[l.mountpoint as int];
            let here = s.entries[l.entry as int];
            let top = s.entries[mount.root as int];
            let whole = here.inode == top.inode && here.fs == top.fs;
            &&& !whole <==> r == Err::<(), AxError>(AxError::InvalidInput)
            &&& whole && mount.children != no_children() <==> r == Err::<(), AxError>(
                AxError::ResourceBusy,
            )
            &&& r is Err && !(r == Err::<(), AxError>(AxError::NotADirectory)) ==> t == s
            &&& r is Ok <==> whole && mount.children == no_children() && here.is_dir
            &&& r is Ok ==> {
                &&& !t.group(g).contains(l.mountpoint)
                &&& t.group(g).contains(x) <==> s.group(g).contains(x)
                &&& t.mounts[x as int].mode == s.mounts[x as int].mode
                &&& t.mounts[x as int].location == s.mounts[x as int].location
                &&& mount.location matches Some(p) ==> t.mounted_at(p) is None
            }
        }),
{
    let m = l.mountpoint;
    let mount = s.mounts[m as int];
    assert(s.mount_wf(m as int));
    assert(s.group_wf(g));
    lemma_unregistered(s, m, mount.mode, g);
    if s.group(g).contains(m) {
        let i = choose|i: int| 0 <= i < s.group(g).len() && s.group(g)[i] == m;
        assert(s.mounts[s.group(g)[i] as int].mode.mentions(g));
    }
}

/// A mount that is moved below a shared mount is shared there: it keeps its
/// group, or gets a new one in which it is alone. Moved elsewhere it keeps its
/// mode. Nobody else joins or leaves a group.
#[verifier::rlimit(40)]
#[verifier::spinoff_prover]
pub proof fn lemma_moved_mount(s: Mounts, l: Location, to: Location, g: u64, x: usize)
    requires
        s.wf(),
        s.location_wf(l),
        s.location_wf(to),
        s.is_alive(l.mountpoint as int),
        s.groups_counted(),
        s.is_alive(x as int),
        x != l.mountpoint,
    ensures
        ({
            let (r, t) = s.with_move(l, to);
            let m = l.mountpoint as int;
            let here = s.entries[l.entry as int];
            let top = s.entries[s.mounts[m].root as int];
            let whole = here.inode == top.inode && here.fs == top.fs;
            let shared = s.mounts[m].mode is Shared || s.mounts[m].mode is SharedAndSlave;
            let below_shared = s.mounts[to.mountpoint as int].mode is Shared
                || s.mounts[to.mountpoint as int].mode is SharedAndSlave;
            &&& !whole <==> r == Err::<usize, AxError>(AxError::InvalidInput)
            &&& whole && !s.entries[to.entry as int].is_dir <==> r == Err::<usize, AxError>(
                AxError::NotADirectory,
            )
            &&& r is Ok <==> whole && s.entries[to.entry as int].is_dir && s.mounted_at(to) is None
            &&& r is Err ==> t == s
            &&& r is Ok ==> {
                &&& r == Ok::<usize, AxError>(l.mountpoint)
                &&& t.mounts[m].location == Some(to)
                &&& t.mounts[m].root == s.mounts[m].root
                &&& shared || !below_shared ==> t.mounts[m].mode == s.mounts[m].mode && t.groups
                    == s.groups
                &&& !shared && below_shared ==> {
                    &&& t.mounts[m].mode == (PropagationMode::Shared { peer_group: s.next_group })
                    &&& t.groups[s.next_group] == seq![l.mountpoint]
                }
                &&& t.group(g).contains(x) <==> s.group(g).contains(x)
                &&& t.mounts[x as int].mode == s.mounts[x as int].mode
                &&& t.mounts[x as int].location == s.mounts[x as int].location
            }
        }),
{
    let m = l.mountpoint;
    if s.with_move(l, to).0 is Ok {
        let before = s.mounts[m as int].location;
        assert(s.mount_wf(m as int));
        let detached = match before {
            Some(p) => s.without_child(p.mountpoint as int, key_of(s.entries, p.entry as int)),
            None => s,
        };
        if let Some(p) = before {
            lemma_without_child_wf(s, p.mountpoint as int, key_of(s.entries, p.entry as int));
        }
        let located = detached.with_mount(
            m as int,
            Mount { location: Some(to), ..detached.mounts[m as int] },
        );
        assert forall|k: int| 0 <= k < located.mounts.len() implies #[trigger] located.mount_wf(
            k,
        ) by {
            assert(detached.mount_wf(k));
        }
        lemma_same_groups_wf(detached, located);
        let hung = s.with_mount_at(m, to);
        lemma_with_child_wf(located, to.mountpoint as int, key_of(s.entries, to.entry as int), m);
        assert(hung == located.with_child(
            to.mountpoint as int,
            key_of(s.entries, to.entry as int),
            m,
        ));
        assert(hung.groups == s.groups);
        let (mode, takes) = hung.moved_mode(m, to);
        let c = hung.group_counted(takes);
        lemma_counted_wf(hung, c);
        assert(!s.groups.contains_key(s.next_group));
        assert(s.mounts[m as int].mode.mentions(s.next_group) ==> s.next_group < s.next_group);
        assert(c.mode(m as int) == s.mode(m as int));
        if c.mode(m as int) != mode {
            lemma_mode_change(c, m, mode, g, x);
            lemma_moved_to(c, m, mode);
            lemma_first_member(c, m, mode, s.next_group);
        }
    }
}

/// The groups of a mount that changes its mode are the only ones that can come up.
proof fn lemma_no_other_groups(s: Mounts, m: usize, mode: PropagationMode)
    ensures
        forall|g: u64| #[trigger]
            s.moved_to(m, mode).groups.contains_key(g) ==> s.groups.contains_key(g)
                || mode.mentions(g),
        s.moved_to(m, mode).mounts == s.with_mode(m as int, mode).mounts,
        s.moved_to(m, mode).next_group == s.next_group,
{
    let a = s.with_mode(m as int, mode);
    let b = a.unregistered(m, s.mode(m as int));
    lemma_unregistered(a, m, s.mode(m as int), 0);
    lemma_registered(b, m, mode, 0);
}

proof fn lemma_move_stays_counted(s: Mounts, m: usize, mode: PropagationMode)
    requires
        s.groups_counted(),
        m < s.mounts.len(),
        forall|g: u64| #[trigger] mode.mentions(g) ==> g < s.next_group,
    ensures
        s.moved_to(m, mode).groups_counted(),
{
    lemma_no_other_groups(s, m, mode);
    let t = s.moved_to(m, mode);
    assert forall|k: int, g: u64|
        0 <= k < t.mounts.len() && #[trigger] t.mounts[k].mode.mentions(g) implies g
        < t.next_group by {
        if k != m {
            assert(s.mounts[k].mode.mentions(g));
        }
    }
}

/// A number that was given to a group is given to no other: as long as the
/// numbers do not run out, every group in use stays counted, whatever is mounted,
/// bound, moved, unmounted, shared or made a slave.
#[verifier::rlimit(40)]
#[verifier::spinoff_prover]
pub proof fn lemma_groups_stay_counted(
    s: Mounts,
    at: Location,
    source: Location,
    root: usize,
    m: usize,
)
    requires
        s.wf(),
        s.groups_counted(),
        s.next_group < u64::MAX,
        s.location_wf(at),
        s.location_wf(source),
        m < s.mounts.len(),
        s.mounts.len() < usize::MAX,
    ensures
        s.with_fs(at, root).groups_counted(),
        s.spread_bind(at, source).0.groups_counted(),
        s.unmounted(source).1.groups_counted(),
        s.with_move(source, at).1.groups_counted(),
        s.made_shared(m).groups_counted(),
        s.made_slave(m).groups_counted(),
{
    let n = s.next_mount();
    let c = s.next_group_taken();
    assert(c.next_group == s.next_group + 1);
    assert(c.groups_counted()) by {
        assert forall|k: int, g: u64|
            0 <= k < c.mounts.len() && #[trigger] c.mounts[k].mode.mentions(g) implies g
            < c.next_group by {
            assert(s.mounts[k].mode.mentions(g));
        }
    }
    let f = s.with_fs(at, root);
    assert forall|k: int, g: u64|
        0 <= k < f.mounts.len() && #[trigger] f.mounts[k].mode.mentions(g) implies g
        < f.next_group by {
        if k < n {
            assert(s.mounts[k].mode.mentions(g));
        }
    }
    // A mount whose mode changes.
    assert forall|g: u64| #[trigger] s.mode(m as int).mentions(g) implies g < s.next_group by {
        assert(s.mounts[m as int].mode.mentions(g));
    }
    if s.mode(m as int).spec_peer_group() is None {
        assert forall|g: u64| #[trigger] s.shared_mode(m).mentions(g) implies g < c.next_group by {
            if g != s.next_group {
                assert(s.mode(m as int).mentions(g));
            }
        }
        lemma_move_stays_counted(c, m, s.shared_mode(m));
    }
    if let Some(p) = s.mode(m as int).spec_peer_group() {
        assert(s.mode(m as int).mentions(p));
        lemma_move_stays_counted(s, m, PropagationMode::Slave { master_group: p });
    }
    lemma_move_stays_counted(s, m, PropagationMode::Private);
    // A bind.
    if s.mounted_at(at) is None {
        let (mode, takes) = s.bind_mode(at, source);
        let counted = s.group_counted(takes);
        assert(counted.groups_counted());
        let from = s.mounts[source.mountpoint as int];
        let x = Mount {
            root: source.entry,
            location: Some(at),
            children: no_children(),
            device: from.device,
            id: s.next_id,
            mode: PropagationMode::Private,
            read_only: from.read_only,
            flags: from.flags,
            alive: true,
        };
        let plain = (Mounts { next_id: s.next_id.wrapping_add(1), ..counted }).with_new(x);
        assert(plain.groups_counted()) by {
            assert forall|k: int, g: u64|
                0 <= k < plain.mounts.len() && #[trigger] plain.mounts[k].mode.mentions(g) implies g
                < plain.next_group by {
                if k < n {
                    assert(counted.mounts[k].mode.mentions(g));
                }
            }
        }
        assert forall|g: u64| #[trigger] mode.mentions(g) implies g < plain.next_group by {
            if !(takes && g == s.next_group) {
                assert(s.mounts[source.mountpoint as int].mode.mentions(g));
            }
        }
        lemma_move_stays_counted(plain, n, mode);
        let moved = plain.mode_changed(n, mode);
        let t = s.spread_bind(at, source).0;
        assert(t == moved.with_child(at.mountpoint as int, key_of(s.entries, at.entry as int), n));
        lemma_child_stays_counted(moved, t);
    }
    // A move.
    assert(s.mount_wf(source.mountpoint as int));
    if s.with_move(source, at).0 is Ok {
        let hung = s.with_mount_at(source.mountpoint, at);
        assert(hung.mounts.len() == s.mounts.len());
        lemma_child_stays_counted(s, hung);
        let (mode, takes) = hung.moved_mode(source.mountpoint, at);
        let h = hung.group_counted(takes);
        assert(h.groups_counted()) by {
            assert forall|k: int, g: u64|
                0 <= k < h.mounts.len() && #[trigger] h.mounts[k].mode.mentions(g) implies g
                < h.next_group by {
                assert(hung.mounts[k].mode.mentions(g));
            }
        }
        assert forall|g: u64| #[trigger] mode.mentions(g) implies g < h.next_group by {
            if !takes {
                assert(hung.mounts[source.mountpoint as int].mode.mentions(g));
            }
        }
        lemma_move_stays_counted(h, source.mountpoint, mode);
    }
    // A mount that leaves.
    let u = s.unregistered(source.mountpoint, s.mounts[source.mountpoint as int].mode);
    lemma_unregistered(s, source.mountpoint, s.mounts[source.mountpoint as int].mode, 0);
    assert(u.groups_counted());
    if s.unmounted(source).0 is Ok {
        lemma_child_stays_counted(u, s.unmounted(source).1);
    }
}

/// What hangs from a mount does not matter for its groups.
proof fn lemma_child_stays_counted(s: Mounts, t: Mounts)
    requires
        s.groups_counted(),
        t.mounts.len() == s.mounts.len(),
        t.groups == s.groups,
        t.next_group == s.next_group,
        forall|k: int|
            0 <= k < s.mounts.len() ==> (#[trigger] t.mounts[k]).mode == s.mounts[k].mode,
    ensures
        t.groups_counted(),
{
    assert forall|k: int, g: u64|
        0 <= k < t.mounts.len() && #[trigger] t.mounts[k].mode.mentions(g) implies g
        < t.next_group by {
        assert(t.mounts[k].mode == s.mounts[k].mode);
        assert(s.mounts[k].mode.mentions(g));
    }
}

/// Two entries are related if they are one, stand for the same node, or one lies
/// above the other; which is named first does not matter.
pub proof fn lemma_related(s: Mounts, a: usize, b: usize)
    ensures
        s.related(a, b) == s.related(b, a),
        s.related(a, a),
        is_above(s.entries, a as int, b as int) ==> s.related(a, b) && s.related(b, a),
        s.entries[a as int].inode == s.entries[b as int].inode && s.entries[a as int].fs
            == s.entries[b as int].fs ==> s.related(a, b),
        s.related(a, b) ==> a == b || is_above(s.entries, a as int, b as int) || is_above(
            s.entries,
            b as int,
            a as int,
        ) || (s.entries[a as int].inode == s.entries[b as int].inode && s.entries[a as int].fs
            == s.entries[b as int].fs),
{
}

/// The mount that another hangs from lies above it, and so does whatever lies above
/// that one, as far as there are mounts.
pub proof fn lemma_mounts_above(s: Mounts, m: usize, n: nat)
    requires
        s.mounts.len() > 0,
    ensures
        s.mounts[m as int].location matches Some(l) ==> (l.mountpoint != m ==> s.mount_above(
            l.mountpoint,
            m,
        )) && s.up(m, n + 1) == s.up(l.mountpoint, n),
        s.mounts[m as int].location is None ==> forall|a: usize| !#[trigger] s.mount_above(a, m),
{
    if let Some(l) = s.mounts[m as int].location {
        assert(s.up(l.mountpoint, 0) == Some(l.mountpoint));
        assert(s.up(m, 1) == s.up(l.mountpoint, 0));
    } else {
        assert forall|a: usize| !#[trigger] s.mount_above(a, m) by {
            if s.mount_above(a, m) {
                let k = choose|k: nat|
                    1 <= k <= s.mounts.len() && #[trigger] s.up(m, k) == Some(a);
                assert(s.up(m, k) is None);
            }
        }
    }
}

} // verus!
