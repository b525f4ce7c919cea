//! Mounting, binding, moving and unmounting.
use vstd::prelude::*;

use crate::error::AxError;

use super::entry::{is_above, key_of};
use super::maps::{child_map, no_children, ChildMap, EntryKey};
use super::mount::{lemma_moved_to, Location, Mount, MountTable, Mountpoint, Mounts};
use super::propagation::PropagationMode;

verus! {

pub type VfsError = AxError;

pub type VfsResult<T> = Result<T, AxError>;

impl Mounts {
    /// With one more mount.
    pub open spec fn with_new(self, x: Mount) -> Self {
        Mounts { mounts: self.mounts.push(x), ..self }
    }

    /// With mount `c` on the directory with key `k` of mount `m`.
    pub open spec fn with_child(self, m: int, k: EntryKey, c: usize) -> Self {
        self.with_mount(
            m,
            Mount { children: self.mounts[m].children.insert(k, c), ..self.mounts[m] },
        )
    }

    /// Without a mount on the directory with key `k` of mount `m`.
    pub open spec fn without_child(self, m: int, k: EntryKey) -> Self {
        self.with_mount(
            m,
            Mount { children: self.mounts[m].children.remove(k), ..self.mounts[m] },
        )
    }

    /// The place that the next mount gets.
    pub open spec fn next_mount(self) -> usize {
        self.mounts.len() as usize
    }

    /// Whether two entries are the same or one is above the other.
    pub open spec fn related(self, a: usize, b: usize) -> bool {
        ||| a == b
        ||| key_of(self.entries, a as int) == key_of(self.entries, b as int)
        ||| is_above(self.entries, a as int, b as int)
        ||| is_above(self.entries, b as int, a as int)
    }

    /// The mode that a bind takes from its source: that of the source's mount,
    /// unless a directory of it is bound and the mount is not shared, or the
    /// two places are related.
    pub open spec fn source_mode(self, at: Location, source: Location) -> PropagationMode {
        let mode = self.mode(source.mountpoint as int);
        if self.at_root(source) || (mode.spec_peer_group() is Some && !self.related(
            at.entry,
            source.entry,
        )) {
            mode
        } else {
            PropagationMode::Private
        }
    }

    /// The mode of a bind of `source` at `at`, and whether it is in a new group:
    /// below a shared mount, a bind is shared.
    pub open spec fn bind_mode(self, at: Location, source: Location) -> (PropagationMode, bool) {
        let shared = self.mode(at.mountpoint as int).spec_peer_group() is Some;
        match self.source_mode(at, source) {
            PropagationMode::Slave { master_group } => if shared {
                (
                    PropagationMode::SharedAndSlave { peer_group: self.next_group, master_group },
                    true,
                )
            } else {
                (PropagationMode::Slave { master_group }, false)
            },
            PropagationMode::Private => if shared {
                (PropagationMode::Shared { peer_group: self.next_group }, true)
            } else {
                (PropagationMode::Private, false)
            },
            PropagationMode::Unbindable => if shared {
                (PropagationMode::Shared { peer_group: self.next_group }, true)
            } else {
                (PropagationMode::Unbindable, false)
            },
            mode => (mode, false),
        }
    }

    /// With the group counted that a bind takes.
    pub open spec fn group_counted(self, takes: bool) -> Self {
        if takes {
            self.next_group_taken()
        } else {
            self
        }
    }

    /// With a bind of `source` at `at`, in the given mode.
    pub open spec fn with_bind(self, at: Location, source: Location, mode: PropagationMode) -> Self {
        let n = self.next_mount();
        let from = self.mounts[source.mountpoint as int];
        (Mounts { next_id: self.next_id.wrapping_add(1), ..self }).with_new(
            Mount {
                root: source.entry,
                location: Some(at),
                children: no_children(),
                device: from.device,
                id: self.next_id,
                mode: PropagationMode::Private,
                read_only: from.read_only,
                flags: from.flags,
                alive: true,
            },
        ).mode_changed(n, mode).with_child(
            at.mountpoint as int,
            key_of(self.entries, at.entry as int),
            n,
        )
    }

    /// With a file system whose root is `root` mounted at `at`. Below a shared
    /// mount it is shared, in a new group.
    pub open spec fn with_fs(self, at: Location, root: usize) -> Self {
        let n = self.next_mount();
        let plain = (Mounts {
            next_id: self.next_id.wrapping_add(1),
            next_device: self.next_device.wrapping_add(1),
            ..self
        }).with_new(
            Mount {
                root,
                location: Some(at),
                children: no_children(),
                device: self.next_device,
                id: self.next_id,
                mode: PropagationMode::Private,
                read_only: false,
                flags: 0,
                alive: true,
            },
        );
        (if self.mode(at.mountpoint as int).spec_peer_group() is Some {
            plain.next_group_taken().with_mode(
                n as int,
                PropagationMode::Shared { peer_group: self.next_group },
            ).joined(self.next_group, n)
        } else {
            plain
        }).with_child(at.mountpoint as int, key_of(self.entries, at.entry as int), n)
    }

    /// The live mount at `at`.
    pub open spec fn mounted_at(self, at: Location) -> Option<usize> {
        self.child_at(at.mountpoint as int, key_of(self.entries, at.entry as int))
    }

    /// What unmounting `l` leads to.
    pub open spec fn unmounted(self, l: Location) -> (VfsResult<()>, Mounts) {
        let mount = self.mounts[l.mountpoint as int];
        if !self.at_root(l) {
            (Err(AxError::InvalidInput), self)
        } else if mount.children != no_children() {
            (Err(AxError::ResourceBusy), self)
        } else {
            let t = self.unregistered(l.mountpoint, mount.mode);
            if !self.entries[l.entry as int].is_dir {
                (Err(AxError::NotADirectory), t)
            } else {
                (
                    Ok(()),
                    match mount.location {
                        Some(p) => t.without_child(
                            p.mountpoint as int,
                            key_of(self.entries, p.entry as int),
                        ),
                        None => t,
                    },
                )
            }
        }
    }

    /// The mode of a mount that has moved to `to`, and whether it is in a new
    /// group.
    pub open spec fn moved_mode(self, m: usize, to: Location) -> (PropagationMode, bool) {
        let mode = self.mode(m as int);
        if mode.spec_peer_group() is None && self.mode(
            to.mountpoint as int,
        ).spec_peer_group() is Some {
            (PropagationMode::Shared { peer_group: self.next_group }, true)
        } else {
            (mode, false)
        }
    }

    /// With mount `m` hung from `to`.
    pub open spec fn with_mount_at(self, m: usize, to: Location) -> Self {
        let detached = match self.mounts[m as int].location {
            Some(p) => self.without_child(p.mountpoint as int, key_of(self.entries, p.entry as int)),
            None => self,
        };
        detached.with_mount(
            m as int,
            Mount { location: Some(to), ..detached.mounts[m as int] },
        ).with_child(to.mountpoint as int, key_of(self.entries, to.entry as int), m)
    }

    /// What moving the mount at `l` to `to` leads to.
    pub open spec fn with_move(self, l: Location, to: Location) -> (VfsResult<usize>, Mounts) {
        if !self.at_root(l) {
            (Err(AxError::InvalidInput), self)
        } else if !self.entries[to.entry as int].is_dir {
            (Err(AxError::NotADirectory), self)
        } else if self.mounted_at(to) is Some {
            (Err(AxError::ResourceBusy), self)
        } else {
            let hung = self.with_mount_at(l.mountpoint, to);
            let (mode, takes) = hung.moved_mode(l.mountpoint, to);
            (Ok(l.mountpoint), hung.group_counted(takes).mode_changed(l.mountpoint, mode))
        }
    }
}

/// A table stays well formed where mounts keep their modes and lives, and what
/// they refer to is there.
pub(crate) proof fn lemma_same_groups_wf(s: Mounts, t: Mounts)
    requires
        s.wf(),
        t.entries == s.entries,
        t.groups == s.groups,
        t.mounts.len() >= s.mounts.len(),
        forall|m: int|
            0 <= m < s.mounts.len() ==> (#[trigger] t.mounts[m]).mode == s.mounts[m].mode
                && t.mounts[m].alive == s.mounts[m].alive,
        forall|m: int| 0 <= m < t.mounts.len() ==> #[trigger] t.mount_wf(m),
    ensures
        t.wf(),
{
    assert forall|g: u64| #[trigger] t.group_wf(g) by {
        assert(s.group_wf(g));
        assert(t.group(g) == s.group(g));
        let l = t.group(g);
        assert forall|i: int| 0 <= i < l.len() implies (#[trigger] l[i]) < t.mounts.len() && (
        t.mounts[l[i] as int].alive ==> t.mounts[l[i] as int].mode.mentions(g)) by {
            assert(s.group(g)[i] == l[i]);
            assert(t.mounts[l[i] as int].mode == s.mounts[l[i] as int].mode);
        }
    }
}

pub(crate) proof fn lemma_with_new_wf(s: Mounts, x: Mount)
    requires
        s.wf(),
        x.root < s.entries.len(),
        x.location matches Some(l) ==> s.location_wf(l),
        x.children == no_children(),
    ensures
        s.with_new(x).wf(),
{
    let t = s.with_new(x);
    assert forall|m: int| 0 <= m < t.mounts.len() implies #[trigger] t.mount_wf(m) by {
        if m < s.mounts.len() {
            assert(s.mount_wf(m));
        }
    }
    lemma_same_groups_wf(s, t);
}

pub(crate) proof fn lemma_with_child_wf(s: Mounts, p: int, k: EntryKey, c: usize)
    requires
        s.wf(),
        0 <= p < s.mounts.len(),
        c < s.mounts.len(),
    ensures
        s.with_child(p, k, c).wf(),
{
    let t = s.with_child(p, k, c);
    assert forall|m: int| 0 <= m < t.mounts.len() implies #[trigger] t.mount_wf(m) by {
        assert(s.mount_wf(m));
    }
    lemma_same_groups_wf(s, t);
}

pub(crate) proof fn lemma_without_child_wf(s: Mounts, p: int, k: EntryKey)
    requires
        s.wf(),
        0 <= p < s.mounts.len(),
    ensures
        s.without_child(p, k).wf(),
{
    let t = s.without_child(p, k);
    assert forall|m: int| 0 <= m < t.mounts.len() implies #[trigger] t.mount_wf(m) by {
        assert(s.mount_wf(m));
    }
    lemma_same_groups_wf(s, t);
}

impl MountTable {
    fn put_child(&mut self, m: usize, key: EntryKey, c: usize)
        requires
            old(self)@.wf(),
            m < old(self)@.mounts.len(),
            c < old(self)@.mounts.len(),
        ensures
            final(self)@ == old(self)@.with_child(m as int, key, c),
            final(self)@.wf(),
    {
        proof {
            self.lemma_parts();
            lemma_with_child_wf(self@, m as int, key, c);
        }
        self.mounts[m].children.insert(key, c);
        proof {
            self.lemma_parts();
            assert(self@.mounts =~= old(self)@.with_child(m as int, key, c).mounts);
        }
    }

    fn drop_child(&mut self, m: usize, key: EntryKey)
        requires
            old(self)@.wf(),
            m < old(self)@.mounts.len(),
        ensures
            final(self)@ == old(self)@.without_child(m as int, key),
            final(self)@.wf(),
    {
        proof {
            self.lemma_parts();
            lemma_without_child_wf(self@, m as int, key);
        }
        self.mounts[m].children.remove(key);
        proof {
            self.lemma_parts();
            assert(self@.mounts =~= old(self)@.without_child(m as int, key).mounts);
        }
    }

    fn push_mount(&mut self, mount: Mountpoint) -> (r: usize)
        requires
            old(self)@.wf(),
            mount.root < old(self)@.entries.len(),
            mount.location matches Some(l) ==> old(self)@.location_wf(l),
            child_map(mount.children) == no_children(),
        ensures
            r == old(self)@.next_mount(),
            r == old(self)@.mounts.len(),
            final(self)@ == old(self)@.with_new(mount@),
            final(self)@.wf(),
    {
        let n: usize = self.mounts.len();
        proof {
            self.lemma_parts();
            mount.lemma_view();
            lemma_with_new_wf(self@, mount@);
        }
        self.mounts.push(mount);
        proof {
            self.lemma_parts();
            mount.lemma_view();
            assert(self@.mounts =~= old(self)@.with_new(mount@).mounts);
        }
        n
    }

    /// A mount that hangs nowhere, of the file system whose root is `root`.
    pub fn new_root(&mut self, root: usize) -> (r: usize)
        requires
            old(self)@.wf(),
            root < old(self)@.entries.len(),
        ensures
            r == old(self)@.next_mount(),
            final(self)@ == (Mounts {
                next_id: old(self)@.next_id.wrapping_add(1),
                next_device: old(self)@.next_device.wrapping_add(1),
                ..old(self)@
            }).with_new(
                Mount {
                    root,
                    location: None,
                    children: no_children(),
                    device: old(self)@.next_device,
                    id: old(self)@.next_id,
                    mode: PropagationMode::Private,
                    read_only: false,
                    flags: 0,
                    alive: true,
                },
            ),
            final(self)@.wf(),
    {
        self.new_mount(root, None)
    }

    fn new_mount(&mut self, root: usize, location: Option<Location>) -> (r: usize)
        requires
            old(self)@.wf(),
            root < old(self)@.entries.len(),
            location matches Some(l) ==> old(self)@.location_wf(l),
        ensures
            r == old(self)@.next_mount(),
            r == old(self)@.mounts.len(),
            final(self)@ == (Mounts {
                next_id: old(self)@.next_id.wrapping_add(1),
                next_device: old(self)@.next_device.wrapping_add(1),
                ..old(self)@
            }).with_new(
                Mount {
                    root,
                    location,
                    children: no_children(),
                    device: old(self)@.next_device,
                    id: old(self)@.next_id,
                    mode: PropagationMode::Private,
                    read_only: false,
                    flags: 0,
                    alive: true,
                },
            ),
            final(self)@.wf(),
    {
        let device: u64 = self.next_device;
        let id: u64 = self.next_id;
        let mount = Mountpoint {
            root,
            location,
            children: ChildMap::new(),
            device,
            id,
            propagation: PropagationMode::Private,
            read_only: false,
            flags: 0,
            alive: true,
        };
        proof {
            self.lemma_parts();
            mount.lemma_view();
        }
        let n: usize = self.push_mount(mount);
        proof {
            self.lemma_parts();
        }
        self.next_device = device.wrapping_add(1);
        self.next_id = id.wrapping_add(1);
        proof {
            self.lemma_parts();
            let t = (Mounts {
                next_id: old(self)@.next_id.wrapping_add(1),
                next_device: old(self)@.next_device.wrapping_add(1),
                ..old(self)@
            }).with_new(mount@);
            assert(self@.mounts =~= t.mounts);
            assert(self@ == t);
            let plain = old(self)@.with_new(mount@);
            assert forall|m: int| 0 <= m < t.mounts.len() implies #[trigger] t.mount_wf(m) by {
                assert(plain.mount_wf(m));
            }
            lemma_same_groups_wf(plain, t);
        }
        n
    }

    fn entry_related(&self, a: usize, b: usize) -> (r: bool)
        requires
            self@.wf(),
            a < self@.entries.len(),
            b < self@.entries.len(),
        ensures
            r == self@.related(a, b),
    {
        proof {
            self.lemma_parts();
        }
        let ka: EntryKey = self.entries.key(a);
        let kb: EntryKey = self.entries.key(b);
        a == b || (ka.0 == kb.0 && ka.1 == kb.1) || self.entries.is_ancestor_of(a, b)
            || self.entries.is_ancestor_of(b, a)
    }

    /// The mode of a bind, with the group counted that it takes.
    fn pick_bind_mode(&mut self, at: Location, source: Location) -> (r: PropagationMode)
        requires
            old(self)@.wf(),
            old(self)@.location_wf(at),
            old(self)@.location_wf(source),
        ensures
            r == old(self)@.bind_mode(at, source).0,
            final(self)@ == old(self)@.group_counted(old(self)@.bind_mode(at, source).1),
            final(self)@.wf(),
    {
        let mode: PropagationMode = self.propagation(source.mountpoint);
        let source_mode: PropagationMode = if self.is_root_of_mount(source) {
            mode
        } else if mode.is_shared() && !self.entry_related(at.entry, source.entry) {
            mode
        } else {
            PropagationMode::Private
        };
        let shared: bool = self.propagation(at.mountpoint).is_shared();
        match source_mode {
            PropagationMode::Slave { master_group } => {
                if shared {
                    let peer_group: u64 = self.take_group();
                    PropagationMode::SharedAndSlave { peer_group, master_group }
                } else {
                    source_mode
                }
            },
            PropagationMode::Private | PropagationMode::Unbindable => {
                if shared {
                    let peer_group: u64 = self.take_group();
                    PropagationMode::Shared { peer_group }
                } else {
                    source_mode
                }
            },
            _ => source_mode,
        }
    }

    /// Hangs a new mount of `source` from `at`.
    fn hang_bind(&mut self, at: Location, source: Location, mode: PropagationMode) -> (r: usize)
        requires
            old(self)@.wf(),
            old(self)@.location_wf(at),
            old(self)@.location_wf(source),
        ensures
            r == old(self)@.next_mount(),
            final(self)@ == old(self)@.with_bind(at, source, mode),
            final(self)@.wf(),
            final(self)@.mounts.len() == old(self)@.mounts.len() + 1,
            final(self)@.is_alive(r as int),
    {
        proof {
            self.lemma_parts();
        }
        let id: u64 = self.next_id;
        let mount = Mountpoint {
            root: source.entry,
            location: Some(at),
            children: ChildMap::new(),
            device: self.mounts[source.mountpoint].device,
            id,
            propagation: PropagationMode::Private,
            read_only: self.mounts[source.mountpoint].read_only,
            flags: self.mounts[source.mountpoint].flags,
            alive: true,
        };
        proof {
            mount.lemma_view();
        }
        let key: EntryKey = self.entries.key(at.entry);
        let n: usize = self.push_mount(mount);
        proof {
            self.lemma_parts();
        }
        self.next_id = id.wrapping_add(1);
        let ghost plain = old(self)@.with_new(mount@);
        let ghost t = (Mounts {
            next_id: old(self)@.next_id.wrapping_add(1),
            ..old(self)@
        }).with_new(mount@);
        proof {
            self.lemma_parts();
            assert(self@.mounts =~= t.mounts);
            assert(self@ == t);
            assert forall|m: int| 0 <= m < t.mounts.len() implies #[trigger] t.mount_wf(m) by {
                assert(plain.mount_wf(m));
            }
            lemma_same_groups_wf(plain, t);
            lemma_moved_to(t, n, mode);
        }
        self.change_propagation(n, mode);
        self.put_child(at.mountpoint, key, n);
        n
    }

    /// Mounts the file system whose root is `root` at `at`.
    pub fn mount(&mut self, at: Location, root: usize) -> (r: VfsResult<usize>)
        requires
            old(self)@.wf(),
            old(self)@.location_wf(at),
            root < old(self)@.entries.len(),
        ensures
            final(self)@.wf(),
            (r, final(self)@) == if !old(self)@.entries[at.entry as int].is_dir {
                (Err(AxError::NotADirectory), old(self)@)
            } else if old(self)@.mounted_at(at) is Some {
                (Err(AxError::ResourceBusy), old(self)@)
            } else {
                (Ok(old(self)@.next_mount()), old(self)@.with_fs(at, root))
            },
            r matches Ok(n) ==> {
                let above = old(self)@.mounts[at.mountpoint as int].mode;
                let mode = final(self)@.mounts[n as int].mode;
                if above is Shared || above is SharedAndSlave {
                    &&& mode == (PropagationMode::Shared { peer_group: old(self)@.next_group })
                    &&& final(self)@.group(old(self)@.next_group).contains(n)
                } else {
                    &&& mode == PropagationMode::Private
                    &&& final(self)@.groups == old(self)@.groups
                }
            },
    {
        proof {
            self.lemma_parts();
        }
        if !self.entries.get(at.entry).is_dir {
            return Err(AxError::NotADirectory);
        }
        let key: EntryKey = self.entries.key(at.entry);
        if self.child_at(at.mountpoint, key).is_some() {
            return Err(AxError::ResourceBusy);
        }
        let shared: bool = self.propagation(at.mountpoint).is_shared();
        let n: usize = self.new_mount(root, Some(at));
        if shared {
            let ghost plain = self@;
            let peer_group: u64 = self.take_group();
            proof {
                lemma_new_member(self@, n, peer_group);
            }
            self.join_new_group(n, peer_group);
        }
        self.put_child(at.mountpoint, key, n);
        proof {
            let g = old(self)@.next_group;
            if old(self)@.mode(at.mountpoint as int).spec_peer_group() is Some
                && !old(self)@.group(g).contains(n) {
                let l = old(self)@.group(g);
                assert(l.push(n)[l.len() as int] == n);
            }
        }
        Ok(n)
    }

    fn join_new_group(&mut self, n: usize, peer_group: u64)
        requires
            old(self)@.wf(),
            old(self)@.is_alive(n as int),
            old(self)@.mode(n as int) == PropagationMode::Private,
        ensures
            final(self)@ == old(self)@.with_mode(
                n as int,
                PropagationMode::Shared { peer_group },
            ).joined(peer_group, n),
            final(self)@.wf(),
    {
        proof {
            lemma_new_member(self@, n, peer_group);
        }
        self.change_propagation(n, PropagationMode::Shared { peer_group });
    }

    /// Binds `source` at `at`.
    pub fn mount_bind(&mut self, at: Location, source: Location) -> (r: VfsResult<usize>)
        requires
            old(self)@.wf(),
            old(self)@.location_wf(at),
            old(self)@.location_wf(source),
        ensures
            final(self)@.wf(),
            ({
                let s = old(self)@;
                let (mode, takes) = s.bind_mode(at, source);
                (r, final(self)@) == if s.mode(source.mountpoint as int)
                    == PropagationMode::Unbindable {
                    (Err(AxError::PermissionDenied), s)
                } else if !s.entries[at.entry as int].is_dir {
                    (Err(AxError::NotADirectory), s)
                } else if s.mounted_at(at) is Some {
                    (Err(AxError::ResourceBusy), s.group_counted(takes))
                } else {
                    (Ok(s.next_mount()), s.group_counted(takes).with_bind(at, source, mode))
                }
            }),
    {
        if self.propagation(source.mountpoint) == PropagationMode::Unbindable {
            return Err(AxError::PermissionDenied);
        }
        proof {
            self.lemma_parts();
        }
        if !self.entries.get(at.entry).is_dir {
            return Err(AxError::NotADirectory);
        }
        let key: EntryKey = self.entries.key(at.entry);
        let busy: bool = self.child_at(at.mountpoint, key).is_some();
        let mode: PropagationMode = self.pick_bind_mode(at, source);
        if busy {
            return Err(AxError::ResourceBusy);
        }
        Ok(self.hang_bind(at, source, mode))
    }

    /// Binds `source` at `at` for a mount that spreads: what is mounted there
    /// already will do.
    pub(crate) fn mount_bind_silent(&mut self, at: Location, source: Location) -> (r: usize)
        requires
            old(self)@.wf(),
            old(self)@.location_wf(at),
            old(self)@.location_wf(source),
        ensures
            final(self)@.wf(),
            (final(self)@, r) == old(self)@.spread_bind(at, source),
            final(self)@.is_alive(r as int),
    {
        proof {
            self.lemma_parts();
        }
        let key: EntryKey = self.entries.key(at.entry);
        match self.child_at(at.mountpoint, key) {
            Some(c) => c,
            None => {
                let mode: PropagationMode = self.pick_bind_mode(at, source);
                self.hang_bind(at, source, mode)
            },
        }
    }

    /// Takes the mount whose root is `l` out of the tree.
    pub fn unmount(&mut self, l: Location) -> (r: VfsResult<()>)
        requires
            old(self)@.wf(),
            old(self)@.location_wf(l),
        ensures
            final(self)@.wf(),
            (r, final(self)@) == old(self)@.unmounted(l),
    {
        if !self.is_root_of_mount(l) {
            return Err(AxError::InvalidInput);
        }
        proof {
            self.lemma_parts();
            assert(self@.mounts[l.mountpoint as int].children == child_map(
                self.mounts@[l.mountpoint as int].children,
            ));
            assert(self@.mount_wf(l.mountpoint as int));
        }
        if !self.mounts[l.mountpoint].children.is_empty() {
            return Err(AxError::ResourceBusy);
        }
        let mode: PropagationMode = self.propagation(l.mountpoint);
        let is_dir: bool = self.entries.get(l.entry).is_dir;
        proof {
            super::mount::lemma_unregistered_wf(self@, l.mountpoint, mode);
        }
        self.remove_from_registry(l.mountpoint, mode);
        if !is_dir {
            return Err(AxError::NotADirectory);
        }
        match self.location(l.mountpoint) {
            Some(p) => {
                proof {
                    self.lemma_parts();
                }
                let key: EntryKey = self.entries.key(p.entry);
                self.drop_child(p.mountpoint, key);
            },
            None => {},
        }
        Ok(())
    }

    fn hang(&mut self, m: usize, to: Location)
        requires
            old(self)@.wf(),
            m < old(self)@.mounts.len(),
            old(self)@.location_wf(to),
        ensures
            final(self)@ == old(self)@.with_mount_at(m, to),
            final(self)@.wf(),
            final(self)@.mode(m as int) == old(self)@.mode(m as int),
            final(self)@.mounts.len() == old(self)@.mounts.len(),
            final(self)@.mounts[m as int].alive == old(self)@.mounts[m as int].alive,
    {
        proof {
            self.lemma_parts();
            assert(self@.mount_wf(m as int));
        }
        match self.location(m) {
            Some(p) => {
                let key: EntryKey = self.entries.key(p.entry);
                self.drop_child(p.mountpoint, key);
            },
            None => {},
        }
        let ghost detached = self@;
        proof {
            self.lemma_parts();
        }
        self.mounts[m].location = Some(to);
        proof {
            self.lemma_parts();
            let t = detached.with_mount(
                m as int,
                Mount { location: Some(to), ..detached.mounts[m as int] },
            );
            assert(self@.mounts =~= t.mounts);
            assert forall|k: int| 0 <= k < t.mounts.len() implies #[trigger] t.mount_wf(k) by {
                assert(detached.mount_wf(k));
            }
            lemma_same_groups_wf(detached, t);
        }
        let key: EntryKey = self.entries.key(to.entry);
        self.put_child(to.mountpoint, key, m);
    }

    /// Moves the mount whose root is `l` to `to`.
    pub fn move_mount(&mut self, l: Location, to: Location) -> (r: VfsResult<usize>)
        requires
            old(self)@.wf(),
            old(self)@.location_wf(l),
            old(self)@.location_wf(to),
            old(self)@.is_alive(l.mountpoint as int),
        ensures
            final(self)@.wf(),
            (r, final(self)@) == old(self)@.with_move(l, to),
    {
        if !self.is_root_of_mount(l) {
            return Err(AxError::InvalidInput);
        }
        proof {
            self.lemma_parts();
        }
        if !self.entries.get(to.entry).is_dir {
            return Err(AxError::NotADirectory);
        }
        let key: EntryKey = self.entries.key(to.entry);
        if self.child_at(to.mountpoint, key).is_some() {
            return Err(AxError::ResourceBusy);
        }
        self.hang(l.mountpoint, to);
        let mode: PropagationMode = self.propagation(l.mountpoint);
        if !mode.is_shared() && self.propagation(to.mountpoint).is_shared() {
            let peer_group: u64 = self.take_group();
            self.change_propagation(l.mountpoint, PropagationMode::Shared { peer_group });
        }
        Ok(l.mountpoint)
    }

    pub fn set_readonly(&mut self, m: usize, read_only: bool)
        requires
            old(self)@.wf(),
            m < old(self)@.mounts.len(),
        ensures
            final(self)@ == old(self)@.with_mount(
                m as int,
                Mount { read_only, ..old(self)@.mounts[m as int] },
            ),
            final(self)@.wf(),
    {
        proof {
            self.lemma_parts();
        }
        self.mounts[m].read_only = read_only;
        proof {
            self.lemma_parts();
            let t = old(self)@.with_mount(
                m as int,
                Mount { read_only, ..old(self)@.mounts[m as int] },
            );
            assert(self@.mounts =~= t.mounts);
            assert forall|k: int| 0 <= k < t.mounts.len() implies #[trigger] t.mount_wf(k) by {
                assert(old(self)@.mount_wf(k));
            }
            lemma_same_groups_wf(old(self)@, t);
        }
    }

    pub fn set_flags(&mut self, m: usize, flags: usize)
        requires
            old(self)@.wf(),
            m < old(self)@.mounts.len(),
        ensures
            final(self)@ == old(self)@.with_mount(
                m as int,
                Mount { flags, ..old(self)@.mounts[m as int] },
            ),
            final(self)@.wf(),
    {
        proof {
            self.lemma_parts();
        }
        self.mounts[m].flags = flags;
        proof {
            self.lemma_parts();
            let t = old(self)@.with_mount(m as int, Mount { flags, ..old(self)@.mounts[m as int] });
            assert(self@.mounts =~= t.mounts);
            assert forall|k: int| 0 <= k < t.mounts.len() implies #[trigger] t.mount_wf(k) by {
                assert(old(self)@.mount_wf(k));
            }
            lemma_same_groups_wf(old(self)@, t);
        }
    }

    /// Records that nothing holds a mount any more.
    pub fn release(&mut self, m: usize)
        requires
            old(self)@.wf(),
            m < old(self)@.mounts.len(),
        ensures
            final(self)@ == old(self)@.with_mount(
                m as int,
                Mount { alive: false, ..old(self)@.mounts[m as int] },
            ),
            final(self)@.wf(),
    {
        proof {
            self.lemma_parts();
        }
        self.mounts[m].alive = false;
        proof {
            self.lemma_parts();
            let s = old(self)@;
            let t = s.with_mount(m as int, Mount { alive: false, ..s.mounts[m as int] });
            assert(self@.mounts =~= t.mounts);
            assert forall|k: int| 0 <= k < t.mounts.len() implies #[trigger] t.mount_wf(k) by {
                assert(s.mount_wf(k));
            }
            assert forall|g: u64| #[trigger] t.group_wf(g) by {
                assert(s.group_wf(g));
                let l = t.group(g);
                assert forall|i: int| 0 <= i < l.len() implies (#[trigger] l[i]) < t.mounts.len()
                    && (t.mounts[l[i] as int].alive ==> t.mounts[l[i] as int].mode.mentions(
                    g,
                )) by {
                    assert(s.group(g)[i] == l[i]);
                }
            }
        }
    }
}

impl Mounts {
    /// The bind of `source` at `at` for a mount that spreads, and the table with
    /// it.
    pub open spec fn spread_bind(self, at: Location, source: Location) -> (Mounts, usize) {
        match self.mounted_at(at) {
            Some(c) => (self, c),
            None => {
                let (mode, takes) = self.bind_mode(at, source);
                (self.group_counted(takes).with_bind(at, source, mode), self.next_mount())
            },
        }
    }
}

/// A mount that was in no group joins one.
proof fn lemma_new_member(s: Mounts, n: usize, g: u64)
    requires
        s.wf(),
        s.is_alive(n as int),
        s.mode(n as int) == PropagationMode::Private,
    ensures
        s.mode_changed(n, PropagationMode::Shared { peer_group: g }) == s.with_mode(
            n as int,
            PropagationMode::Shared { peer_group: g },
        ).joined(g, n),
{
}

/// What was bound or mounted at a place is seen there.
pub proof fn lemma_bind_is_mounted(s: Mounts, at: Location, source: Location)
    requires
        s.wf(),
        s.location_wf(at),
        s.location_wf(source),
        s.mounts.len() < usize::MAX,
    ensures
        s.spread_bind(at, source).0.mounted_at(at) == Some(s.spread_bind(at, source).1),
{
    if s.mounted_at(at) is None {
        let (mode, takes) = s.bind_mode(at, source);
        let c = s.group_counted(takes);
        assert(c.wf()) by {
            assert forall|m: int| 0 <= m < c.mounts.len() implies #[trigger] c.mount_wf(m) by {
                assert(s.mount_wf(m));
            }
            lemma_same_groups_wf(s, c);
        }
        let n = s.next_mount();
        let from = c.mounts[source.mountpoint as int];
        let x = Mount {
            root: source.entry,
            location: Some(at),
            children: no_children(),
            device: from.device,
            id: c.next_id,
            mode: PropagationMode::Private,
            read_only: from.read_only,
            flags: from.flags,
            alive: true,
        };
        let counted = Mounts { next_id: c.next_id.wrapping_add(1), ..c };
        assert(counted.wf()) by {
            assert forall|m: int| 0 <= m < c.mounts.len() implies #[trigger] counted.mount_wf(
                m,
            ) by {
                assert(c.mount_wf(m));
            }
            lemma_same_groups_wf(c, counted);
        }
        lemma_with_new_wf(counted, x);
        lemma_moved_to(counted.with_new(x), n, mode);
    }
}

/// A file system that was mounted on a directory is what is seen there.
pub proof fn lemma_fs_is_mounted(s: Mounts, at: Location, root: usize)
    requires
        s.wf(),
        s.location_wf(at),
        root < s.entries.len(),
        s.mounts.len() < usize::MAX,
    ensures
        ({
            let t = s.with_fs(at, root);
            &&& t.mounted_at(at) == Some(s.next_mount())
            &&& t.resolved(at) == (Location { mountpoint: s.next_mount(), entry: root })
            &&& forall|m: int|
                0 <= m < s.mounts.len() && m != at.mountpoint ==> #[trigger] t.mounts[m]
                    == s.mounts[m]
        }),
{
    let t = s.with_fs(at, root);
    let n = s.next_mount();
    assert(t.mounts[n as int].root == root);
    assert(t.mounts[n as int].children == no_children());
    assert(t.child_at(n as int, t.root_key(n as int)) is None);
    assert(t.topmost(n, seq![n]) == n);
}

/// Unmounting a file system undoes its mounting: the directory is free again,
/// and the other mounts are as they were.
pub proof fn lemma_unmount_undoes_mount(s: Mounts, at: Location, root: usize)
    requires
        s.wf(),
        s.location_wf(at),
        root < s.entries.len(),
        s.entries[root as int].is_dir,
        s.mounts.len() < usize::MAX,
        !s.mounts[at.mountpoint as int].children.contains_key(
            key_of(s.entries, at.entry as int),
        ),
    ensures
        ({
            let t = s.with_fs(at, root);
            let u = t.unmounted(Location { mountpoint: s.next_mount(), entry: root });
            &&& u.0 == Ok::<(), AxError>(())
            &&& u.1.mounted_at(at) is None
            &&& forall|m: int| 0 <= m < s.mounts.len() ==> #[trigger] u.1.mounts[m] == s.mounts[m]
        }),
{
    let t = s.with_fs(at, root);
    let n = s.next_mount();
    let u = t.unmounted(Location { mountpoint: n, entry: root });
    let k = key_of(s.entries, at.entry as int);
    let p = at.mountpoint as int;
    assert(t.mounts[n as int].root == root);
    assert(t.mounts[n as int].children == no_children());
    assert(t.mounts[n as int].location == Some(at));
    assert(t.mounts[p].children == s.mounts[p].children.insert(k, n));
    assert(s.mounts[p].children.insert(k, n).remove(k) =~= s.mounts[p].children);
    assert(u.1.mounts[p].children == s.mounts[p].children);
    assert forall|m: int| 0 <= m < s.mounts.len() implies #[trigger] u.1.mounts[m] == s.mounts[m] by {
        if m != p {
            assert(t.mounts[m] == s.mounts[m]);
        }
    }
}

/// A mount that was moved is found at its new place, and its old place is free.
pub proof fn lemma_moved_mount_is_found(s: Mounts, l: Location, to: Location)
    requires
        s.wf(),
        s.location_wf(l),
        s.location_wf(to),
        s.is_alive(l.mountpoint as int),
        s.with_move(l, to).0 is Ok,
    ensures
        ({
            let t = s.with_move(l, to).1;
            &&& s.with_move(l, to).0 == Ok::<usize, AxError>(l.mountpoint)
            &&& t.mounted_at(to) == Some(l.mountpoint)
            &&& t.mounts[l.mountpoint as int].location == Some(to)
            &&& s.mounts[l.mountpoint as int].location matches Some(p) ==> (p.mountpoint
                != to.mountpoint || key_of(s.entries, p.entry as int) != key_of(
                s.entries,
                to.entry as int,
            )) ==> t.mounted_at(p) is None
        }),
{
    let m = l.mountpoint;
    let before = s.mounts[m as int].location;
    assert(s.mount_wf(m as int));
    let detached = match before {
        Some(p) => s.without_child(p.mountpoint as int, key_of(s.entries, p.entry as int)),
        None => s,
    };
    if let Some(p) = before {
        lemma_without_child_wf(s, p.mountpoint as int, key_of(s.entries, p.entry as int));
    }
    let located = detached.with_mount(
        m as int,
        Mount { location: Some(to), ..detached.mounts[m as int] },
    );
    assert forall|x: int| 0 <= x < located.mounts.len() implies #[trigger] located.mount_wf(x) by {
        assert(detached.mount_wf(x));
    }
    lemma_same_groups_wf(detached, located);
    let hung = s.with_mount_at(m, to);
    lemma_with_child_wf(located, to.mountpoint as int, key_of(s.entries, to.entry as int), m);
    assert(hung == located.with_child(to.mountpoint as int, key_of(s.entries, to.entry as int), m));
    let (mode, takes) = hung.moved_mode(m, to);
    let c = hung.group_counted(takes);
    assert forall|x: int| 0 <= x < c.mounts.len() implies #[trigger] c.mount_wf(x) by {
        assert(hung.mount_wf(x));
    }
    lemma_same_groups_wf(hung, c);
    if c.mode(m as int) != mode {
        lemma_moved_to(c, m, mode);
    }
}

} // verus!
