//! Changes to a mount and everything mounted below it. The order in which the
//! mounts below a mount are visited is left open.
use vstd::prelude::*;

use crate::error::AxError;

use super::entry::key_of;
use super::maps::{child_map, lists_children, no_children, ChildMap, EntryKey};
use super::mount::{lemma_moved_to, lemma_unregistered_wf, Location, Mount, MountTable, Mounts};
use super::mount_ops::{lemma_same_groups_wf, VfsResult};
use super::propagation::PropagationMode;
use super::tree::lemma_distinct_below;

verus! {

/// What to make of a mount.
#[derive(Debug, Clone, Copy, PartialEq, Eq, Structural)]
pub enum PropagationChange {
    Shared,
    Slave,
    Private,
    Unbindable,
}

impl Mounts {
    pub open spec fn changed(self, m: usize, c: PropagationChange) -> Mounts {
        match c {
            PropagationChange::Shared => self.made_shared(m),
            PropagationChange::Slave => self.made_slave(m),
            PropagationChange::Private => self.mode_changed(m, PropagationMode::Private),
            PropagationChange::Unbindable => self.mode_changed(m, PropagationMode::Unbindable),
        }
    }

    /// Without anything on the directories of mount `m`.
    pub open spec fn stripped(self, m: usize) -> Mounts {
        self.with_mount(m as int, Mount { children: no_children(), ..self.mounts[m as int] })
    }
}

impl Mounts {
    /// Whether mounts hang below `m` on at most `depth` levels.
    pub open spec fn nested_within(self, m: usize, depth: nat) -> bool
        decreases depth,
    {
        let children = self.mounts[m as int].children;
        forall|k: EntryKey| #[trigger]
            children.contains_key(k) && self.is_alive(children[k] as int) ==> depth > 0
                && self.nested_within(children[k], (depth - 1) as nat)
    }

    /// Whether mount `c` hangs on mount `m`.
    pub open spec fn hangs_on(self, c: usize, m: usize) -> bool {
        self.is_alive(c as int) && exists|k: EntryKey|
            #[trigger] self.mounts[m as int].children.contains_key(k)
                && self.mounts[m as int].children[k] == c
    }

    /// Whether each mount of `path` but the first hangs on the one before it.
    pub open spec fn is_chain(self, path: Seq<usize>) -> bool {
        forall|i: int| 0 < i < path.len() ==> self.hangs_on(#[trigger] path[i], path[i - 1])
    }
}

/// Tables that differ in modes at most nest alike.
proof fn lemma_nested_alike(s: Mounts, t: Mounts, m: usize, depth: nat)
    requires
        same_tree(s, t),
        s.wf(),
        m < s.mounts.len(),
    ensures
        s.nested_within(m, depth) == t.nested_within(m, depth),
    decreases depth,
{
    let children = s.mounts[m as int].children;
    assert(t.mounts[m as int].children == children);
    assert(s.mount_wf(m as int));
    assert forall|k: EntryKey| #[trigger] children.contains_key(k) implies s.is_alive(
        children[k] as int,
    ) == t.is_alive(children[k] as int) && (depth > 0 ==> s.nested_within(
        children[k],
        (depth - 1) as nat,
    ) == t.nested_within(children[k], (depth - 1) as nat)) by {
        assert(t.mounts[children[k] as int].alive == s.mounts[children[k] as int].alive);
        if depth > 0 {
            lemma_nested_alike(s, t, children[k], (depth - 1) as nat);
        }
    }
}

/// Deep nesting is a long chain.
proof fn lemma_long_chain(s: Mounts, m: usize, depth: nat) -> (path: Seq<usize>)
    requires
        s.wf(),
        m < s.mounts.len(),
        !s.nested_within(m, depth),
    ensures
        path.len() == depth + 2,
        path[0] == m,
        s.is_chain(path),
        forall|i: int| 0 <= i < path.len() ==> (#[trigger] path[i]) < s.mounts.len(),
    decreases depth,
{
    let children = s.mounts[m as int].children;
    assert(s.mount_wf(m as int));
    let k = choose|k: EntryKey| #[trigger]
        children.contains_key(k) && s.is_alive(children[k] as int) && !(depth > 0
            && s.nested_within(children[k], (depth - 1) as nat));
    let c = children[k];
    assert(s.hangs_on(c, m));
    if depth == 0 {
        seq![m, c]
    } else {
        let rest = lemma_long_chain(s, c, (depth - 1) as nat);
        let path = seq![m] + rest;
        assert forall|i: int| 0 < i < path.len() implies s.hangs_on(#[trigger] path[i], path[i - 1]) by {
            if i > 1 {
                assert(s.hangs_on(rest[i - 1], rest[i - 2]));
            }
        }
        path
    }
}

/// Unless some mount hangs below itself, mounts hang on fewer levels than there
/// are mounts, so that everything below a mount is reached.
pub proof fn lemma_mounts_form_a_tree(s: Mounts, m: usize)
    requires
        s.wf(),
        m < s.mounts.len(),
        forall|path: Seq<usize>|
            #[trigger] s.is_chain(path) && path.len() > 1 ==> path.first() != path.last(),
    ensures
        s.nested_within(m, s.mounts.len()),
{
    if !s.nested_within(m, s.mounts.len()) {
        let path = lemma_long_chain(s, m, s.mounts.len());
        if path.no_duplicates() {
            lemma_distinct_below(path, s.mounts.len());
        }
        let (i, j) = choose|i: int, j: int| 0 <= i < j < path.len() && path[i] == path[j];
        let part = path.subrange(i, j + 1);
        assert(s.is_chain(part)) by {
            assert forall|n: int| 0 < n < part.len() implies s.hangs_on(
                #[trigger] part[n],
                part[n - 1],
            ) by {
                assert(s.hangs_on(path[i + n], path[i + n - 1]));
            }
        }
        assert(part.first() == part.last());
    }
}

/// Marks the tables that a walk passes.
pub open spec fn is_step(s: Mounts, ok: bool) -> bool {
    true
}

/// Mount `m` and everything below it is changed.
pub open spec fn all_changed(
    s: Mounts,
    m: usize,
    c: PropagationChange,
    depth: nat,
    t: Mounts,
    ok: bool,
) -> bool
    decreases depth, 2nat, 0nat,
{
    exists|order: Seq<(EntryKey, usize)>|
        #[trigger] lists_children(order, s.changed(m, c).mounts[m as int].children)
            && below_changed(s.changed(m, c), order, order.len(), c, depth, t, ok)
}

/// The first `i` of the mounts of `order` are changed, with everything below
/// them. A mount deeper down than `depth` ends it.
pub open spec fn below_changed(
    s: Mounts,
    order: Seq<(EntryKey, usize)>,
    i: nat,
    c: PropagationChange,
    depth: nat,
    t: Mounts,
    ok: bool,
) -> bool
    decreases depth, 1nat, i,
{
    if i == 0 {
        s == t && ok
    } else {
        let child = order[i - 1].1;
        exists|mid: Mounts, mid_ok: bool|
            #[trigger] is_step(mid, mid_ok) && below_changed(
                s,
                order,
                (i - 1) as nat,
                c,
                depth,
                mid,
                mid_ok,
            ) && if !mid_ok || !mid.is_alive(child as int) {
                t == mid && ok == mid_ok
            } else if depth == 0 {
                t == mid && !ok
            } else {
                all_changed(mid, child, c, (depth - 1) as nat, t, ok)
            }
    }
}

/// Changing a mount moves no mount.
pub(crate) proof fn lemma_changed(s: Mounts, m: usize, c: PropagationChange)
    requires
        s.wf(),
        s.is_alive(m as int),
    ensures
        same_tree(s, s.changed(m, c)),
{
    lemma_moved_to(s, m, PropagationMode::Private);
    lemma_moved_to(s, m, PropagationMode::Unbindable);
    let counted = s.next_group_taken();
    assert(counted.wf()) by {
        assert forall|k: int| 0 <= k < counted.mounts.len() implies #[trigger] counted.mount_wf(
            k,
        ) by {
            assert(s.mount_wf(k));
        }
        lemma_same_groups_wf(s, counted);
    }
    lemma_moved_to(counted, m, s.shared_mode(m));
    if let Some(g) = s.mode(m as int).spec_peer_group() {
        lemma_moved_to(s, m, PropagationMode::Slave { master_group: g });
    }
}

/// Whether two tables differ in modes and groups at most.
pub open spec fn same_tree(s: Mounts, t: Mounts) -> bool {
    &&& t.entries == s.entries
    &&& t.mounts.len() == s.mounts.len()
    &&& forall|m: int|
        0 <= m < s.mounts.len() ==> (#[trigger] t.mounts[m]) == (Mount {
            mode: t.mounts[m].mode,
            ..s.mounts[m]
        })
}

impl MountTable {
    fn change(&mut self, m: usize, c: PropagationChange)
        requires
            old(self)@.wf(),
            old(self)@.is_alive(m as int),
        ensures
            final(self)@ == old(self)@.changed(m, c),
            final(self)@.wf(),
            same_tree(old(self)@, final(self)@),
    {
        proof {
            lemma_changed(self@, m, c);
        }
        match c {
            PropagationChange::Shared => {
                let _ = self.make_shared(m);
            },
            PropagationChange::Slave => {
                self.make_slave(m);
            },
            PropagationChange::Private => {
                self.make_private(m);
            },
            PropagationChange::Unbindable => {
                self.make_unbindable(m);
            },
        }
    }

    fn change_all(&mut self, m: usize, c: PropagationChange, depth: usize) -> (r: bool)
        requires
            old(self)@.wf(),
            old(self)@.is_alive(m as int),
        ensures
            final(self)@.wf(),
            same_tree(old(self)@, final(self)@),
            all_changed(old(self)@, m, c, depth as nat, final(self)@, r),
            r == old(self)@.nested_within(m, depth as nat),
        decreases depth,
    {
        let ghost s0 = self@;
        self.change(m, c);
        let ghost s1 = self@;
        proof {
            self.lemma_parts();
            assert(self@.mounts[m as int].children == child_map(self.mounts@[m as int].children));
            assert(self@.mount_wf(m as int));
        }
        let order: Vec<(EntryKey, usize)> = self.mounts[m].children.list();
        assert forall|k: int| 0 <= k < order@.len() implies (#[trigger] order@[k]).1
            < s1.mounts.len() by {
            assert(s1.mounts[m as int].children.contains_key(order@[k].0));
        }
        let ghost children = s1.mounts[m as int].children;
        let mut ok: bool = true;
        let mut i: usize = 0;
        while i < order.len()
            invariant
                i <= order@.len(),
                s1.wf(),
                self@.wf(),
                same_tree(s1, self@),
                lists_children(order@, children),
                ok == (forall|k: int|
                    0 <= k < i && s1.is_alive((#[trigger] order@[k]).1 as int) ==> depth > 0
                        && s1.nested_within(order@[k].1, (depth - 1) as nat)),
                forall|k: int| 0 <= k < order@.len() ==> (#[trigger] order@[k]).1 < s1.mounts.len(),
                below_changed(s1, order@, i as nat, c, depth as nat, self@, ok),
            decreases order@.len() - i,
        {
            let ghost mid = self@;
            assert(is_step(mid, ok));
            let child: usize = order[i].1;
            assert(order@[i as int].1 < s1.mounts.len());
            proof {
                assert(self@.mounts[child as int].alive == s1.mounts[child as int].alive);
                if depth > 0 {
                    lemma_nested_alike(s1, self@, child, (depth - 1) as nat);
                }
            }
            if ok && self.is_alive(child) {
                if depth == 0 {
                    ok = false;
                } else {
                    ok = self.change_all(child, c, depth - 1);
                }
            }
            i = i + 1;
        }
        proof {
            lemma_nested_alike(s0, s1, m, depth as nat);
            assert forall|k: EntryKey| ok && #[trigger] children.contains_key(k) && s1.is_alive(
                children[k] as int,
            ) implies depth > 0 && s1.nested_within(children[k], (depth - 1) as nat) by {
                let n = choose|n: int| 0 <= n < order@.len() && (#[trigger] order@[n]).0 == k;
                assert(order@[n].1 == children[k]);
            }
            if !ok {
                let n = choose|n: int|
                    0 <= n < order@.len() && s1.is_alive((#[trigger] order@[n]).1 as int) && !(depth
                        > 0 && s1.nested_within(order@[n].1, (depth - 1) as nat));
                assert(children.contains_key(order@[n].0));
            }
        }
        ok
    }

    /// Makes a mount and everything below it shared. False, with a part of that
    /// done, if a mount hangs below itself.
    pub fn make_rshared(&mut self, m: usize) -> (r: bool)
        requires
            old(self)@.wf(),
            old(self)@.is_alive(m as int),
        ensures
            final(self)@.wf(),
            same_tree(old(self)@, final(self)@),
            all_changed(
                old(self)@,
                m,
                PropagationChange::Shared,
                old(self)@.mounts.len(),
                final(self)@,
                r,
            ),
            r == old(self)@.nested_within(m, old(self)@.mounts.len()),
    {
        proof {
            self.lemma_parts();
        }
        let depth: usize = self.mounts.len();
        self.change_all(m, PropagationChange::Shared, depth)
    }

    /// Makes a mount and everything below it a slave.
    pub fn make_rslave(&mut self, m: usize) -> (r: bool)
        requires
            old(self)@.wf(),
            old(self)@.is_alive(m as int),
        ensures
            final(self)@.wf(),
            same_tree(old(self)@, final(self)@),
            all_changed(
                old(self)@,
                m,
                PropagationChange::Slave,
                old(self)@.mounts.len(),
                final(self)@,
                r,
            ),
            r == old(self)@.nested_within(m, old(self)@.mounts.len()),
    {
        proof {
            self.lemma_parts();
        }
        let depth: usize = self.mounts.len();
        self.change_all(m, PropagationChange::Slave, depth)
    }

    /// Makes a mount and everything below it private.
    pub fn make_rprivate(&mut self, m: usize) -> (r: bool)
        requires
            old(self)@.wf(),
            old(self)@.is_alive(m as int),
        ensures
            final(self)@.wf(),
            same_tree(old(self)@, final(self)@),
            all_changed(
                old(self)@,
                m,
                PropagationChange::Private,
                old(self)@.mounts.len(),
                final(self)@,
                r,
            ),
            r == old(self)@.nested_within(m, old(self)@.mounts.len()),
    {
        proof {
            self.lemma_parts();
        }
        let depth: usize = self.mounts.len();
        self.change_all(m, PropagationChange::Private, depth)
    }

    /// Makes a mount and everything below it unbindable.
    pub fn make_runbindable(&mut self, m: usize) -> (r: bool)
        requires
            old(self)@.wf(),
            old(self)@.is_alive(m as int),
        ensures
            final(self)@.wf(),
            same_tree(old(self)@, final(self)@),
            all_changed(
                old(self)@,
                m,
                PropagationChange::Unbindable,
                old(self)@.mounts.len(),
                final(self)@,
                r,
            ),
            r == old(self)@.nested_within(m, old(self)@.mounts.len()),
    {
        proof {
            self.lemma_parts();
        }
        let depth: usize = self.mounts.len();
        self.change_all(m, PropagationChange::Unbindable, depth)
    }
}

/// How many of the mounts of `s` have something mounted on them.
pub open spec fn busy_mounts(s: Seq<Mount>) -> nat
    decreases s.len(),
{
    if s.len() == 0 {
        0
    } else {
        busy_mounts(s.drop_last()) + if s.last().children != no_children() {
            1nat
        } else {
            0
        }
    }
}

proof fn lemma_busy_update(s: Seq<Mount>, m: int, x: Mount)
    requires
        0 <= m < s.len(),
        x.children == no_children() || s[m].children != no_children(),
    ensures
        busy_mounts(s.update(m, x)) <= busy_mounts(s),
        s[m].children != no_children() && x.children == no_children() ==> busy_mounts(
            s.update(m, x),
        ) < busy_mounts(s),
    decreases s.len(),
{
    let t = s.update(m, x);
    if m == s.len() - 1 {
        assert(t.drop_last() =~= s.drop_last());
    } else {
        assert(t.drop_last() =~= s.drop_last().update(m, x));
        lemma_busy_update(s.drop_last(), m, x);
    }
}

/// The mount whose root is `l` is taken out of the tree, after everything below
/// it.
pub open spec fn all_unmounted(s: Mounts, l: Location, t: Mounts, r: VfsResult<()>) -> bool
    decreases busy_mounts(s.mounts), 1nat, 0nat,
{
    if !s.at_root(l) {
        t == s && r == Err::<(), AxError>(AxError::InvalidInput)
    } else {
        let bare = s.stripped(l.mountpoint);
        exists|order: Seq<(EntryKey, usize)>, mid: Mounts, done: VfsResult<()>|
            #[trigger] lists_children(order, s.mounts[l.mountpoint as int].children)
                && #[trigger] is_outcome(mid, done) && (if order.len() == 0 {
                mid == bare && done is Ok
            } else {
                busy_mounts(bare.mounts) < busy_mounts(s.mounts) && below_unmounted(
                    bare,
                    order,
                    order.len(),
                    mid,
                    done,
                )
            }) && match done {
                Err(_) => t == mid && r == done,
                Ok(_) => (r, t) == mid.unmounted(l),
            }
    }
}

/// Marks the tables and results that a walk passes.
pub open spec fn is_outcome(s: Mounts, r: VfsResult<()>) -> bool {
    true
}

/// The first `i` of the mounts of `order` are taken out of the tree. The first
/// failure ends it.
pub open spec fn below_unmounted(
    s: Mounts,
    order: Seq<(EntryKey, usize)>,
    i: nat,
    t: Mounts,
    r: VfsResult<()>,
) -> bool
    decreases busy_mounts(s.mounts), 2nat, i,
{
    if i == 0 {
        t == s && r is Ok
    } else {
        let child = order[i - 1].1;
        exists|mid: Mounts, done: VfsResult<()>|
            #[trigger] is_outcome(mid, done) && below_unmounted(
                s,
                order,
                (i - 1) as nat,
                mid,
                done,
            ) && if done is Err || !mid.is_alive(child as int) {
                t == mid && r == done
            } else {
                busy_mounts(mid.mounts) <= busy_mounts(s.mounts) && all_unmounted(
                    mid,
                    mid.root_location(child),
                    t,
                    r,
                )
            }
    }
}

/// Whether mounts only lost what was mounted on them.
pub open spec fn emptied(s: Mounts, t: Mounts) -> bool {
    &&& t.entries == s.entries
    &&& t.mounts.len() == s.mounts.len()
    &&& busy_mounts(t.mounts) <= busy_mounts(s.mounts)
    &&& forall|m: int|
        0 <= m < s.mounts.len() ==> (#[trigger] t.mounts[m]) == (Mount {
            children: t.mounts[m].children,
            ..s.mounts[m]
        })
}

proof fn lemma_unmounted(s: Mounts, l: Location)
    requires
        s.wf(),
        s.location_wf(l),
    ensures
        emptied(s, s.unmounted(l).1),
{
    let mount = s.mounts[l.mountpoint as int];
    lemma_unregistered_wf(s, l.mountpoint, mount.mode);
    assert(s.mount_wf(l.mountpoint as int));
    if let Some(p) = mount.location {
        let m = p.mountpoint as int;
        let k = key_of(s.entries, p.entry as int);
        let x = Mount { children: s.mounts[m].children.remove(k), ..s.mounts[m] };
        if s.mounts[m].children == no_children() {
            assert(x.children =~= no_children());
        }
        lemma_busy_update(s.mounts, m, x);
    }
}

impl MountTable {
    fn strip(&mut self, m: usize)
        requires
            old(self)@.wf(),
            m < old(self)@.mounts.len(),
        ensures
            final(self)@ == old(self)@.stripped(m),
            final(self)@.wf(),
            emptied(old(self)@, final(self)@),
    {
        proof {
            self.lemma_parts();
        }
        self.mounts[m].children = ChildMap::new();
        proof {
            self.lemma_parts();
            let t = old(self)@.stripped(m);
            assert(self@.mounts =~= t.mounts);
            assert forall|k: int| 0 <= k < t.mounts.len() implies #[trigger] t.mount_wf(k) by {
                assert(old(self)@.mount_wf(k));
            }
            lemma_same_groups_wf(old(self)@, t);
            lemma_busy_update(old(self)@.mounts, m as int, t.mounts[m as int]);
        }
    }

    /// Takes the mount whose root is `l` out of the tree, after everything below
    /// it.
    pub fn unmount_all(&mut self, l: Location) -> (r: VfsResult<()>)
        requires
            old(self)@.wf(),
            old(self)@.location_wf(l),
        ensures
            final(self)@.wf(),
            emptied(old(self)@, final(self)@),
            all_unmounted(old(self)@, l, final(self)@, r),
        decreases busy_mounts(old(self)@.mounts),
    {
        if !self.is_root_of_mount(l) {
            return Err(AxError::InvalidInput);
        }
        let m: usize = l.mountpoint;
        let ghost s0 = self@;
        proof {
            self.lemma_parts();
            assert(self@.mounts[m as int].children == child_map(self.mounts@[m as int].children));
            assert(self@.mount_wf(m as int));
        }
        let order: Vec<(EntryKey, usize)> = self.mounts[m].children.list();
        assert forall|k: int| 0 <= k < order@.len() implies (#[trigger] order@[k]).1
            < s0.mounts.len() by {
            assert(s0.mounts[m as int].children.contains_key(order@[k].0));
        }
        self.strip(m);
        let ghost bare = self@;
        proof {
            if order@.len() > 0 {
                assert(s0.mounts[m as int].children.contains_key(order@[0].0));
                assert(s0.mounts[m as int].children != no_children());
                lemma_busy_update(s0.mounts, m as int, bare.mounts[m as int]);
            }
        }
        let mut done: VfsResult<()> = Ok(());
        let mut i: usize = 0;
        while i < order.len()
            invariant
                i <= order@.len(),
                self@.wf(),
                emptied(bare, self@),
                bare.mounts.len() == s0.mounts.len(),
                s0 == old(self)@,
                order@.len() > 0 ==> busy_mounts(bare.mounts) < busy_mounts(s0.mounts),
                forall|k: int| 0 <= k < order@.len() ==> (#[trigger] order@[k]).1 < s0.mounts.len(),
                below_unmounted(bare, order@, i as nat, self@, done),
            decreases order@.len() - i,
        {
            let ghost mid = self@;
            assert(is_outcome(mid, done));
            let child: usize = order[i].1;
            assert(order@[i as int].1 < s0.mounts.len());
            if done.is_ok() && self.is_alive(child) {
                assert(self@.mount_wf(child as int));
                let at: Location = self.root_location(child);
                done = self.unmount_all(at);
            }
            i = i + 1;
        }
        let ghost mid = self@;
        assert(is_outcome(mid, done));
        if done.is_err() {
            return done;
        }
        proof {
            lemma_unmounted(self@, l);
        }
        self.unmount(l)
    }
}

} // verus!
