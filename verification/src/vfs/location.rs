//! Names and paths in the mount tree.
use vstd::prelude::*;

use crate::error::AxError;

use super::entry::{entries_wf, is_above};
use super::mount::{Location, MountTable, Mounts};
use super::mount_ops::VfsResult;

verus! {

impl Mounts {
    /// The way up from `l` leads out of every mount that it passes.
    pub open spec fn parent_of(self, l: Location, n: nat) -> Option<Location>
        decreases n,
    {
        if !self.at_root(l) {
            match self.entries[l.entry as int].parent {
                Some(p) => Some(Location { mountpoint: l.mountpoint, entry: p }),
                None => None,
            }
        } else if n == 0 {
            None
        } else {
            match self.mounts[l.mountpoint as int].location {
                Some(p) => self.parent_of(p, (n - 1) as nat),
                None => None,
            }
        }
    }

    /// The name that `l` goes by: the root of a mount has that of the directory
    /// that it is mounted on.
    pub open spec fn name_of(self, l: Location, n: nat) -> Seq<char>
        decreases n,
    {
        if !self.at_root(l) {
            self.entries[l.entry as int].name
        } else if n == 0 {
            Seq::empty()
        } else {
            match self.mounts[l.mountpoint as int].location {
                Some(p) => self.name_of(p, (n - 1) as nat),
                None => Seq::empty(),
            }
        }
    }

    /// The names from the entry `e` up to `root`, which is left out.
    pub open spec fn names_up(self, e: int, root: int) -> Seq<Seq<char>>
        decreases e,
    {
        if e == root || e < 0 || e >= self.entries.len() {
            Seq::empty()
        } else {
            match self.entries[e].parent {
                Some(p) if p < e => seq![self.entries[e].name] + self.names_up(p as int, root),
                _ => seq![self.entries[e].name],
            }
        }
    }

    /// The names on the way up from `l` through `n` mounts.
    pub open spec fn path_up(self, l: Location, n: nat) -> Seq<Seq<char>>
        decreases n,
    {
        let own = self.names_up(
            l.entry as int,
            self.mounts[l.mountpoint as int].root as int,
        );
        if n == 0 {
            own
        } else {
            match self.mounts[l.mountpoint as int].location {
                Some(p) => own + self.path_up(p, (n - 1) as nat),
                None => own,
            }
        }
    }
}

/// The names as sequences of characters.
pub open spec fn texts(v: Seq<String>) -> Seq<Seq<char>> {
    v.map_values(|s: String| s@)
}

proof fn lemma_up_through(s: Mounts, l: Location, n: nat)
    requires
        s.up(l.mountpoint, n) is None,
    ensures
        s.mounts[l.mountpoint as int].location matches Some(p) ==> n > 0 && s.up(
            p.mountpoint,
            (n - 1) as nat,
        ) is None,
        n > 0,
{
}

impl MountTable {
    /// The directory that `l` lies in; none for the root of the whole tree.
    pub fn parent(&self, l: Location) -> (r: Option<Location>)
        requires
            self@.wf(),
            self@.location_wf(l),
            self@.rooted(l.mountpoint),
        ensures
            r == self@.parent_of(l, self@.mounts.len()),
            r matches Some(p) ==> self@.location_wf(p),
    {
        proof {
            self.lemma_parts();
        }
        let mut at: Location = l;
        let mut n: usize = self.mounts.len();
        loop
            invariant
                self@.wf(),
                self@.entries == self.entries@,
                self@.location_wf(at),
                n <= self@.mounts.len(),
                self@.up(at.mountpoint, n as nat) is None,
                self@.parent_of(l, self@.mounts.len()) == self@.parent_of(at, n as nat),
            decreases n,
        {
            proof {
                lemma_up_through(self@, at, n as nat);
                assert(self@.mount_wf(at.mountpoint as int));
            }
            if !self.is_root_of_mount(at) {
                let parent: Option<usize> = self.entries.get(at.entry).parent;
                assert(self@.entries[at.entry as int].parent == parent);
                return match parent {
                    Some(p) => Some(Location { mountpoint: at.mountpoint, entry: p }),
                    None => None,
                };
            }
            match self.location(at.mountpoint) {
                None => {
                    return None;
                },
                Some(p) => {
                    at = p;
                    n = n - 1;
                },
            }
        }
    }

    /// The name that `l` goes by.
    pub fn name(&self, l: Location) -> (r: String)
        requires
            self@.wf(),
            self@.location_wf(l),
            self@.rooted(l.mountpoint),
        ensures
            r@ == self@.name_of(l, self@.mounts.len()),
    {
        proof {
            self.lemma_parts();
        }
        let mut at: Location = l;
        let mut n: usize = self.mounts.len();
        loop
            invariant
                self@.wf(),
                self@.entries == self.entries@,
                self@.location_wf(at),
                n <= self@.mounts.len(),
                self@.up(at.mountpoint, n as nat) is None,
                self@.name_of(l, self@.mounts.len()) == self@.name_of(at, n as nat),
            decreases n,
        {
            proof {
                lemma_up_through(self@, at, n as nat);
                assert(self@.mount_wf(at.mountpoint as int));
            }
            if !self.is_root_of_mount(at) {
                return self.entries.get(at.entry).name.clone();
            }
            match self.location(at.mountpoint) {
                None => {
                    let r: String = String::new();
                    assert(r@ =~= Seq::<char>::empty());
                    return r;
                },
                Some(p) => {
                    at = p;
                    n = n - 1;
                },
            }
        }
    }

    fn push_names(&self, e: usize, root: usize, names: &mut Vec<String>)
        requires
            self@.wf(),
            e < self@.entries.len(),
        ensures
            texts(final(names)@) == texts(old(names)@) + self@.names_up(e as int, root as int),
    {
        proof {
            self.lemma_parts();
        }
        let mut at: usize = e;
        while at != root
            invariant_except_break
                self@.wf(),
                self@.entries == self.entries@,
                at < self@.entries.len(),
                texts(old(names)@) + self@.names_up(e as int, root as int) == texts(names@)
                    + self@.names_up(at as int, root as int),
            ensures
                texts(names@) == texts(old(names)@) + self@.names_up(e as int, root as int),
            decreases at,
        {
            let ghost before = names@;
            let ghost here = at;
            names.push(self.entries.get(at).name.clone());
            proof {
                assert(texts(names@) =~= texts(before).push(self@.entries[here as int].name));
            }
            match self.entries.get(at).parent {
                Some(p) => {
                    assert(self@.entries[here as int].parent == Some(p));
                    at = p;
                    proof {
                        assert(texts(names@) + self@.names_up(at as int, root as int) =~= texts(
                            before,
                        ) + (seq![self@.entries[here as int].name] + self@.names_up(
                            at as int,
                            root as int,
                        )));
                    }
                },
                None => {
                    assert(self@.entries[here as int].parent is None);
                    assert(texts(names@) =~= texts(before) + seq![self@.entries[here as int].name]);
                    break;
                },
            }
        }
        assert(texts(names@) =~= texts(old(names)@) + self@.names_up(e as int, root as int));
    }

    /// The names from the root of the tree down to `l`.
    pub fn absolute_path(&self, l: Location) -> (r: Vec<String>)
        requires
            self@.wf(),
            self@.location_wf(l),
            self@.rooted(l.mountpoint),
        ensures
            texts(r@) == self@.path_up(l, self@.mounts.len()).reverse(),
    {
        let mut names: Vec<String> = Vec::new();
        let mut at: Location = l;
        proof {
            self.lemma_parts();
            assert(texts(names@) =~= Seq::<Seq<char>>::empty());
        }
        let mut n: usize = self.mounts.len();
        assert(texts(names@) + self@.path_up(at, n as nat) =~= self@.path_up(at, n as nat));
        let mut more: bool = true;
        while more
            invariant
                self@.wf(),
                self@.location_wf(at),
                n <= self@.mounts.len(),
                more ==> self@.up(at.mountpoint, n as nat) is None,
                more ==> self@.path_up(l, self@.mounts.len()) == texts(names@) + self@.path_up(
                    at,
                    n as nat,
                ),
                !more ==> self@.path_up(l, self@.mounts.len()) == texts(names@),
            decreases n + if more {
                1int
            } else {
                0
            },
        {
            proof {
                self.lemma_parts();
                lemma_up_through(self@, at, n as nat);
                assert(self@.mount_wf(at.mountpoint as int));
            }
            let ghost before = texts(names@);
            let root: usize = self.mounts[at.mountpoint].root;
            self.push_names(at.entry, root, &mut names);
            match self.location(at.mountpoint) {
                None => {
                    more = false;
                },
                Some(p) => {
                    let ghost own = self@.names_up(at.entry as int, root as int);
                    proof {
                        assert(before + (own + self@.path_up(p, (n - 1) as nat)) =~= texts(names@)
                            + self@.path_up(p, (n - 1) as nat));
                    }
                    at = p;
                    n = n - 1;
                },
            }
        }
        let mut r: Vec<String> = Vec::new();
        let mut i: usize = names.len();
        while i > 0
            invariant
                i <= names@.len(),
                r@.len() == names@.len() - i,
                forall|k: int| 0 <= k < r@.len() ==> (#[trigger] r@[k])@ == names@[names@.len() - 1 - k]@,
            decreases i,
        {
            i = i - 1;
            r.push(names[i].clone());
        }
        assert(texts(r@) =~= texts(names@).reverse());
        r
    }

    /// Whether a link from `dir` to `node` stays within one mount.
    pub fn check_link(&self, dir: Location, node: Location) -> (r: VfsResult<()>)
        ensures
            r == if dir.mountpoint != node.mountpoint {
                Err::<(), AxError>(AxError::CrossesDevices)
            } else {
                Ok(())
            },
    {
        if dir.mountpoint != node.mountpoint {
            Err(AxError::CrossesDevices)
        } else {
            Ok(())
        }
    }

    /// Whether an entry can move from `src` to `dst`: within one mount, and not
    /// to a directory below `src`.
    pub fn check_rename(&self, src: Location, dst: Location) -> (r: VfsResult<()>)
        requires
            self@.wf(),
            self@.location_wf(src),
            self@.location_wf(dst),
        ensures
            r == if src.mountpoint != dst.mountpoint {
                Err::<(), AxError>(AxError::CrossesDevices)
            } else if src != dst && is_above(self@.entries, src.entry as int, dst.entry as int) {
                Err(AxError::InvalidInput)
            } else if !self@.entries[src.entry as int].is_dir
                || !self@.entries[dst.entry as int].is_dir {
                Err(AxError::NotADirectory)
            } else {
                Ok(())
            },
    {
        if src.mountpoint != dst.mountpoint {
            return Err(AxError::CrossesDevices);
        }
        proof {
            self.lemma_parts();
        }
        if src != dst && self.entries.is_ancestor_of(src.entry, dst.entry) {
            return Err(AxError::InvalidInput);
        }
        if !self.entries.get(src.entry).is_dir || !self.entries.get(dst.entry).is_dir {
            return Err(AxError::NotADirectory);
        }
        Ok(())
    }

    pub fn check_is_dir(&self, l: Location) -> (r: VfsResult<()>)
        requires
            self@.location_wf(l),
        ensures
            r == if self@.entries[l.entry as int].is_dir {
                Ok::<(), AxError>(())
            } else {
                Err(AxError::NotADirectory)
            },
    {
        proof {
            self.lemma_parts();
        }
        if self.entries.get(l.entry).is_dir {
            Ok(())
        } else {
            Err(AxError::NotADirectory)
        }
    }

    /// Where a step from `l` leads: `.` stays, `..` goes up as far as it goes,
    /// and any other name leads to the entry that was looked up, or to what is
    /// mounted there.
    pub fn lookup_no_follow(&self, l: Location, step: PathStep) -> (r: Location)
        requires
            self@.wf(),
            self@.location_wf(l),
            self@.rooted(l.mountpoint),
            step matches PathStep::Name { entry } ==> entry < self@.entries.len(),
        ensures
            r == match step {
                PathStep::Dot => l,
                PathStep::DotDot => match self@.parent_of(l, self@.mounts.len()) {
                    Some(p) => p,
                    None => l,
                },
                PathStep::Name { entry } => self@.resolved(
                    Location { mountpoint: l.mountpoint, entry },
                ),
            },
    {
        match step {
            PathStep::Dot => l,
            PathStep::DotDot => match self.parent(l) {
                Some(p) => p,
                None => l,
            },
            PathStep::Name { entry } => self.resolve_mounted_location(
                Location { mountpoint: l.mountpoint, entry },
            ),
        }
    }
}

/// One step of a path: a name stands for the entry that it was looked up as.
#[derive(Debug, Clone, Copy, PartialEq, Eq, Structural)]
pub enum PathStep {
    Dot,
    DotDot,
    Name { entry: usize },
}

/// The directory above an entry is its parent in the same mount. The root of a
/// mount lies where the directory lies that it is mounted on, and goes by the name
/// of that directory.
pub proof fn lemma_mount_root_lies_where_it_is_mounted(s: Mounts, l: Location, n: nat)
    requires
        n > 0,
    ensures
        ({
            let here = s.entries[l.entry as int];
            let top = s.entries[s.mounts[l.mountpoint as int].root as int];
            let at_top = here.inode == top.inode && here.fs == top.fs;
            &&& !at_top ==> s.parent_of(l, n) == match here.parent {
                Some(p) => Some(Location { mountpoint: l.mountpoint, entry: p }),
                None => None,
            }
            &&& !at_top ==> s.name_of(l, n) == here.name
            &&& at_top ==> match s.mounts[l.mountpoint as int].location {
                Some(p) => s.parent_of(l, n) == s.parent_of(p, (n - 1) as nat) && s.name_of(l, n)
                    == s.name_of(p, (n - 1) as nat),
                None => s.parent_of(l, n) is None && s.name_of(l, n) == Seq::<char>::empty(),
            }
        }),
{
}

/// The names on the way up begin with that of the entry, unless it is the root of
/// its mount, and go on with those of its parent; from the root of a mount the way
/// goes on where it is mounted.
pub proof fn lemma_names_on_the_way_up(s: Mounts, l: Location, n: nat)
    requires
        entries_wf(s.entries),
        l.entry < s.entries.len(),
        n > 0,
    ensures
        ({
            let root = s.mounts[l.mountpoint as int].root;
            let here = s.entries[l.entry as int];
            &&& l.entry == root ==> s.path_up(l, n) == match s.mounts[l.mountpoint as int].location {
                Some(p) => s.path_up(p, (n - 1) as nat),
                None => Seq::empty(),
            }
            &&& l.entry != root ==> s.path_up(l, n).len() > 0 && s.path_up(l, n)[0] == here.name
            &&& l.entry != root && here.parent is Some ==> s.path_up(l, n).skip(1) == s.path_up(
                Location { mountpoint: l.mountpoint, entry: here.parent->0 },
                n,
            )
        }),
{
    let root = s.mounts[l.mountpoint as int].root;
    let here = s.entries[l.entry as int];
    let own = s.names_up(l.entry as int, root as int);
    let rest = match s.mounts[l.mountpoint as int].location {
        Some(p) => s.path_up(p, (n - 1) as nat),
        None => Seq::empty(),
    };
    assert(s.path_up(l, n) =~= own + rest);
    if l.entry == root {
        assert(own + rest =~= rest);
    } else {
        assert(own[0] == here.name);
        if let Some(p) = here.parent {
            let up = s.names_up(p as int, root as int);
            assert(own == seq![here.name] + up);
            assert((own + rest).skip(1) =~= up + rest);
            assert(s.path_up(Location { mountpoint: l.mountpoint, entry: p }, n) =~= up + rest);
        }
    }
}

} // verus!
