//! Letting go of cached directory entries.
use vstd::prelude::*;

use super::dir::{Dir, DirNode};
use super::maps::lists_values;

verus! {

/// The directories among the entries, each at the place of its entry.
pub struct DirTable {
    pub dirs: Vec<Option<DirNode>>,
}

impl DirTable {
    pub open spec fn view(&self) -> Seq<Option<Dir>> {
        self.dirs@.map_values(
            |d: Option<DirNode>|
                match d {
                    Some(x) => Some(x@),
                    None => None,
                },
        )
    }
}

/// Whether directory `a` has directory `b` in its cache.
pub open spec fn caches(s: Seq<Option<Dir>>, a: int, b: int) -> bool {
    &&& 0 <= a < s.len()
    &&& 0 <= b < s.len()
    &&& s[b] is Some
    &&& s[a] matches Some(d) && exists|k: Seq<char>| #[trigger] d.cache.contains_key(k) && d.cache[k] == b
}

/// Whether `n` caches lead from directory `a` to directory `b`.
pub open spec fn leads_to(s: Seq<Option<Dir>>, a: int, b: int, n: nat) -> bool
    decreases n,
{
    if n == 0 {
        a == b
    } else {
        exists|m: int| #[trigger] caches(s, m, b) && leads_to(s, a, m, (n - 1) as nat)
    }
}

/// Whether caches lead from directory `a` to directory `b`.
pub open spec fn reachable(s: Seq<Option<Dir>>, a: int, b: int) -> bool {
    exists|n: nat| #[trigger] leads_to(s, a, b, n)
}

/// The directories without the caches that lead on from `root`.
pub open spec fn forgotten_from(s: Seq<Option<Dir>>, root: int) -> Seq<Option<Dir>> {
    Seq::new(
        s.len(),
        |d: int|
            match s[d] {
                Some(x) if reachable(s, root, d) => Some(x.forgotten()),
                x => x,
            },
    )
}

/// How many entries are cached.
spec fn cached_entries(s: Seq<Option<Dir>>) -> nat
    decreases s.len(),
{
    if s.len() == 0 {
        0
    } else {
        cached_entries(s.drop_last()) + match s.last() {
            Some(d) => d.cache.len(),
            None => 0,
        }
    }
}

proof fn lemma_cached_update(s: Seq<Option<Dir>>, i: int, d: Dir)
    requires
        0 <= i < s.len(),
        s[i] is Some,
    ensures
        cached_entries(s.update(i, Some(d))) + (s[i]->0).cache.len() == cached_entries(s)
            + d.cache.len(),
    decreases s.len(),
{
    let t = s.update(i, Some(d));
    if i == s.len() - 1 {
        assert(t.drop_last() =~= s.drop_last());
    } else {
        assert(t.drop_last() =~= s.drop_last().update(i, Some(d)));
        lemma_cached_update(s.drop_last(), i, d);
    }
}

/// What is closed under caches and holds the root holds everything reachable.
proof fn lemma_closed_holds_reachable(
    s: Seq<Option<Dir>>,
    root: int,
    cleared: Set<int>,
    d: int,
    n: nat,
)
    requires
        cleared.contains(root),
        forall|a: int, b: int| cleared.contains(a) && #[trigger] caches(s, a, b) ==> cleared.contains(b),
        leads_to(s, root, d, n),
    ensures
        cleared.contains(d),
    decreases n,
{
    if n > 0 {
        let m = choose|m: int| #[trigger] caches(s, m, d) && leads_to(s, root, m, (n - 1) as nat);
        lemma_closed_holds_reachable(s, root, cleared, m, (n - 1) as nat);
    }
}

impl DirTable {
    fn take(&mut self, d: usize) -> (r: Vec<usize>)
        requires
            d < old(self)@.len(),
        ensures
            match old(self)@[d as int] {
                Some(x) => final(self)@ == old(self)@.update(d as int, Some(x.forgotten()))
                    && lists_values(r@, x.cache) && r@.len() == x.cache.len(),
                None => final(self)@ == old(self)@ && r@.len() == 0,
            },
    {
        let mut slot: Option<DirNode> = None;
        std::mem::swap(&mut slot, &mut self.dirs[d]);
        match slot {
            None => {
                assert(self@ =~= old(self)@);
                Vec::new()
            },
            Some(dir) => {
                let mut dir: DirNode = dir;
                let r: Vec<usize> = dir.take_entries();
                self.dirs.set(d, Some(dir));
                assert(self@ =~= old(self)@.update(
                    d as int,
                    Some((old(self)@[d as int]->0).forgotten()),
                ));
                r
            },
        }
    }

    /// Empties the cache of a directory, those of the directories in it, and so
    /// on.
    pub fn forget(&mut self, root: usize)
        requires
            root < old(self)@.len(),
            old(self)@[root as int] is Some,
        ensures
            final(self)@ == forgotten_from(old(self)@, root as int),
    {
        let ghost s = self@;
        let ghost mut cleared: Set<int> = set![root as int];
        let mut pending: Vec<usize> = self.take(root);
        proof {
            assert(leads_to(s, root as int, root as int, 0));
            assert forall|b: int| #[trigger] caches(s, root as int, b) implies pending@.contains(
                b as usize,
            ) by {
                assert(pending@.contains(b as usize));
            }
            lemma_pending_reachable(s, root as int, root as int, pending@);
            let x = (s[root as int]->0).forgotten();
            lemma_cached_update(s, root as int, x);
        }
        while pending.len() > 0
            invariant
                s.len() == self@.len(),
                s.len() == self.dirs@.len(),
                0 <= root < s.len(),
                cleared.contains(root as int),
                forall|d: int| #[trigger] cleared.contains(d) ==> 0 <= d < s.len() && s[d] is Some
                    && self@[d] == Some((s[d]->0).forgotten()) && reachable(s, root as int, d),
                forall|d: int|
                    0 <= d < s.len() && !cleared.contains(d) ==> (#[trigger] self@[d]) == s[d],
                forall|a: int, b: int|
                    cleared.contains(a) && #[trigger] caches(s, a, b) ==> cleared.contains(b)
                        || pending@.contains(b as usize),
                forall|i: int|
                    0 <= i < pending@.len() && (#[trigger] pending@[i]) < s.len()
                        && s[pending@[i] as int] is Some ==> reachable(
                        s,
                        root as int,
                        pending@[i] as int,
                    ),
            decreases 2 * cached_entries(self@) + pending@.len(),
        {
            let ghost before = self@;
            let ghost waiting = pending@;
            let child: usize = pending.pop().unwrap();
            assert(waiting == pending@.push(child));
            assert(child == waiting[waiting.len() - 1]);
            if child < self.dirs.len() {
                let mut more: Vec<usize> = self.take(child);
                let ghost found = more@;
                let ghost left = pending@;
                pending.append(&mut more);
                proof {
                    assert forall|i: int|
                        0 <= i < pending@.len() && (#[trigger] pending@[i]) < s.len()
                            && s[pending@[i] as int] is Some implies reachable(
                        s,
                        root as int,
                        pending@[i] as int,
                    ) by {
                        if i < left.len() {
                            assert(pending@[i] == waiting[i]);
                        } else {
                            assert(pending@[i] == found[i - left.len()]);
                            assert(found.contains(pending@[i]));
                            if !cleared.contains(child as int) {
                                assert(before[child as int] == s[child as int]);
                                assert(caches(s, child as int, pending@[i] as int));
                                lemma_step(s, root as int, child as int, pending@[i] as int);
                            }
                        }
                    }
                    if before[child as int] is Some {
                        lemma_cached_update(
                            before,
                            child as int,
                            (before[child as int]->0).forgotten(),
                        );
                        assert(s[child as int] is Some);
                        let was = cleared;
                        cleared = cleared.insert(child as int);
                        assert forall|a: int, b: int|
                            cleared.contains(a) && #[trigger] caches(s, a, b) implies cleared.contains(b)
                            || pending@.contains(b as usize) by {
                            if was.contains(a) {
                                if !was.contains(b) && b != child {
                                    let i = choose|i: int|
                                        0 <= i < waiting.len() && waiting[i] == b as usize;
                                    assert(left[i] == b as usize);
                                    assert(pending@[i] == b as usize);
                                }
                            } else {
                                assert(a == child);
                                assert(before[child as int] == s[child as int]);
                                assert(found.contains(b as usize));
                                let i = choose|i: int|
                                    0 <= i < found.len() && found[i] == b as usize;
                                assert(pending@[left.len() + i] == b as usize);
                            }
                        }
                    } else {
                        assert(found.len() == 0);
                        assert(pending@ =~= left);
                        assert forall|a: int, b: int|
                            cleared.contains(a) && #[trigger] caches(s, a, b) implies cleared.contains(b)
                            || pending@.contains(b as usize) by {
                            if !cleared.contains(b) {
                                assert(b != child);
                                let i = choose|i: int|
                                    0 <= i < waiting.len() && waiting[i] == b as usize;
                                assert(left[i] == b as usize);
                            }
                        }
                    }
                }
            } else {
                proof {
                    assert forall|a: int, b: int|
                        cleared.contains(a) && #[trigger] caches(s, a, b) implies cleared.contains(b)
                        || pending@.contains(b as usize) by {
                        if !cleared.contains(b) {
                            assert(b != child);
                            let i = choose|i: int|
                                0 <= i < waiting.len() && waiting[i] == b as usize;
                            assert(pending@[i] == b as usize);
                        }
                    }
                    assert forall|i: int|
                        0 <= i < pending@.len() && (#[trigger] pending@[i]) < s.len()
                            && s[pending@[i] as int] is Some implies reachable(
                        s,
                        root as int,
                        pending@[i] as int,
                    ) by {
                        assert(pending@[i] == waiting[i]);
                    }
                }
            }
        }
        proof {
            assert forall|d: int| 0 <= d < s.len() implies self@[d] == forgotten_from(
                s,
                root as int,
            )[d] by {
                if reachable(s, root as int, d) {
                    let n = choose|n: nat| #[trigger] leads_to(s, root as int, d, n);
                    lemma_closed_holds_reachable(s, root as int, cleared, d, n);
                }
            }
            assert(self@ =~= forgotten_from(s, root as int));
        }
    }
}

proof fn lemma_step(s: Seq<Option<Dir>>, root: int, a: int, b: int)
    requires
        reachable(s, root, a),
        caches(s, a, b),
    ensures
        reachable(s, root, b),
{
    let n = choose|n: nat| #[trigger] leads_to(s, root, a, n);
    assert(leads_to(s, root, b, n + 1));
}

proof fn lemma_pending_reachable(s: Seq<Option<Dir>>, root: int, a: int, pending: Seq<usize>)
    requires
        reachable(s, root, a),
        0 <= a < s.len(),
        s[a] matches Some(d) && lists_values(pending, d.cache),
    ensures
        forall|i: int|
            0 <= i < pending.len() && (#[trigger] pending[i]) < s.len() && s[pending[i] as int] is Some
                ==> reachable(s, root, pending[i] as int),
{
    assert forall|i: int|
        0 <= i < pending.len() && (#[trigger] pending[i]) < s.len() && s[pending[i] as int] is Some
        implies reachable(s, root, pending[i] as int) by {
        assert(pending.contains(pending[i]));
        assert(caches(s, a, pending[i] as int));
        lemma_step(s, root, a, pending[i] as int);
    }
}

} // verus!
