//! Directory entries and how they hang together.
use vstd::prelude::*;

use super::maps::EntryKey;

verus! {

/// A directory entry: what it stands for and where it hangs.
pub struct Entry {
    pub inode: u64,
    /// The file system that the node belongs to.
    pub fs: usize,
    pub parent: Option<usize>,
    pub is_dir: bool,
    pub name: String,
}

/// What an [`Entry`] holds.
pub ghost struct EntryInfo {
    pub inode: u64,
    pub fs: usize,
    pub parent: Option<usize>,
    pub is_dir: bool,
    pub name: Seq<char>,
}

impl Entry {
    pub open spec fn view(&self) -> EntryInfo {
        EntryInfo {
            inode: self.inode,
            fs: self.fs,
            parent: self.parent,
            is_dir: self.is_dir,
            name: self.name@,
        }
    }
}

/// Entries that were seen so far; an entry is known by its place. A parent
/// comes before its children.
pub struct EntryTree {
    entries: Vec<Entry>,
}

/// A parent comes before its children.
pub open spec fn entries_wf(s: Seq<EntryInfo>) -> bool {
    forall|i: int|
        0 <= i < s.len() ==> ((#[trigger] s[i]).parent matches Some(p) ==> p < i)
}

/// Whether `a` is `b` or a directory above it.
pub open spec fn is_above(s: Seq<EntryInfo>, a: int, b: int) -> bool
    decreases b,
{
    if b < 0 || b >= s.len() {
        false
    } else if a == b {
        true
    } else {
        match s[b].parent {
            Some(p) => p < b && is_above(s, a, p as int),
            None => false,
        }
    }
}

/// What a directory is found by.
pub open spec fn key_of(s: Seq<EntryInfo>, e: int) -> EntryKey {
    (s[e].inode, s[e].fs)
}

/// A directory above a directory above an entry is above the entry.
pub proof fn lemma_above_is_transitive(s: Seq<EntryInfo>, a: int, b: int, c: int)
    requires
        entries_wf(s),
        is_above(s, a, b),
        is_above(s, b, c),
    ensures
        is_above(s, a, c),
    decreases c,
{
    if b != c {
        lemma_above_is_transitive(s, a, b, s[c].parent->0 as int);
    }
}

/// Of two entries, at most one is above the other.
pub proof fn lemma_above_has_no_cycle(s: Seq<EntryInfo>, a: int, b: int)
    requires
        entries_wf(s),
        is_above(s, a, b),
        is_above(s, b, a),
    ensures
        a == b,
{
    lemma_above_is_before(s, a, b);
    lemma_above_is_before(s, b, a);
}

proof fn lemma_above_is_before(s: Seq<EntryInfo>, a: int, b: int)
    requires
        entries_wf(s),
        is_above(s, a, b),
    ensures
        a <= b,
    decreases b,
{
    if a != b {
        lemma_above_is_before(s, a, s[b].parent->0 as int);
    }
}

impl EntryTree {
    pub closed spec fn view(&self) -> Seq<EntryInfo> {
        Seq::new(self.entries@.len(), |i: int| self.entries@[i]@)
    }

    pub fn new() -> (r: Self)
        ensures
            r@ == Seq::<EntryInfo>::empty(),
    {
        let r = EntryTree { entries: Vec::new() };
        assert(r@ =~= Seq::<EntryInfo>::empty());
        r
    }

    pub fn len(&self) -> (r: usize)
        ensures
            r == self@.len(),
    {
        self.entries.len()
    }

    /// Takes an entry in and returns its place.
    pub fn push(&mut self, entry: Entry) -> (r: usize)
        requires
            entries_wf(old(self)@),
            entry.parent matches Some(p) ==> p < old(self)@.len(),
        ensures
            r == old(self)@.len(),
            final(self)@ == old(self)@.push(entry@),
            entries_wf(final(self)@),
    {
        let n: usize = self.entries.len();
        self.entries.push(entry);
        assert(self@ =~= old(self)@.push(entry@));
        n
    }

    pub fn get(&self, e: usize) -> (r: &Entry)
        requires
            e < self@.len(),
        ensures
            r@ == self@[e as int],
    {
        &self.entries[e]
    }

    /// What a directory is found by.
    pub fn key(&self, e: usize) -> (r: EntryKey)
        requires
            e < self@.len(),
        ensures
            r == key_of(self@, e as int),
    {
        (self.entries[e].inode, self.entries[e].fs)
    }

    /// Whether `a` is `b` or a directory above it.
    pub fn is_ancestor_of(&self, a: usize, b: usize) -> (r: bool)
        requires
            entries_wf(self@),
            a < self@.len(),
            b < self@.len(),
        ensures
            r == is_above(self@, a as int, b as int),
    {
        let mut at: usize = b;
        loop
            invariant
                entries_wf(self@),
                at < self@.len(),
                is_above(self@, a as int, b as int) == is_above(self@, a as int, at as int),
            decreases at,
        {
            if at == a {
                return true;
            }
            assert(self@[at as int] == self.entries@[at as int]@);
            match self.entries[at].parent {
                Some(p) => {
                    at = p;
                },
                None => {
                    return false;
                },
            }
        }
    }
}

/// An entry and the directories on the way up from it are all that is above it.
pub proof fn lemma_what_is_above(s: Seq<EntryInfo>, a: int, e: int)
    requires
        entries_wf(s),
        0 <= e < s.len(),
    ensures
        is_above(s, e, e),
        s[e].parent matches Some(p) ==> is_above(s, p as int, e),
        a != e && s[e].parent is Some ==> is_above(s, a, e) == is_above(
            s,
            a,
            (s[e].parent->0) as int,
        ),
        a != e && s[e].parent is None ==> !is_above(s, a, e),
{
    if let Some(p) = s[e].parent {
        assert(p < e);
        assert(is_above(s, p as int, p as int));
    }
}

} // verus!
