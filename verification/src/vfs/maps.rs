//! The hash maps that the mount tree and the directories are kept in.
use vstd::prelude::*;

verus! {

/// What a mounted directory is found by: its inode and its file system.
pub type EntryKey = (u64, usize);

/// The mounts on directories of one mount.
#[verifier::external_body]
pub struct ChildMap {
    map: hashbrown::HashMap<(u64, usize), usize>,
}

/// The mounts in a [`ChildMap`].
pub uninterp spec fn child_map(m: ChildMap) -> Map<EntryKey, usize>;

pub open spec fn no_children() -> Map<EntryKey, usize> {
    Map::empty()
}

/// Whether `s` holds every pair of `m` once.
pub open spec fn lists_children(s: Seq<(EntryKey, usize)>, m: Map<EntryKey, usize>) -> bool {
    &&& forall|i: int| 0 <= i < s.len() ==> m.contains_key((#[trigger] s[i]).0) && m[s[i].0] == s[i].1
    &&& forall|i: int, j: int| 0 <= i < j < s.len() ==> (#[trigger] s[i]).0 != (#[trigger] s[j]).0
    &&& forall|k: EntryKey|
        #[trigger] m.contains_key(k) ==> exists|i: int| 0 <= i < s.len() && (#[trigger] s[i]).0 == k
}

impl ChildMap {
    pub open spec fn view(&self) -> Map<EntryKey, usize> {
        child_map(*self)
    }

    /// `hashbrown::HashMap::new`: the map holds nothing.
    #[verifier::external_body]
    pub(crate) fn new() -> (r: Self)
        ensures
            child_map(r) == no_children(),
    {
        ChildMap { map: hashbrown::HashMap::new() }
    }

    /// `hashbrown::HashMap::get`: the value that the key was last given, if it
    /// was not removed since.
    #[verifier::external_body]
    pub(crate) fn get(&self, key: EntryKey) -> (r: Option<usize>)
        ensures
            r == if child_map(*self).contains_key(key) {
                Some(child_map(*self)[key])
            } else {
                None
            },
    {
        self.map.get(&key).copied()
    }

    /// `hashbrown::HashMap::insert`: the key has the value from then on, every
    /// other key keeps its own.
    #[verifier::external_body]
    pub(crate) fn insert(&mut self, key: EntryKey, value: usize)
        ensures
            child_map(*final(self)) == child_map(*old(self)).insert(key, value),
    {
        let _ = self.map.insert(key, value);
    }

    /// `hashbrown::HashMap::remove`: the key has no value from then on, every
    /// other key keeps its own.
    #[verifier::external_body]
    pub(crate) fn remove(&mut self, key: EntryKey)
        ensures
            child_map(*final(self)) == child_map(*old(self)).remove(key),
    {
        let _ = self.map.remove(&key);
    }

    /// `hashbrown::HashMap::is_empty`: whether no key has a value.
    #[verifier::external_body]
    pub(crate) fn is_empty(&self) -> (r: bool)
        ensures
            r == (child_map(*self) == no_children()),
    {
        self.map.is_empty()
    }

    /// `hashbrown::HashMap::iter`: every pair once, in an order that nothing is
    /// said about.
    #[verifier::external_body]
    pub(crate) fn list(&self) -> (r: Vec<(EntryKey, usize)>)
        ensures
            lists_children(r@, child_map(*self)),
    {
        self.map.iter().map(|pair| (*pair.0, *pair.1)).collect()
    }
}

/// The members of peer groups.
#[verifier::external_body]
pub struct GroupMap {
    map: hashbrown::HashMap<u64, Vec<usize>>,
}

/// The groups in a [`GroupMap`].
pub uninterp spec fn group_map(m: GroupMap) -> Map<u64, Seq<usize>>;

pub open spec fn no_groups() -> Map<u64, Seq<usize>> {
    Map::empty()
}

impl GroupMap {
    pub open spec fn view(&self) -> Map<u64, Seq<usize>> {
        group_map(*self)
    }

    /// `hashbrown::HashMap::new`: the map holds nothing.
    #[verifier::external_body]
    pub(crate) fn new() -> (r: Self)
        ensures
            group_map(r) == no_groups(),
    {
        GroupMap { map: hashbrown::HashMap::new() }
    }

    /// `hashbrown::HashMap::get`: the list that the key was last given, if it
    /// was not removed since.
    #[verifier::external_body]
    pub(crate) fn get(&self, group: u64) -> (r: Option<&Vec<usize>>)
        ensures
            r matches Some(v) ==> group_map(*self).contains_key(group) && v@ == group_map(
                *self,
            )[group],
            r is None ==> !group_map(*self).contains_key(group),
    {
        self.map.get(&group)
    }

    /// `hashbrown::HashMap::insert`: the key has the list from then on, every
    /// other key keeps its own.
    #[verifier::external_body]
    pub(crate) fn insert(&mut self, group: u64, members: Vec<usize>)
        ensures
            group_map(*final(self)) == group_map(*old(self)).insert(group, members@),
    {
        let _ = self.map.insert(group, members);
    }

    /// `hashbrown::HashMap::remove`: the key has no list from then on, every
    /// other key keeps its own.
    #[verifier::external_body]
    pub(crate) fn remove(&mut self, group: u64)
        ensures
            group_map(*final(self)) == group_map(*old(self)).remove(group),
    {
        let _ = self.map.remove(&group);
    }
}

/// Directory entries by their names.
#[verifier::external_body]
pub struct NameMap {
    map: hashbrown::HashMap<String, usize>,
}

/// The entries in a [`NameMap`].
pub uninterp spec fn name_map(m: NameMap) -> Map<Seq<char>, usize>;

pub open spec fn no_names() -> Map<Seq<char>, usize> {
    Map::empty()
}

/// Whether `s` holds what some key of `m` maps to, and nothing else.
pub open spec fn lists_values(s: Seq<usize>, m: Map<Seq<char>, usize>) -> bool {
    forall|v: usize| #[trigger]
        s.contains(v) <==> exists|k: Seq<char>| #[trigger] m.contains_key(k) && m[k] == v
}

impl NameMap {
    pub open spec fn view(&self) -> Map<Seq<char>, usize> {
        name_map(*self)
    }

    /// `hashbrown::HashMap::new`: the map holds nothing.
    #[verifier::external_body]
    pub(crate) fn new() -> (r: Self)
        ensures
            name_map(r) == no_names(),
    {
        NameMap { map: hashbrown::HashMap::new() }
    }

    /// `hashbrown::HashMap::get`: the value that the name was last given, if it
    /// was not removed since. Names are the same where their characters are.
    #[verifier::external_body]
    pub(crate) fn get(&self, name: &str) -> (r: Option<usize>)
        ensures
            r == if name_map(*self).contains_key(name@) {
                Some(name_map(*self)[name@])
            } else {
                None
            },
    {
        self.map.get(name).copied()
    }

    /// `hashbrown::HashMap::insert`: the name has the value from then on, every
    /// other name keeps its own; the value that the name had is returned.
    #[verifier::external_body]
    pub(crate) fn insert(&mut self, name: String, value: usize) -> (r: Option<usize>)
        ensures
            name_map(*final(self)) == name_map(*old(self)).insert(name@, value),
            r == if name_map(*old(self)).contains_key(name@) {
                Some(name_map(*old(self))[name@])
            } else {
                None
            },
    {
        self.map.insert(name, value)
    }

    /// `hashbrown::HashMap::remove`: the name has no value from then on, every
    /// other name keeps its own; the value that the name had is returned.
    #[verifier::external_body]
    pub(crate) fn remove(&mut self, name: &str) -> (r: Option<usize>)
        ensures
            name_map(*final(self)) == name_map(*old(self)).remove(name@),
            r == if name_map(*old(self)).contains_key(name@) {
                Some(name_map(*old(self))[name@])
            } else {
                None
            },
    {
        self.map.remove(name)
    }

    /// `hashbrown::HashMap::into_values`: what the names of the map have, in an
    /// order that nothing is said about, one for each name.
    #[verifier::external_body]
    pub(crate) fn into_values(self) -> (r: Vec<usize>)
        ensures
            lists_values(r@, name_map(self)),
            r@.len() == name_map(self).len(),
    {
        self.map.into_values().collect()
    }
}

} // verus!
