//! Directories: what is decided around the calls into a file system.
//!
//! A file system answers with an entry or with the code of an error. The
//! functions here say what to ask it and what to make of its answers, and keep
//! the cache of names.
use vstd::prelude::*;
use vstd::string::StringSliceAdditionalSpecFns;

use crate::error::AxError;

use super::maps::{name_map, no_names, NameMap};
use super::node::{MetadataUpdate, NodePermission, NodeType};

verus! {

/// The code of the error that an entry does not exist.
pub const NOT_FOUND_CODE: i32 = 30;

/// The same error as a Linux error, which has a negative code.
pub const LINUX_ENOENT_CODE: i32 = -2;

/// What `axerrno::AxError::canonicalize` makes of the error with a given code.
pub uninterp spec fn canonical_code(code: i32) -> i32;

/// `axerrno::AxError::canonicalize`: the code of the same error among the
/// kernel's own errors, if it has one there; only the kernel's own error and
/// the Linux error for a missing entry become that a missing entry. A code that
/// belongs to no error is handed back.
#[verifier::external_body]
fn canonicalize(code: i32) -> (r: i32)
    requires
        code != i32::MIN,
    ensures
        r == canonical_code(code),
        (r == NOT_FOUND_CODE) == (code == NOT_FOUND_CODE || code == LINUX_ENOENT_CODE),
{
    match axerrno::AxError::try_from(code) {
        Ok(error) => error.canonicalize().code(),
        Err(same) => same,
    }
}

/// Why an operation on a directory failed.
#[derive(Debug, Clone, Copy, PartialEq, Eq, Structural)]
pub enum DirError {
    /// It was refused here.
    Vfs(AxError),
    /// The file system failed with this code.
    Fs { code: i32 },
}

pub type DirResult<T> = Result<T, DirError>;

/// What a file system answers.
pub type FsResult<T> = Result<T, i32>;

/// An answer as a result.
pub open spec fn answered<T>(answer: FsResult<T>) -> DirResult<T> {
    match answer {
        Ok(v) => Ok(v),
        Err(code) => Err(DirError::Fs { code }),
    }
}

/// Options for opening or creating an entry.
#[derive(Debug, Clone, Copy, PartialEq, Eq)]
pub struct OpenOptions {
    pub create: bool,
    pub create_new: bool,
    pub node_type: NodeType,
    pub permission: NodePermission,
    pub user: Option<(u32, u32)>,
}

impl OpenOptions {
    /// Opens a regular file that exists.
    pub fn new(permission: NodePermission) -> (r: Self)
        ensures
            r == (OpenOptions {
                create: false,
                create_new: false,
                node_type: NodeType::RegularFile,
                permission,
                user: None,
            }),
    {
        OpenOptions {
            create: false,
            create_new: false,
            node_type: NodeType::RegularFile,
            permission,
            user: None,
        }
    }
}

/// How a lookup goes on.
#[derive(Debug, Clone, Copy, PartialEq, Eq)]
pub enum LookupStep {
    Done(DirResult<usize>),
    /// The file system has to be asked.
    Ask,
}

/// How an open goes on.
#[derive(Debug, Clone, Copy, PartialEq, Eq)]
pub enum OpenStep {
    Done(DirResult<usize>),
    /// The entry has to be created.
    Create,
}

/// The entry that a rename would replace.
#[derive(Debug, Clone, Copy, PartialEq, Eq)]
pub struct RenameTarget {
    pub is_dir: bool,
    /// Whether it holds anything, if it is a directory.
    pub has_children: FsResult<bool>,
}

/// A directory with its cache of entries.
pub struct DirNode {
    cache: NameMap,
    cacheable: bool,
}

/// What a [`DirNode`] holds.
pub ghost struct Dir {
    pub cache: Map<Seq<char>, usize>,
    /// Whether the file system lets names be cached.
    pub cacheable: bool,
}

impl Dir {
    pub open spec fn cached(self, name: Seq<char>) -> Option<usize> {
        if self.cache.contains_key(name) {
            Some(self.cache[name])
        } else {
            None
        }
    }

    pub open spec fn with(self, name: Seq<char>, entry: usize) -> Self {
        Dir { cache: self.cache.insert(name, entry), ..self }
    }

    /// With a name in the cache, if names may be cached.
    pub open spec fn remembering(self, name: Seq<char>, entry: usize) -> Self {
        if self.cacheable {
            self.with(name, entry)
        } else {
            self
        }
    }

    pub open spec fn without(self, name: Seq<char>) -> Self {
        Dir { cache: self.cache.remove(name), ..self }
    }

    pub open spec fn forgotten(self) -> Self {
        Dir { cache: no_names(), ..self }
    }
}

impl DirNode {
    pub closed spec fn view(&self) -> Dir {
        Dir { cache: name_map(self.cache), cacheable: self.cacheable }
    }

    pub fn new(cacheable: bool) -> (r: Self)
        ensures
            r@ == (Dir { cache: no_names(), cacheable }),
    {
        DirNode { cache: NameMap::new(), cacheable }
    }

    /// The entry that the cache has for a name.
    pub fn lookup_locked(&self, name: &str) -> (r: LookupStep)
        ensures
            r == match self@.cached(name@) {
                Some(e) => LookupStep::Done(Ok(e)),
                None => LookupStep::Ask,
            },
    {
        match self.cache.get(name) {
            Some(e) => LookupStep::Done(Ok(e)),
            None => LookupStep::Ask,
        }
    }

    /// Takes in what the file system answered to a lookup.
    pub fn looked_up(&mut self, name: &str, answer: FsResult<usize>) -> (r: DirResult<usize>)
        ensures
            r == answered(answer),
            final(self)@ == match answer {
                Ok(e) => old(self)@.remembering(name@, e),
                Err(_) => old(self)@,
            },
    {
        match answer {
            Ok(e) => {
                if self.cacheable {
                    let _ = self.cache.insert(name.to_owned(), e);
                }
                Ok(e)
            },
            Err(code) => Err(DirError::Fs { code }),
        }
    }

    /// Looks an entry up, in the cache if the directory may be cached. Names of
    /// more than `max_name_len` bytes are refused.
    pub fn lookup(&self, name: &str, max_name_len: usize) -> (r: LookupStep)
        ensures
            r == if name.spec_bytes().len() > max_name_len {
                LookupStep::Done(Err(DirError::Vfs(AxError::NameTooLong)))
            } else {
                match self@.cached(name@) {
                    Some(e) if self@.cacheable => LookupStep::Done(Ok(e)),
                    _ => LookupStep::Ask,
                }
            },
    {
        if name.as_bytes().len() > max_name_len {
            return LookupStep::Done(Err(DirError::Vfs(AxError::NameTooLong)));
        }
        if self.cacheable {
            self.lookup_locked(name)
        } else {
            LookupStep::Ask
        }
    }

    /// The entry that the cache has for a name, if the directory may be cached.
    pub fn lookup_cache(&self, name: &str) -> (r: Option<usize>)
        ensures
            r == if self@.cacheable {
                self@.cached(name@)
            } else {
                None
            },
    {
        if self.cacheable {
            self.cache.get(name)
        } else {
            None
        }
    }

    /// Puts an entry into the cache, if the directory may be cached, and
    /// returns the entry that had its name.
    pub fn insert_cache(&mut self, name: String, entry: usize) -> (r: Option<usize>)
        ensures
            final(self)@ == old(self)@.remembering(name@, entry),
            r == if old(self)@.cacheable {
                old(self)@.cached(name@)
            } else {
                None
            },
    {
        if self.cacheable {
            self.cache.insert(name, entry)
        } else {
            None
        }
    }

    /// Takes in what the file system answered to a link or a creation.
    pub fn linked(&mut self, name: &str, answer: FsResult<usize>) -> (r: DirResult<usize>)
        ensures
            r == answered(answer),
            final(self)@ == match answer {
                Ok(e) => old(self)@.remembering(name@, e),
                Err(_) => old(self)@,
            },
    {
        match answer {
            Ok(e) => {
                if self.cacheable {
                    let _ = self.cache.insert(name.to_owned(), e);
                }
                Ok(e)
            },
            Err(code) => Err(DirError::Fs { code }),
        }
    }

    /// Takes in what the file system answered to an unlink, and returns the
    /// cached entry that is gone.
    pub fn unlinked(&mut self, name: &str, answer: FsResult<()>) -> (r: DirResult<Option<usize>>)
        ensures
            match answer {
                Ok(_) => r == Ok::<Option<usize>, DirError>(old(self)@.cached(name@))
                    && final(self)@ == old(self)@.without(name@),
                Err(code) => r == Err::<Option<usize>, DirError>(DirError::Fs { code })
                    && final(self)@ == old(self)@,
            },
    {
        match answer {
            Ok(()) => Ok(self.cache.remove(name)),
            Err(code) => Err(DirError::Fs { code }),
        }
    }

    /// Takes in that an entry was renamed within this directory, and returns the
    /// cached entries that are gone.
    pub fn renamed_within(&mut self, src_name: &str, dst_name: &str) -> (r: (
        Option<usize>,
        Option<usize>,
    ))
        ensures
            final(self)@ == old(self)@.without(src_name@).without(dst_name@),
            r.0 == old(self)@.cached(src_name@),
            r.1 == old(self)@.without(src_name@).cached(dst_name@),
    {
        let src: Option<usize> = self.cache.remove(src_name);
        let dst: Option<usize> = self.cache.remove(dst_name);
        (src, dst)
    }

    /// Takes in that an entry was renamed from this directory to `dst_dir`.
    pub fn renamed_to(&mut self, src_name: &str, dst_dir: &mut DirNode, dst_name: &str) -> (r: (
        Option<usize>,
        Option<usize>,
    ))
        ensures
            final(self)@ == old(self)@.without(src_name@),
            final(dst_dir)@ == old(dst_dir)@.without(dst_name@),
            r.0 == old(self)@.cached(src_name@),
            r.1 == old(dst_dir)@.cached(dst_name@),
    {
        let src: Option<usize> = self.cache.remove(src_name);
        let dst: Option<usize> = dst_dir.cache.remove(dst_name);
        (src, dst)
    }

    /// Empties the cache and returns what was in it.
    pub(crate) fn take_entries(&mut self) -> (r: Vec<usize>)
        ensures
            final(self)@ == old(self)@.forgotten(),
            super::maps::lists_values(r@, old(self)@.cache),
            r@.len() == old(self)@.cache.len(),
    {
        let mut taken: NameMap = NameMap::new();
        std::mem::swap(&mut taken, &mut self.cache);
        taken.into_values()
    }
}

/// Whether an entry may be unlinked as what it is taken for.
pub fn check_unlink(entry_is_dir: bool, is_dir: bool) -> (r: Result<(), AxError>)
    ensures
        r == if entry_is_dir && !is_dir {
            Err::<(), AxError>(AxError::IsADirectory)
        } else if !entry_is_dir && is_dir {
            Err(AxError::NotADirectory)
        } else {
            Ok(())
        },
{
    if entry_is_dir && !is_dir {
        return Err(AxError::IsADirectory);
    }
    if !entry_is_dir && is_dir {
        return Err(AxError::NotADirectory);
    }
    Ok(())
}

/// Whether an entry may take the place of another: a directory only that of an
/// empty directory, anything else only that of what is no directory.
pub fn check_replace(src_is_dir: bool, dst: Option<RenameTarget>) -> (r: DirResult<()>)
    ensures
        r == match dst {
            None => Ok::<(), DirError>(()),
            Some(t) => if src_is_dir && t.is_dir {
                match t.has_children {
                    Err(code) => Err(DirError::Fs { code }),
                    Ok(true) => Err(DirError::Vfs(AxError::DirectoryNotEmpty)),
                    Ok(false) => Ok(()),
                }
            } else if src_is_dir {
                Err(DirError::Vfs(AxError::NotADirectory))
            } else if t.is_dir {
                Err(DirError::Vfs(AxError::IsADirectory))
            } else {
                Ok(())
            },
        },
{
    match dst {
        None => Ok(()),
        Some(t) => {
            if src_is_dir {
                if t.is_dir {
                    match t.has_children {
                        Err(code) => {
                            return Err(DirError::Fs { code });
                        },
                        Ok(has_children) => {
                            if has_children {
                                return Err(DirError::Vfs(AxError::DirectoryNotEmpty));
                            }
                        },
                    }
                    Ok(())
                } else {
                    Err(DirError::Vfs(AxError::NotADirectory))
                }
            } else if t.is_dir {
                Err(DirError::Vfs(AxError::IsADirectory))
            } else {
                Ok(())
            }
        },
    }
}

pub open spec fn dot() -> Seq<char> {
    seq!['.']
}

pub open spec fn dot_dot() -> Seq<char> {
    seq!['.', '.']
}

/// Whether a directory with these names holds anything: a name other than
/// those of itself and of its parent.
pub fn has_children(names: &Vec<String>) -> (r: bool)
    ensures
        r == exists|i: int|
            0 <= i < names@.len() && (#[trigger] names@[i])@ != dot() && names@[i]@ != dot_dot(),
{
    let one: String = ".".to_owned();
    let two: String = "..".to_owned();
    proof {
        reveal_strlit(".");
        reveal_strlit("..");
        assert(one@ =~= dot());
        assert(two@ =~= dot_dot());
    }
    let mut i: usize = 0;
    while i < names.len()
        invariant
            i <= names@.len(),
            one@ == dot(),
            two@ == dot_dot(),
            forall|k: int|
                0 <= k < i ==> (#[trigger] names@[k])@ == dot() || names@[k]@ == dot_dot(),
        decreases names@.len() - i,
    {
        if names[i] != one && names[i] != two {
            return true;
        }
        i = i + 1;
    }
    false
}

/// How an open goes on after the lookup: what exists is opened unless it had
/// to be new, and what is missing is created if it may be.
pub open spec fn open_step(found: FsResult<usize>, options: OpenOptions) -> OpenStep {
    match found {
        Ok(e) => if options.create_new {
            OpenStep::Done(Err(DirError::Vfs(AxError::AlreadyExists)))
        } else {
            OpenStep::Done(Ok(e))
        },
        Err(code) => if (code == NOT_FOUND_CODE || code == LINUX_ENOENT_CODE) && options.create {
            OpenStep::Create
        } else {
            OpenStep::Done(Err(DirError::Fs { code }))
        },
    }
}

/// Decides how an open goes on after the lookup.
pub fn open_file(found: FsResult<usize>, options: &OpenOptions) -> (r: OpenStep)
    requires
        found matches Err(code) ==> code != i32::MIN,
    ensures
        r == open_step(found, *options),
{
    match found {
        Ok(e) => {
            if options.create_new {
                OpenStep::Done(Err(DirError::Vfs(AxError::AlreadyExists)))
            } else {
                OpenStep::Done(Ok(e))
            }
        },
        Err(code) => {
            if canonicalize(code) == NOT_FOUND_CODE && options.create {
                OpenStep::Create
            } else {
                OpenStep::Done(Err(DirError::Fs { code }))
            }
        },
    }
}

/// With what permissions and for whom an entry is created, where `parent` are
/// the permissions and the group of the directory if they are known. In a
/// directory that hands its group on, the entry gets that group, and a
/// directory hands it on itself.
pub fn creation_of(options: &OpenOptions, parent: Option<(NodePermission, u32)>) -> (r: (
    NodePermission,
    Option<MetadataUpdate>,
))
    ensures
        ({
            let inherits = parent matches Some((mode, _)) && mode.spec_set_gid();
            &&& r.0 == if inherits && options.node_type == NodeType::Directory {
                options.permission.with_set_gid()
            } else {
                options.permission
            }
            &&& r.1 == match options.user {
                Some((uid, gid)) => Some(
                    MetadataUpdate {
                        mode: None,
                        owner: Some(
                            (
                                uid,
                                if inherits {
                                    (parent->0).1
                                } else {
                                    gid
                                },
                            ),
                        ),
                        atime: None,
                        mtime: None,
                    },
                ),
                None => None,
            }
        }),
{
    let mut permission: NodePermission = options.permission;
    let mut owner: Option<(u32, u32)> = options.user;
    if let Some((mode, gid)) = parent {
        if mode.has_set_gid() {
            if options.node_type == NodeType::Directory {
                permission = permission.add_set_gid();
            }
            if let Some((uid, _)) = owner {
                owner = Some((uid, gid));
            }
        }
    }
    let update: Option<MetadataUpdate> = if owner.is_some() {
        Some(MetadataUpdate { mode: None, owner, atime: None, mtime: None })
    } else {
        None
    };
    (permission, update)
}

/// What was looked up or created is found again from the cache.
pub proof fn lemma_lookup_after_insert(d: Dir, name: Seq<char>, e: usize)
    ensures
        d.with(name, e).cached(name) == Some(e),
        d.with(name, e).without(name).cached(name) is None,
        d.forgotten().cached(name) is None,
{
}

/// A directory whose names may not be cached caches none: whatever is looked
/// up, linked, unlinked, renamed or forgotten, its cache stays empty.
pub proof fn lemma_uncacheable_directory_caches_nothing(d: Dir, name: Seq<char>, entry: usize)
    requires
        !d.cacheable,
        d.cache == no_names(),
    ensures
        d.remembering(name, entry) == d,
        d.without(name).cache == no_names(),
        d.forgotten().cache == no_names(),
        d.cached(name) is None,
{
    assert(d.without(name).cache =~= no_names());
}

/// A name that was taken out of a directory is not found in its cache any more,
/// and other names are found as before. A directory that was told to forget
/// remembers no name.
pub proof fn lemma_removed_name_is_forgotten(d: Dir, name: Seq<char>, other: Seq<char>)
    ensures
        d.without(name).cached(name) is None,
        other != name ==> d.without(name).cached(other) == d.cached(other),
        d.without(name).cacheable == d.cacheable,
        d.forgotten().cached(name) is None,
        d.forgotten().cacheable == d.cacheable,
{
}

/// A name that was looked up or linked is remembered where names may be, and no
/// other name is affected.
pub proof fn lemma_found_name_is_remembered(d: Dir, name: Seq<char>, entry: usize, other: Seq<char>)
    ensures
        d.cacheable ==> d.remembering(name, entry).cached(name) == Some(entry),
        !d.cacheable ==> d.remembering(name, entry) == d,
        other != name ==> d.remembering(name, entry).cached(other) == d.cached(other),
{
}

/// How an open ends: what exists is opened unless it had to be new. What is
/// missing, by the kernel's error or by that of Linux, is created if it may be.
/// Every other error is the answer.
pub proof fn lemma_open(found: FsResult<usize>, options: OpenOptions)
    ensures
        found matches Ok(e) ==> open_step(found, options) == if options.create_new {
            OpenStep::Done(Err(DirError::Vfs(AxError::AlreadyExists)))
        } else {
            OpenStep::Done(Ok(e))
        },
        found matches Err(code) ==> {
            let missing = code == NOT_FOUND_CODE || code == LINUX_ENOENT_CODE;
            &&& missing && options.create ==> open_step(found, options) == OpenStep::Create
            &&& !missing || !options.create ==> open_step(found, options) == OpenStep::Done(
                Err(DirError::Fs { code }),
            )
        },
{
}

} // verus!
