//! What is known of a node.
use vstd::prelude::*;

verus! {

#[derive(Debug, Clone, Copy, PartialEq, Eq, Structural)]
pub enum NodeType {
    Unknown,
    Fifo,
    CharacterDevice,
    Directory,
    BlockDevice,
    RegularFile,
    Symlink,
    Socket,
}

/// The permission bits of a node.
#[derive(Debug, Clone, Copy, PartialEq, Eq, Structural)]
pub struct NodePermission {
    pub bits: u16,
}

/// Entries of a directory with this bit take its group.
pub const SET_GID: u16 = 0x400;

impl NodePermission {
    pub open spec fn spec_set_gid(self) -> bool {
        self.bits & SET_GID == SET_GID
    }

    pub open spec fn with_set_gid(self) -> Self {
        NodePermission { bits: self.bits | SET_GID }
    }

    pub fn has_set_gid(&self) -> (r: bool)
        ensures
            r == self.spec_set_gid(),
    {
        self.bits & SET_GID == SET_GID
    }

    pub fn add_set_gid(self) -> (r: Self)
        ensures
            r == self.with_set_gid(),
            r.spec_set_gid(),
    {
        let b: u16 = self.bits;
        assert((b | 0x400) & 0x400 == 0x400) by (bit_vector);
        NodePermission { bits: self.bits | SET_GID }
    }
}

/// A point in time.
#[derive(Debug, Clone, Copy, PartialEq, Eq, Structural)]
pub struct Timestamp {
    pub secs: u64,
    pub nanos: u32,
}

/// The part of a node's metadata that can change.
#[derive(Debug, Clone, Copy, PartialEq, Eq, Structural)]
pub struct Metadata {
    pub device: u64,
    pub inode: u64,
    pub node_type: NodeType,
    pub mode: NodePermission,
    pub uid: u32,
    pub gid: u32,
    pub atime: Timestamp,
    pub mtime: Timestamp,
}

/// A change of metadata; what is not given stays.
#[derive(Debug, Clone, Copy, PartialEq, Eq)]
pub struct MetadataUpdate {
    pub mode: Option<NodePermission>,
    pub owner: Option<(u32, u32)>,
    pub atime: Option<Timestamp>,
    pub mtime: Option<Timestamp>,
}

impl Metadata {
    /// The metadata after a change.
    pub open spec fn updated(self, u: MetadataUpdate) -> Self {
        Metadata {
            mode: match u.mode {
                Some(mode) => mode,
                None => self.mode,
            },
            uid: match u.owner {
                Some((uid, _)) => uid,
                None => self.uid,
            },
            gid: match u.owner {
                Some((_, gid)) => gid,
                None => self.gid,
            },
            atime: match u.atime {
                Some(t) => t,
                None => self.atime,
            },
            mtime: match u.mtime {
                Some(t) => t,
                None => self.mtime,
            },
            ..self
        }
    }
}

/// Makes the changes that `update` names.
pub fn update_metadata_impl(metadata: &mut Metadata, update: MetadataUpdate)
    ensures
        *final(metadata) == old(metadata).updated(update),
{
    if let Some(mode) = update.mode {
        metadata.mode = mode;
    }
    if let Some((uid, gid)) = update.owner {
        metadata.uid = uid;
        metadata.gid = gid;
    }
    if let Some(atime) = update.atime {
        metadata.atime = atime;
    }
    if let Some(mtime) = update.mtime {
        metadata.mtime = mtime;
    }
}

/// Making a change a second time makes no difference.
pub proof fn lemma_update_twice(m: Metadata, u: MetadataUpdate)
    ensures
        m.updated(u).updated(u) == m.updated(u),
{
}

/// What a file system says of itself.
#[derive(Debug, Clone, Copy, PartialEq, Eq, Structural)]
pub struct StatFs {
    pub fs_type: u32,
    pub block_size: u32,
    pub blocks: u64,
    pub blocks_free: u64,
    pub blocks_available: u64,
    pub file_count: u64,
    pub free_file_count: u64,
    pub name_length: u32,
    pub fragment_size: u32,
    pub mount_flags: u32,
}

} // verus!
