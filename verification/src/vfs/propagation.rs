//! How mounts and unmounts spread to other mounts.
use vstd::prelude::*;

verus! {

/// How a mount takes part in propagation.
#[derive(Debug, Clone, Copy, PartialEq, Eq, Structural)]
pub enum PropagationMode {
    /// Not at all.
    Private,
    /// Mounts below it spread to the other members of its group.
    Shared { peer_group: u64 },
    /// It receives what spreads in the group of its master.
    Slave { master_group: u64 },
    /// Both.
    SharedAndSlave { peer_group: u64, master_group: u64 },
    /// Not at all, and it cannot be bound elsewhere.
    Unbindable,
}

impl PropagationMode {
    pub open spec fn spec_peer_group(self) -> Option<u64> {
        match self {
            PropagationMode::Shared { peer_group } => Some(peer_group),
            PropagationMode::SharedAndSlave { peer_group, .. } => Some(peer_group),
            _ => None,
        }
    }

    pub open spec fn spec_master_group(self) -> Option<u64> {
        match self {
            PropagationMode::Slave { master_group } => Some(master_group),
            PropagationMode::SharedAndSlave { master_group, .. } => Some(master_group),
            _ => None,
        }
    }

    /// Whether the mount belongs to group `g`, as a peer or as a slave.
    pub open spec fn mentions(self, g: u64) -> bool {
        self.spec_peer_group() == Some(g) || self.spec_master_group() == Some(g)
    }

    pub fn is_shared(self) -> (r: bool)
        ensures
            r == self.spec_peer_group() is Some,
            r == (self is Shared || self is SharedAndSlave),
    {
        match self {
            PropagationMode::Shared { .. } | PropagationMode::SharedAndSlave { .. } => true,
            _ => false,
        }
    }

    pub fn is_slave(self) -> (r: bool)
        ensures
            r == self.spec_master_group() is Some,
            r == (self is Slave || self is SharedAndSlave),
    {
        match self {
            PropagationMode::Slave { .. } | PropagationMode::SharedAndSlave { .. } => true,
            _ => false,
        }
    }

    pub fn peer_group(self) -> (r: Option<u64>)
        ensures
            r == self.spec_peer_group(),
            self matches PropagationMode::Shared { peer_group } ==> r == Some(peer_group),
            self matches PropagationMode::SharedAndSlave { peer_group, .. } ==> r == Some(
                peer_group,
            ),
            !(self is Shared) && !(self is SharedAndSlave) ==> r is None,
    {
        match self {
            PropagationMode::Shared { peer_group } => Some(peer_group),
            PropagationMode::SharedAndSlave { peer_group, .. } => Some(peer_group),
            _ => None,
        }
    }

    pub fn master_group(self) -> (r: Option<u64>)
        ensures
            r == self.spec_master_group(),
            self matches PropagationMode::Slave { master_group } ==> r == Some(master_group),
            self matches PropagationMode::SharedAndSlave { master_group, .. } ==> r == Some(
                master_group,
            ),
            !(self is Slave) && !(self is SharedAndSlave) ==> r is None,
    {
        match self {
            PropagationMode::Slave { master_group } => Some(master_group),
            PropagationMode::SharedAndSlave { master_group, .. } => Some(master_group),
            _ => None,
        }
    }
}

} // verus!
