//! Disks behind the AHCI controller of the Loongson 2K1000.
use vstd::prelude::*;

use crate::error::{DevError, DevResult};

verus! {

/// A disk: its size in blocks, and the size of a block.
#[derive(Clone, Copy, Debug, PartialEq, Eq, Structural)]
pub struct Ls2k1000Ahci {
    pub capacity_blocks: u64,
    pub block_size: usize,
}

impl Ls2k1000Ahci {
    pub open spec fn wf(self) -> bool {
        self.capacity_blocks > 0 && self.block_size > 0
    }

    /// The disk that a controller at `base` found, if it found one.
    pub fn try_new(base: usize, found: Option<(u64, usize)>) -> (r: DevResult<Self>)
        ensures
            r == if base == 0 {
                Err::<Ls2k1000Ahci, DevError>(DevError::InvalidParam)
            } else {
                match found {
                    Some((capacity_blocks, block_size)) if capacity_blocks > 0 && block_size > 0 => Ok(
                        Ls2k1000Ahci { capacity_blocks, block_size },
                    ),
                    _ => Err(DevError::Io),
                }
            },
            r matches Ok(d) ==> d.wf(),
    {
        if base == 0 {
            return Err(DevError::InvalidParam);
        }
        match found {
            None => Err(DevError::Io),
            Some((capacity_blocks, block_size)) => {
                if capacity_blocks == 0 || block_size == 0 {
                    return Err(DevError::Io);
                }
                Ok(Ls2k1000Ahci { capacity_blocks, block_size })
            },
        }
    }

    /// Whether a request can be asked of the disk: whole blocks, all of them on
    /// the disk.
    pub fn validate_request(&self, block_id: u64, len: usize) -> (r: DevResult<()>)
        requires
            self.wf(),
        ensures
            r == if len == 0 || len % self.block_size != 0 || block_id + len / self.block_size
                > u64::MAX {
                Err::<(), DevError>(DevError::InvalidParam)
            } else if block_id + len / self.block_size <= self.capacity_blocks {
                Ok(())
            } else {
                Err(DevError::Io)
            },
    {
        if len == 0 || len % self.block_size != 0 {
            return Err(DevError::InvalidParam);
        }
        let blocks: u64 = (len / self.block_size) as u64;
        match block_id.checked_add(blocks) {
            None => Err(DevError::InvalidParam),
            Some(end) => {
                if end <= self.capacity_blocks {
                    Ok(())
                } else {
                    Err(DevError::Io)
                }
            },
        }
    }

    /// How a request ended.
    pub fn completed(done: bool) -> (r: DevResult<()>)
        ensures
            r == if done {
                Ok::<(), DevError>(())
            } else {
                Err(DevError::Io)
            },
    {
        if done {
            Ok(())
        } else {
            Err(DevError::Io)
        }
    }
}

pub const NANOS_PER_MILLIS: u64 = 1_000_000;

/// The time in milliseconds.
pub fn current_ms(nanos: u64) -> (r: u64)
    ensures
        r == nanos / NANOS_PER_MILLIS,
{
    nanos / NANOS_PER_MILLIS
}

} // verus!
