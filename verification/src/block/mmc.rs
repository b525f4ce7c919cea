//! Cards behind the SD/MMC controller of the StarFive JH7110.
use vstd::prelude::*;

use crate::error::{DevError, DevResult};

verus! {

pub const BLOCK_SIZE: usize = 512;

/// The fastest clock at which the processor keeps up with a card.
pub const JH7110_PIO_TRANSFER_CLOCK_HZ: u32 = 6_250_000;

/// The controller buffers this many words.
pub const JH7110_FIFO_DEPTH_WORDS: u32 = 32;

/// The register for the thresholds of the buffer, for a buffer of `depth` words:
/// bursts of eight, receiving above half less one, sending at half.
pub fn fifo_threshold(depth: u32) -> (r: u32)
    requires
        2 <= depth < 0x2000,
    ensures
        r == 2 * 0x1000_0000 + (depth / 2 - 1) * 0x1_0000 + depth / 2,
{
    let half: u32 = depth / 2;
    2 * 0x1000_0000 + (half - 1) * 0x1_0000 + half
}

/// The threshold register of this controller.
pub fn jh7110_fifoth() -> (r: u32)
    ensures
        r == 0x200f_0010,
{
    fifo_threshold(JH7110_FIFO_DEPTH_WORDS)
}

/// By how much the reference clock is divided, half a period at a time.
pub fn clock_divider(reference_hz: u32, target_hz: u32) -> (r: u32)
    requires
        0 < target_hz <= 0x7fff_ffff,
    ensures
        r == reference_hz as int / (2 * target_hz),
{
    reference_hz / (2 * target_hz)
}

/// Why a card did not do what it was asked.
#[derive(Clone, Copy, Debug, PartialEq, Eq, Structural)]
pub enum CardError {
    Busy,
    InvalidArgument,
    Misaligned,
    UnsupportedCommand,
    Timeout,
    Other,
}

pub open spec fn spec_map_error(e: CardError) -> DevError {
    match e {
        CardError::Busy => DevError::ResourceBusy,
        CardError::InvalidArgument => DevError::InvalidParam,
        CardError::Misaligned => DevError::InvalidParam,
        CardError::UnsupportedCommand => DevError::Unsupported,
        _ => DevError::Io,
    }
}

pub fn map_error(e: CardError) -> (r: DevError)
    ensures
        r == spec_map_error(e),
{
    match e {
        CardError::Busy => DevError::ResourceBusy,
        CardError::InvalidArgument => DevError::InvalidParam,
        CardError::Misaligned => DevError::InvalidParam,
        CardError::UnsupportedCommand => DevError::Unsupported,
        _ => DevError::Io,
    }
}

/// Whether a request can be asked of a card: whole blocks, all of them on the
/// card, the first with a number that fits the command.
pub open spec fn is_valid_request(block_id: u64, len: usize, capacity_blocks: u64) -> bool {
    &&& len > 0
    &&& len % BLOCK_SIZE == 0
    &&& block_id <= u32::MAX
    &&& block_id + len / BLOCK_SIZE <= capacity_blocks
}

pub fn validate_request(block_id: u64, len: usize, capacity_blocks: u64) -> (r: DevResult<()>)
    ensures
        r == if is_valid_request(block_id, len, capacity_blocks) {
            Ok::<(), DevError>(())
        } else {
            Err(DevError::InvalidParam)
        },
        r is Ok <==> len > 0 && len % 512 == 0 && block_id <= 0xffff_ffff && block_id + len / 512
            <= capacity_blocks,
{
    if len == 0 || len % BLOCK_SIZE != 0 || block_id > u32::MAX as u64 {
        return Err(DevError::InvalidParam);
    }
    let blocks: u64 = (len / BLOCK_SIZE) as u64;
    match block_id.checked_add(blocks) {
        None => Err(DevError::InvalidParam),
        Some(end) => {
            if end > capacity_blocks {
                Err(DevError::InvalidParam)
            } else {
                Ok(())
            }
        },
    }
}

/// The number of the block with an index in a request.
pub fn nth_block(first_block: u32, index: u32) -> (r: DevResult<u32>)
    ensures
        r == if first_block + index <= u32::MAX {
            Ok::<u32, DevError>((first_block + index) as u32)
        } else {
            Err(DevError::InvalidParam)
        },
{
    match first_block.checked_add(index) {
        Some(b) => Ok(b),
        None => Err(DevError::InvalidParam),
    }
}

/// How far a card is with what it was asked.
#[derive(Clone, Copy, Debug, PartialEq, Eq, Structural)]
pub enum CardPoll {
    Pending,
    Complete,
    /// Something that no request of this driver leads to.
    Unexpected,
    Failed { error: CardError },
}

/// How a driver goes on that waits for a card.
#[derive(Clone, Copy, Debug, PartialEq, Eq, Structural)]
pub enum CardStep {
    Done,
    Error { error: CardError },
    /// It polls again, at once or after a pause.
    PollAgain { pause: bool },
}

pub open spec fn spec_card_step(expired: bool, poll: CardPoll, needs_pace: bool) -> CardStep {
    if expired {
        CardStep::Error { error: CardError::Timeout }
    } else {
        match poll {
            CardPoll::Failed { error } => CardStep::Error { error },
            CardPoll::Pending => CardStep::PollAgain { pause: needs_pace },
            CardPoll::Complete => CardStep::Done,
            CardPoll::Unexpected => CardStep::Error { error: CardError::UnsupportedCommand },
        }
    }
}

/// The next step of a driver that sets a card up or moves a block. Once the time
/// has run out, the card is not polled any more.
pub fn card_step(expired: bool, poll: CardPoll, needs_pace: bool) -> (r: CardStep)
    ensures
        r == spec_card_step(expired, poll, needs_pace),
{
    if expired {
        return CardStep::Error { error: CardError::Timeout };
    }
    match poll {
        CardPoll::Failed { error } => CardStep::Error { error },
        CardPoll::Pending => CardStep::PollAgain { pause: needs_pace },
        CardPoll::Complete => CardStep::Done,
        CardPoll::Unexpected => CardStep::Error { error: CardError::UnsupportedCommand },
    }
}

/// How the steps of setting a card up ended; each comes only after the one
/// before succeeded.
pub struct CardSetup {
    /// The address of the controller.
    pub base: usize,
    pub reset: Result<(), CardError>,
    /// What the card said of its size, in blocks.
    pub init: Result<Option<u64>, CardError>,
    pub clock: Result<(), CardError>,
}

pub open spec fn spec_card_capacity(s: CardSetup) -> DevResult<u64> {
    if s.base == 0 {
        Err(DevError::InvalidParam)
    } else {
        match (s.reset, s.init, s.clock) {
            (Err(e), _, _) => Err(spec_map_error(e)),
            (_, Err(e), _) => Err(spec_map_error(e)),
            (_, _, Err(e)) => Err(spec_map_error(e)),
            (Ok(_), Ok(capacity), Ok(_)) => match capacity {
                None => Err(DevError::Unsupported),
                Some(n) => if n == 0 {
                    Err(DevError::Io)
                } else {
                    Ok(n)
                },
            },
        }
    }
}

/// The size of a card that was set up.
pub fn try_new(s: CardSetup) -> (r: DevResult<u64>)
    ensures
        r == spec_card_capacity(s),
{
    if s.base == 0 {
        return Err(DevError::InvalidParam);
    }
    if let Err(e) = s.reset {
        return Err(map_error(e));
    }
    let capacity: Option<u64> = match s.init {
        Ok(c) => c,
        Err(e) => {
            return Err(map_error(e));
        },
    };
    if let Err(e) = s.clock {
        return Err(map_error(e));
    }
    match capacity {
        None => Err(DevError::Unsupported),
        Some(n) => {
            if n == 0 {
                Err(DevError::Io)
            } else {
                Ok(n)
            }
        },
    }
}

/// Every block of a valid request is on the card.
pub proof fn lemma_blocks_are_on_card(block_id: u64, len: usize, capacity: u64, index: int)
    requires
        is_valid_request(block_id, len, capacity),
        0 <= index < len / BLOCK_SIZE,
    ensures
        block_id + index < capacity,
{
}

} // verus!
