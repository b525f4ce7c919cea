//! Descriptors of the DWMAC's rings.
use vstd::prelude::*;

verus! {

/// How many bytes a descriptor has.
pub const DESC_SIZE: usize = 16;

pub const OWN: u32 = 0x8000_0000;

pub const TX_IOC: u32 = 0x8000_0000;

pub const TX_FIRST: u32 = 0x2000_0000;

pub const TX_LAST: u32 = 0x1000_0000;

pub const RX_IOC: u32 = 0x4000_0000;

pub const RX_BUFFER1_VALID: u32 = 0x0100_0000;

pub const RX_FIRST: u32 = 0x2000_0000;

pub const RX_LAST: u32 = 0x1000_0000;

pub const RX_ERROR: u32 = 0x8000;

pub const RX_PACKET_LEN: u32 = 0x7fff;

/// A descriptor of a buffer.
#[derive(Clone, Copy, Debug)]
pub struct DmaDesc {
    pub words: [u32; 4],
}

/// Whether the bit with value `bit` is set.
pub open spec fn has_bit(word: u32, bit: int) -> bool {
    (word as int / bit) % 2 == 1
}

/// Whether the device owns a descriptor with this status.
pub open spec fn is_owned(status: u32) -> bool {
    status >= OWN
}

/// The length of the frame in a buffer, by the status of its descriptor: none
/// while the device owns it, after an error, and for a part of a frame.
pub open spec fn frame_len(status: u32) -> Option<int> {
    if is_owned(status) || has_bit(status, 0x8000) || !has_bit(status, 0x2000_0000) || !has_bit(
        status,
        0x1000_0000,
    ) {
        None
    } else {
        Some(status as int % 0x8000)
    }
}

proof fn lemma_status_bits(s: u32)
    ensures
        (s & OWN != 0) == is_owned(s),
        (s & RX_ERROR != 0) == has_bit(s, 0x8000),
        (s & RX_FIRST == 0) == !has_bit(s, 0x2000_0000),
        (s & RX_LAST == 0) == !has_bit(s, 0x1000_0000),
        s & RX_PACKET_LEN == s % 0x8000,
{
    assert((s & 0x8000_0000 != 0) == (s >= 0x8000_0000) && (s & 0x8000 != 0) == ((s / 0x8000) % 2
        == 1) && (s & 0x2000_0000 == 0) == ((s / 0x2000_0000) % 2 != 1) && (s & 0x1000_0000 == 0)
        == ((s / 0x1000_0000) % 2 != 1) && s & 0x7fff == s % 0x8000) by (bit_vector);
}

impl DmaDesc {
    /// A buffer for a frame to come.
    pub fn rx(buffer_addr: u64) -> (r: Self)
        ensures
            r.words@ == seq![
                (buffer_addr % 0x1_0000_0000) as u32,
                (buffer_addr / 0x1_0000_0000) as u32,
                0u32,
                0xc100_0000u32,
            ],
    {
        assert(0x8000_0000u32 | 0x4000_0000u32 | 0x0100_0000u32 == 0xc100_0000u32) by (bit_vector);
        assert(buffer_addr as u32 == buffer_addr % 0x1_0000_0000 && buffer_addr >> 32 == buffer_addr
            / 0x1_0000_0000) by (bit_vector);
        let words: [u32; 4] = [
            buffer_addr as u32,
            (buffer_addr >> 32) as u32,
            0,
            OWN | RX_IOC | RX_BUFFER1_VALID,
        ];
        assert(words@ =~= seq![
            (buffer_addr % 0x1_0000_0000) as u32,
            (buffer_addr / 0x1_0000_0000) as u32,
            0u32,
            0xc100_0000u32,
        ]);
        DmaDesc { words }
    }

    /// A buffer with one frame to send.
    pub fn tx(buffer_addr: u64, packet_len: u32) -> (r: Self)
        requires
            packet_len < 0x8000,
        ensures
            r.words@ == seq![
                (buffer_addr % 0x1_0000_0000) as u32,
                (buffer_addr / 0x1_0000_0000) as u32,
                (0x8000_0000u32 + packet_len) as u32,
                (0xb000_0000u32 + packet_len) as u32,
            ],
    {
        assert(packet_len | 0x8000_0000u32 == 0x8000_0000 + packet_len && packet_len
            | 0x2000_0000u32 | 0x1000_0000u32 | 0x8000_0000u32 == 0xb000_0000 + packet_len)
            by (bit_vector)
            requires
                packet_len < 0x8000,
        ;
        assert(buffer_addr as u32 == buffer_addr % 0x1_0000_0000 && buffer_addr >> 32 == buffer_addr
            / 0x1_0000_0000) by (bit_vector);
        let words: [u32; 4] = [
            buffer_addr as u32,
            (buffer_addr >> 32) as u32,
            packet_len | TX_IOC,
            packet_len | TX_FIRST | TX_LAST | OWN,
        ];
        assert(words@ =~= seq![
            (buffer_addr % 0x1_0000_0000) as u32,
            (buffer_addr / 0x1_0000_0000) as u32,
            (0x8000_0000u32 + packet_len) as u32,
            (0xb000_0000u32 + packet_len) as u32,
        ]);
        DmaDesc { words }
    }

    pub fn empty() -> (r: Self)
        ensures
            r.words@ == seq![0u32, 0, 0, 0],
    {
        let words: [u32; 4] = [0, 0, 0, 0];
        assert(words@ =~= seq![0u32, 0, 0, 0]);
        DmaDesc { words }
    }

    pub fn owned_by_dma(&self) -> (r: bool)
        ensures
            r == is_owned(self.words@[3]),
    {
        proof {
            lemma_status_bits(self.words@[3]);
        }
        self.words[3] & OWN != 0
    }

    pub fn status_word(&self) -> (r: u32)
        ensures
            r == self.words@[3],
    {
        self.words[3]
    }

    pub fn control_word(&self) -> (r: u32)
        ensures
            r == self.words@[2],
    {
        self.words[2]
    }

    /// The length of the frame in the buffer.
    pub fn received_len(&self) -> (r: Option<u32>)
        ensures
            match r {
                Some(n) => frame_len(self.words@[3]) == Some(n as int),
                None => frame_len(self.words@[3]) is None,
            },
    {
        let status: u32 = self.words[3];
        proof {
            lemma_status_bits(status);
        }
        if status & OWN != 0 || status & RX_ERROR != 0 || status & RX_FIRST == 0 || status & RX_LAST
            == 0 {
            None
        } else {
            Some(status & RX_PACKET_LEN)
        }
    }
}

/// A descriptor that waits for a frame, or has one to send, belongs to the
/// device; an empty one does not.
pub proof fn lemma_ownership(packet_len: u32)
    requires
        packet_len < 0x8000,
    ensures
        is_owned(0xc100_0000u32),
        is_owned((0xb000_0000u32 + packet_len) as u32),
        !is_owned(0u32),
{
}

/// A frame of a length that the device wrote back whole has that length.
pub proof fn lemma_whole_frame_has_its_length(packet_len: u32)
    requires
        packet_len < 0x8000,
    ensures
        frame_len((0x3000_0000u32 + packet_len) as u32) == Some(packet_len as int),
{
}

/// The two words of an address give it back.
pub proof fn lemma_address_is_kept(buffer_addr: u64)
    ensures
        (buffer_addr % 0x1_0000_0000) + (buffer_addr / 0x1_0000_0000) * 0x1_0000_0000
            == buffer_addr,
{
}

/// A buffer holds a frame exactly if the device is done with it, met no error, and
/// put the whole frame there.
pub proof fn lemma_only_whole_frames_count(status: u32)
    ensures
        frame_len(status) is Some <==> status < 0x8000_0000 && (status as int / 0x8000) % 2 == 0 && (
        status as int / 0x2000_0000) % 2 == 1 && (status as int / 0x1000_0000) % 2 == 1,
        frame_len(status) is Some ==> frame_len(status) == Some(status as int % 0x8000),
{
}

} // verus!
