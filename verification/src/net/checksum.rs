//! The checksum of the Internet protocols, and packets that carry it.
use vstd::prelude::*;

verus! {

pub const IPV4_HEADER_LEN: usize = 20;

pub const IPPROTO_ICMP: u8 = 1;

pub const DEFAULT_TTL: u8 = 64;

/// The sum of the words from the `i`-th byte on; an odd last byte is the first
/// of a word.
pub open spec fn word_sum(s: Seq<u8>, i: int) -> int
    decreases s.len() - i,
{
    if i < 0 || i >= s.len() {
        0
    } else if i + 1 == s.len() {
        s[i] * 0x100
    } else {
        s[i] * 0x100 + s[i + 1] + word_sum(s, i + 2)
    }
}

/// A sum with carries added back in: a number from 1 to 65535, or 0 for 0.
pub open spec fn ones_sum(n: int) -> int {
    if n == 0 {
        0
    } else {
        (n - 1) % 0xffff + 1
    }
}

/// The checksum of bytes: the complement of their sum.
pub open spec fn checksum(s: Seq<u8>) -> int {
    0xffff - ones_sum(word_sum(s, 0))
}

proof fn lemma_fold(n: int)
    requires
        n > 0xffff,
    ensures
        ones_sum(n % 0x1_0000 + n / 0x1_0000) == ones_sum(n),
        0 < n % 0x1_0000 + n / 0x1_0000 < n,
{
    let hi = n / 0x1_0000;
    let lo = n % 0x1_0000;
    assert(n == hi * 0x1_0000 + lo);
    assert(n - 1 == (lo + hi - 1) + hi * 0xffff);
    vstd::arithmetic::div_mod::lemma_mod_multiples_vanish(hi, lo + hi - 1, 0xffff);
    assert((lo + hi - 1 + 0xffff * hi) % 0xffff == (lo + hi - 1) % 0xffff);
}

/// The checksum of some bytes.
pub fn internet_checksum(bytes: &[u8]) -> (r: u16)
    requires
        bytes@.len() <= 0x2_0002,
    ensures
        r == checksum(bytes@),
{
    let mut sum: u32 = 0;
    let mut i: usize = 0;
    while i + 1 < bytes.len()
        invariant
            i <= bytes@.len() <= 0x2_0002,
            i % 2 == 0,
            sum <= (i as int / 2) * 0xffff,
            sum + word_sum(bytes@, i as int) == word_sum(bytes@, 0),
        decreases bytes@.len() - i,
    {
        sum = sum + (bytes[i] as u32 * 0x100 + bytes[i + 1] as u32);
        i = i + 2;
    }
    if i < bytes.len() {
        sum = sum + bytes[i] as u32 * 0x100;
    }
    let ghost total = sum as int;
    assert(total == word_sum(bytes@, 0));
    while sum > 0xffff
        invariant
            ones_sum(sum as int) == ones_sum(total),
            sum == 0 <==> total == 0,
            total >= 0,
        decreases sum,
    {
        proof {
            lemma_fold(sum as int);
        }
        sum = sum % 0x1_0000 + sum / 0x1_0000;
    }
    assert(ones_sum(sum as int) == sum) by {
        if sum > 0 {
            assert((sum - 1) % 0xffff == sum - 1);
        }
    }
    (0xffff - sum) as u16
}

/// The header of a packet with an ICMP message, but for the checksum.
pub open spec fn blank_header(total_len: int, source: Seq<u8>, destination: Seq<u8>) -> Seq<u8> {
    seq![
        0x45u8,
        0,
        (total_len / 0x100) as u8,
        (total_len % 0x100) as u8,
        0,
        0,
        0,
        0,
        DEFAULT_TTL,
        IPPROTO_ICMP,
        0,
        0,
        source[0],
        source[1],
        source[2],
        source[3],
        destination[0],
        destination[1],
        destination[2],
        destination[3],
    ]
}

/// The header with its checksum.
pub open spec fn ipv4_header(total_len: int, source: Seq<u8>, destination: Seq<u8>) -> Seq<u8> {
    let h = blank_header(total_len, source, destination);
    with_checksum(h, 10, checksum(h))
}

/// How long a packet says it is: the header counts, and the length fits its
/// field.
pub open spec fn packet_len(payload: nat) -> int {
    if IPV4_HEADER_LEN + payload <= 0xffff {
        IPV4_HEADER_LEN + payload
    } else {
        0xffff
    }
}

/// Bytes with a checksum put in at `i`, its high byte first.
pub open spec fn with_checksum(s: Seq<u8>, i: int, c: int) -> Seq<u8> {
    s.update(i, (c / 0x100) as u8).update(i + 1, (c % 0x100) as u8)
}

proof fn lemma_word_sum_with(s: Seq<u8>, i: int, c: int, k: int)
    requires
        0 <= i,
        i + 1 < s.len(),
        i % 2 == 0,
        s[i] == 0,
        s[i + 1] == 0,
        0 <= c <= 0xffff,
        0 <= k,
        k % 2 == 0,
    ensures
        word_sum(s, k) >= 0,
        word_sum(with_checksum(s, i, c), k) == word_sum(s, k) + if k <= i {
            c
        } else {
            0
        },
    decreases s.len() - k,
{
    if k + 1 < s.len() {
        lemma_word_sum_with(s, i, c, k + 2);
    }
}

/// Bytes that hold two zero bytes at an even place have the checksum zero once
/// their checksum stands there.
pub proof fn lemma_checksum_checks(s: Seq<u8>, i: int)
    requires
        0 <= i,
        i + 1 < s.len(),
        i % 2 == 0,
        s[i] == 0,
        s[i + 1] == 0,
    ensures
        checksum(with_checksum(s, i, checksum(s))) == 0,
{
    let n = word_sum(s, 0);
    let c = checksum(s);
    lemma_word_sum_with(s, i, 0, 0);
    assert(0 <= c <= 0xffff);
    lemma_word_sum_with(s, i, c, 0);
    if n > 0 {
        let q = (n - 1) / 0xffff;
        assert(n - 1 == q * 0xffff + (n - 1) % 0xffff);
        assert(n + c - 1 == 0xfffe + 0xffff * q);
        vstd::arithmetic::div_mod::lemma_mod_multiples_vanish(q, 0xfffe, 0xffff);
        assert((0xfffe + 0xffff * q) % 0xffff == 0xfffeint % 0xffff);
    }
}

/// A header with its checksum has the checksum zero.
pub proof fn lemma_header_checks(total_len: int, source: Seq<u8>, destination: Seq<u8>)
    requires
        source.len() == 4,
        destination.len() == 4,
        0 <= total_len <= 0xffff,
    ensures
        checksum(ipv4_header(total_len, source, destination)) == 0,
{
    lemma_checksum_checks(blank_header(total_len, source, destination), 10);
}

/// Writes a packet with an ICMP message, as far as there is room for it. Tells
/// how many bytes were written.
pub fn copy_raw_ipv4_packet(
    output: &mut [u8],
    payload: &[u8],
    source: [u8; 4],
    destination: [u8; 4],
) -> (copied: usize)
    ensures
        final(output)@.len() == old(output)@.len(),
        ({
            let total = packet_len(payload@.len());
            let packet = ipv4_header(total, source@, destination@) + payload@;
            &&& copied == if old(output)@.len() < total {
                old(output)@.len() as int
            } else {
                total
            }
            &&& final(output)@ == packet.take(copied as int) + old(output)@.skip(copied as int)
        }),
{
    let header_len: usize = IPV4_HEADER_LEN;
    let total_len: usize = if payload.len() <= 0xffff - header_len {
        header_len + payload.len()
    } else {
        0xffff
    };
    let copied_len: usize = if output.len() < total_len {
        output.len()
    } else {
        total_len
    };
    let mut header: [u8; 20] = [
        0x45,
        0,
        (total_len / 0x100) as u8,
        (total_len % 0x100) as u8,
        0,
        0,
        0,
        0,
        DEFAULT_TTL,
        IPPROTO_ICMP,
        0,
        0,
        source[0],
        source[1],
        source[2],
        source[3],
        destination[0],
        destination[1],
        destination[2],
        destination[3],
    ];
    assert(header@ =~= blank_header(total_len as int, source@, destination@));
    let sum: u16 = internet_checksum(&header);
    header[10] = (sum / 0x100) as u8;
    header[11] = (sum % 0x100) as u8;
    let ghost packet = ipv4_header(total_len as int, source@, destination@) + payload@;
    assert(header@ =~= ipv4_header(total_len as int, source@, destination@));
    let ghost before = output@;
    let mut i: usize = 0;
    while i < copied_len
        invariant
            i <= copied_len <= output@.len(),
            output@.len() == before.len(),
            header_len == 20,
            copied_len <= total_len <= 20 + payload@.len(),
            header@.len() == 20,
            packet == header@ + payload@,
            forall|k: int| 0 <= k < i ==> output@[k] == packet[k],
            forall|k: int| i <= k < output@.len() ==> output@[k] == before[k],
        decreases copied_len - i,
    {
        let b: u8 = if i < header_len {
            header[i]
        } else {
            payload[i - header_len]
        };
        output[i] = b;
        i = i + 1;
    }
    assert(output@ =~= packet.take(copied_len as int) + before.skip(copied_len as int));
    copied_len
}

/// What the header of a packet says: its version and length, the length of the
/// packet, that it may pass 64 routers, that it holds an ICMP message, and where it
/// comes from and goes to.
pub proof fn lemma_header_fields(total_len: int, source: Seq<u8>, destination: Seq<u8>, i: int)
    requires
        source.len() == 4,
        destination.len() == 4,
        0 <= total_len <= 0xffff,
        0 <= i < 4,
    ensures
        ({
            let h = ipv4_header(total_len, source, destination);
            &&& h.len() == 20
            &&& h[0] == 0x45
            &&& h[2] * 0x100 + h[3] == total_len
            &&& h[8] == 64
            &&& h[9] == 1
            &&& h[12 + i] == source[i]
            &&& h[16 + i] == destination[i]
        }),
{
}

/// A packet is as long as its header and its message, as far as that can be said.
pub proof fn lemma_packet_len(payload: nat)
    ensures
        payload <= 0xffff - 20 ==> packet_len(payload) == 20 + payload,
        payload > 0xffff - 20 ==> packet_len(payload) == 0xffff,
{
}

} // verus!
