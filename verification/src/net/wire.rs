//! What comes in over the wire.
use vstd::prelude::*;

use smoltcp::wire::{EthernetFrame, Ipv4Packet, TcpPacket};

verus! {

/// The number that two bytes stand for, the first being the most significant.
pub open spec fn be16(s: Seq<u8>, i: int) -> int {
    s[i] * 0x100 + s[i + 1]
}

/// The payload of an Ethernet frame: what follows its header, if it has one.
pub open spec fn frame_payload(s: Seq<u8>) -> Option<Seq<u8>> {
    if s.len() < 14 {
        None
    } else {
        Some(s.subrange(14, s.len() as int))
    }
}

/// What an IPv4 packet says.
pub struct Ipv4Info {
    pub src: [u8; 4],
    pub dst: [u8; 4],
    pub protocol: u8,
    pub payload: Vec<u8>,
}

pub ghost struct Ipv4View {
    pub src: Seq<u8>,
    pub dst: Seq<u8>,
    pub protocol: u8,
    pub payload: Seq<u8>,
}

impl Ipv4Info {
    pub open spec fn view(&self) -> Ipv4View {
        Ipv4View {
            src: self.src@,
            dst: self.dst@,
            protocol: self.protocol,
            payload: self.payload@,
        }
    }
}

/// An IPv4 packet: at least twenty bytes came in, the length it gives its header
/// lies within the length it gives itself, and both within what came in.
pub open spec fn ipv4_packet(s: Seq<u8>) -> Option<Ipv4View> {
    let header = (s[0] % 16) * 4;
    let total = be16(s, 2);
    if s.len() < 20 || s.len() < header || header > total || s.len() < total {
        None
    } else {
        Some(
            Ipv4View {
                src: s.subrange(12, 16),
                dst: s.subrange(16, 20),
                protocol: s[9],
                payload: s.subrange(header, total),
            },
        )
    }
}

/// What a TCP packet says.
#[derive(Clone, Copy, Debug, PartialEq, Eq, Structural)]
pub struct TcpInfo {
    pub src_port: u16,
    pub dst_port: u16,
    pub syn: bool,
    pub ack: bool,
}

/// A TCP packet: its header has at least twenty bytes and lies within what came
/// in.
pub open spec fn tcp_packet(s: Seq<u8>) -> Option<TcpInfo> {
    let header = (s[12] / 16) * 4;
    if s.len() < 20 || s.len() < header || header < 20 {
        None
    } else {
        Some(
            TcpInfo {
                src_port: be16(s, 0) as u16,
                dst_port: be16(s, 2) as u16,
                syn: (s[13] / 2) % 2 == 1,
                ack: (s[13] / 16) % 2 == 1,
            },
        )
    }
}

/// `smoltcp::wire::EthernetFrame::new_checked` and `payload`: what follows the
/// first fourteen bytes, and an error exactly where there are fewer.
#[verifier::external_body]
fn ethernet_payload(buf: &[u8]) -> (r: Option<Vec<u8>>)
    ensures
        match r {
            Some(p) => frame_payload(buf@) == Some(p@),
            None => frame_payload(buf@) is None,
        },
{
    EthernetFrame::new_checked(buf).ok().map(|f| f.payload().to_vec())
}

/// `smoltcp::wire::Ipv4Packet::new_checked` and the packet's addresses, protocol
/// and payload: the fields of the header, and an error exactly where the
/// lengths in it do not fit what came in. The version is not looked at.
#[verifier::external_body]
fn read_ipv4(buf: &[u8]) -> (r: Option<Ipv4Info>)
    ensures
        match r {
            Some(p) => ipv4_packet(buf@) == Some(p@),
            None => ipv4_packet(buf@) is None,
        },
{
    Ipv4Packet::new_checked(buf).ok().map(|p| Ipv4Info {
        src: p.src_addr().octets(),
        dst: p.dst_addr().octets(),
        protocol: u8::from(p.next_header()),
        payload: p.payload().to_vec(),
    })
}

/// `smoltcp::wire::TcpPacket::new_checked` and the packet's ports and flags: the
/// fields of the header, and an error exactly where the length in it does not
/// fit what came in.
#[verifier::external_body]
fn read_tcp(buf: &[u8]) -> (r: Option<TcpInfo>)
    ensures
        r == tcp_packet(buf@),
{
    TcpPacket::new_checked(buf).ok().map(|p| TcpInfo {
        src_port: p.src_port(),
        dst_port: p.dst_port(),
        syn: p.syn(),
        ack: p.ack(),
    })
}

pub const PROTOCOL_TCP: u8 = 6;

/// A packet that opens a connection: whence and whereto.
#[derive(Clone, Copy, Debug)]
pub struct FirstPacket {
    pub src: [u8; 4],
    pub src_port: u16,
    pub dst: [u8; 4],
    pub dst_port: u16,
}

/// How looking for a packet that opens a connection ends.
pub enum Snoop {
    First { packet: FirstPacket },
    /// Another packet.
    Other,
    /// Not a packet that can be read.
    Malformed,
}

/// The IPv4 packet in a frame.
pub open spec fn frame_ipv4(buf: Seq<u8>) -> Option<Ipv4View> {
    match frame_payload(buf) {
        Some(p) => ipv4_packet(p),
        None => None,
    }
}

/// Looks for a packet that opens a connection: TCP, with SYN and without ACK.
pub fn snoop_tcp_packet(buf: &[u8]) -> (r: Snoop)
    ensures
        match frame_ipv4(buf@) {
            None => r is Malformed,
            Some(ip) => if ip.protocol != PROTOCOL_TCP {
                r is Other
            } else {
                match tcp_packet(ip.payload) {
                    None => r is Malformed,
                    Some(tcp) => if tcp.syn && !tcp.ack {
                        &&& r matches Snoop::First { packet } && packet.src@ == ip.src
                            && packet.src_port == tcp.src_port && packet.dst@ == ip.dst
                            && packet.dst_port == tcp.dst_port
                    } else {
                        r is Other
                    },
                }
            },
        },
{
    let payload: Vec<u8> = match ethernet_payload(buf) {
        Some(p) => p,
        None => {
            return Snoop::Malformed;
        },
    };
    let ip: Ipv4Info = match read_ipv4(payload.as_slice()) {
        Some(p) => p,
        None => {
            return Snoop::Malformed;
        },
    };
    if ip.protocol != PROTOCOL_TCP {
        return Snoop::Other;
    }
    match read_tcp(ip.payload.as_slice()) {
        None => Snoop::Malformed,
        Some(tcp) => {
            if tcp.syn && !tcp.ack {
                Snoop::First {
                    packet: FirstPacket {
                        src: ip.src,
                        src_port: tcp.src_port,
                        dst: ip.dst,
                        dst_port: tcp.dst_port,
                    },
                }
            } else {
                Snoop::Other
            }
        },
    }
}

} // verus!
