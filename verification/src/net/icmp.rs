//! Sockets for ICMP messages, and how operations on sockets wait.
use vstd::prelude::*;

use crate::error::{AxError, AxResult};
use crate::task::time::TimeValue;
use super::checksum::{IPV4_HEADER_LEN, copy_raw_ipv4_packet, ipv4_header, packet_len};
use super::sockets::{IoEvents, IpAddress};

verus! {

/// A socket that sends and receives echo messages with one identifier, the one
/// of the first message that it sends.
#[derive(Clone, Copy, Debug, PartialEq, Eq, Structural)]
pub struct IcmpSocket {
    pub ident: Option<u16>,
    pub nonblock: bool,
    /// In ticks; zero is no limit.
    pub rcv_timeout: u64,
    pub snd_timeout: u64,
}

/// Why the stack refused to bind.
#[derive(Clone, Copy, Debug, PartialEq, Eq, Structural)]
pub enum BindError {
    InvalidState,
    Unaddressable,
}

/// Why the stack refused to send.
#[derive(Clone, Copy, Debug, PartialEq, Eq, Structural)]
pub enum SendError {
    BufferFull,
    Unaddressable,
}

/// Why the stack had nothing to give.
#[derive(Clone, Copy, Debug, PartialEq, Eq, Structural)]
pub enum RecvError {
    Exhausted,
    Truncated,
}

/// Whether a message can be sent to an address: IPv4, one machine, an echo
/// request or reply.
pub open spec fn spec_check_send(message: Seq<u8>, remote: IpAddress) -> AxResult<u16> {
    match remote {
        IpAddress::V4(a) if a != 0 => if message.len() < 8 || (message[0] != 0 && message[0] != 8) {
            Err(AxError::Unsupported)
        } else {
            Ok((message[4] * 0x100 + message[5]) as u16)
        },
        _ => Err(AxError::InvalidInput),
    }
}

/// The identifier of a message that can be sent.
pub fn check_send(message: &[u8], remote: IpAddress) -> (r: AxResult<u16>)
    ensures
        r == spec_check_send(message@, remote),
        r matches Ok(ident) ==> message@.len() >= 8 && (message@[0] == 0 || message@[0] == 8)
            && ident == message@[4] * 0x100 + message@[5] && (remote matches IpAddress::V4(a) && a
            != 0),
        r == Err::<u16, AxError>(AxError::InvalidInput) <==> remote is V6 || remote
            == IpAddress::V4(0),
{
    match remote {
        IpAddress::V4(a) => {
            if a == 0 {
                return Err(AxError::InvalidInput);
            }
        },
        IpAddress::V6(_) => {
            return Err(AxError::InvalidInput);
        },
    }
    if message.len() < 8 || (message[0] != 0 && message[0] != 8) {
        return Err(AxError::Unsupported);
    }
    Ok(message[4] as u16 * 0x100 + message[5] as u16)
}

/// What the stack says of a socket that is to send.
#[derive(Clone, Copy, Debug, PartialEq, Eq)]
pub enum SendState {
    Closed,
    /// There is no room now.
    Full,
    Sent { result: Result<(), SendError> },
}

/// How an attempt to send `len` bytes ends.
pub fn send_result(state: SendState, len: usize) -> (r: AxResult<usize>)
    ensures
        r == match state {
            SendState::Closed => Err::<usize, AxError>(AxError::NotConnected),
            SendState::Full => Err(AxError::WouldBlock),
            SendState::Sent { result } => match result {
                Ok(_) => Ok(len),
                Err(SendError::BufferFull) => Err(AxError::WouldBlock),
                Err(SendError::Unaddressable) => Err(AxError::InvalidInput),
            },
        },
{
    match state {
        SendState::Closed => Err(AxError::NotConnected),
        SendState::Full => Err(AxError::WouldBlock),
        SendState::Sent { result } => match result {
            Ok(_) => Ok(len),
            Err(SendError::BufferFull) => Err(AxError::WouldBlock),
            Err(SendError::Unaddressable) => Err(AxError::InvalidInput),
        },
    }
}

/// Whether a message can be taken from the stack: from a socket that is open and
/// has one.
pub fn recv_result(open: bool, can_recv: bool) -> (r: AxResult<()>)
    ensures
        r == if !open {
            Err::<(), AxError>(AxError::NotConnected)
        } else if !can_recv {
            Err(AxError::WouldBlock)
        } else {
            Ok(())
        },
{
    if !open {
        Err(AxError::NotConnected)
    } else if !can_recv {
        Err(AxError::WouldBlock)
    } else {
        Ok(())
    }
}

/// Who a message came from: only IPv4 is expected.
pub fn message_source(source: IpAddress) -> (r: AxResult<u32>)
    ensures
        r == match source {
            IpAddress::V4(a) => Ok::<u32, AxError>(a),
            IpAddress::V6(_) => Err(AxError::Unsupported),
        },
{
    match source {
        IpAddress::V4(a) => Ok(a),
        IpAddress::V6(_) => Err(AxError::Unsupported),
    }
}

pub fn recv_error(e: RecvError) -> (r: AxError)
    ensures
        r == match e {
            RecvError::Exhausted => AxError::WouldBlock,
            RecvError::Truncated => AxError::BadState,
        },
{
    match e {
        RecvError::Exhausted => AxError::WouldBlock,
        RecvError::Truncated => AxError::BadState,
    }
}

/// The bytes of an IPv4 address.
pub open spec fn octets_of(a: u32) -> Seq<u8> {
    seq![
        (a / 0x100_0000) as u8,
        ((a / 0x1_0000) % 0x100) as u8,
        ((a / 0x100) % 0x100) as u8,
        (a % 0x100) as u8,
    ]
}

pub fn octets(a: u32) -> (r: [u8; 4])
    ensures
        r@ == octets_of(a),
{
    let r: [u8; 4] = [
        (a / 0x100_0000) as u8,
        ((a / 0x1_0000) % 0x100) as u8,
        ((a / 0x100) % 0x100) as u8,
        (a % 0x100) as u8,
    ];
    assert(r@ =~= octets_of(a));
    r
}

/// `127.0.0.1`
pub const LOCALHOST: u32 = 0x7f00_0001;

/// The address that a message from `source` was sent to.
pub open spec fn destination_of(source: u32, interface: u32) -> u32 {
    if source / 0x100_0000 == 127 {
        LOCALHOST
    } else {
        interface
    }
}

/// Hands out a message that came in, with the header in front of it. A message
/// from this machine was sent to it, any other to the interface.
pub fn deliver(output: &mut [u8], message: &[u8], source: u32, interface: u32) -> (copied: usize)
    ensures
        final(output)@.len() == old(output)@.len(),
        ({
            let total = packet_len(message@.len());
            let packet = ipv4_header(
                total,
                octets_of(source),
                octets_of(destination_of(source, interface)),
            ) + message@;
            &&& copied == if old(output)@.len() < total {
                old(output)@.len() as int
            } else {
                total
            }
            &&& final(output)@ == packet.take(copied as int) + old(output)@.skip(copied as int)
        }),
{
    let destination: u32 = if source / 0x100_0000 == 127 {
        LOCALHOST
    } else {
        interface
    };
    copy_raw_ipv4_packet(output, message, octets(source), octets(destination))
}

impl IcmpSocket {
    pub fn new() -> (r: Self)
        ensures
            r == (IcmpSocket { ident: None, nonblock: false, rcv_timeout: 0, snd_timeout: 0 }),
    {
        IcmpSocket { ident: None, nonblock: false, rcv_timeout: 0, snd_timeout: 0 }
    }

    pub fn is_nonblocking(&self) -> (r: bool)
        ensures
            r == self.nonblock,
    {
        self.nonblock
    }

    pub fn set_nonblocking(&mut self, nonblocking: bool)
        ensures
            *final(self) == (IcmpSocket { nonblock: nonblocking, ..*old(self) }),
    {
        self.nonblock = nonblocking;
    }

    pub fn snd_timeout(&self) -> (r: u64)
        ensures
            r == self.snd_timeout,
    {
        self.snd_timeout
    }

    pub fn set_snd_timeout(&mut self, timeout: u64)
        ensures
            *final(self) == (IcmpSocket { snd_timeout: timeout, ..*old(self) }),
    {
        self.snd_timeout = timeout;
    }

    pub fn rcv_timeout(&self) -> (r: u64)
        ensures
            r == self.rcv_timeout,
    {
        self.rcv_timeout
    }

    pub fn set_rcv_timeout(&mut self, timeout: u64)
        ensures
            *final(self) == (IcmpSocket { rcv_timeout: timeout, ..*old(self) }),
    {
        self.rcv_timeout = timeout;
    }

    /// Whether the stack has to bind the socket before it sends with an
    /// identifier. A socket keeps its identifier.
    pub fn needs_bind(&self, ident: u16) -> (r: AxResult<bool>)
        ensures
            r == match self.ident {
                None => Ok::<bool, AxError>(true),
                Some(current) => if current == ident {
                    Ok(false)
                } else {
                    Err(AxError::InvalidInput)
                },
            },
    {
        match self.ident {
            None => Ok(true),
            Some(current) => {
                if current == ident {
                    Ok(false)
                } else {
                    Err(AxError::InvalidInput)
                }
            },
        }
    }

    /// The stack bound the socket, or did not.
    pub fn bind_identifier(&mut self, ident: u16, result: Result<(), BindError>) -> (r: AxResult<
        (),
    >)
        requires
            old(self).ident is None,
        ensures
            r == match result {
                Ok(_) => Ok::<(), AxError>(()),
                Err(BindError::InvalidState) => Err(AxError::AlreadyExists),
                Err(BindError::Unaddressable) => Err(AxError::InvalidInput),
            },
            *final(self) == if result is Ok {
                IcmpSocket { ident: Some(ident), ..*old(self) }
            } else {
                *old(self)
            },
    {
        match result {
            Ok(_) => {
                self.ident = Some(ident);
                Ok(())
            },
            Err(BindError::InvalidState) => Err(AxError::AlreadyExists),
            Err(BindError::Unaddressable) => Err(AxError::InvalidInput),
        }
    }

    /// What has happened at the socket.
    pub fn poll(open: bool, can_recv: bool, can_send: bool) -> (r: IoEvents)
        ensures
            r == (IoEvents {
                readable: can_recv,
                writable: open && can_send,
                read_closed: false,
            }),
    {
        IoEvents { readable: can_recv, writable: open && can_send, read_closed: false }
    }

    /// How many bytes wait at least.
    pub fn recv_queue(can_recv: bool) -> (r: usize)
        ensures
            r == if can_recv {
                IPV4_HEADER_LEN
            } else {
                0
            },
    {
        if can_recv {
            IPV4_HEADER_LEN
        } else {
            0
        }
    }
}

/// When an operation on a socket has to be done that may take some nanoseconds;
/// the end of time where that cannot be told.
pub fn deadline_from_ticks(now: TimeValue, nanos: u64) -> (r: TimeValue)
    requires
        now.wf(),
    ensures
        r.wf(),
        r.nanos() == if TimeValue::fits(now.nanos() + nanos) {
            now.nanos() + nanos
        } else {
            (u64::MAX + 1) * 1_000_000_000 - 1
        },
{
    let d: TimeValue = TimeValue::from_nanos(nanos);
    match now.checked_add(&d) {
        Some(t) => {
            assert(TimeValue::fits(t.nanos()));
            t
        },
        None => TimeValue { secs: u64::MAX, subsec: 999_999_999 },
    }
}

/// The same, where zero ticks are no limit; `nanos` is how long the ticks are.
pub fn socket_deadline(now: TimeValue, ticks: u64, nanos: u64) -> (r: Option<TimeValue>)
    requires
        now.wf(),
    ensures
        match r {
            None => ticks == 0,
            Some(t) => ticks != 0 && t.wf() && t.nanos() == if TimeValue::fits(
                now.nanos() + nanos,
            ) {
                now.nanos() + nanos
            } else {
                (u64::MAX + 1) * 1_000_000_000 - 1
            },
        },
{
    if ticks == 0 {
        None
    } else {
        Some(deadline_from_ticks(now, nanos))
    }
}

/// How an operation on a socket goes on.
pub enum IoStep<T> {
    Done(AxResult<T>),
    /// The task registers with the queue, and tries again.
    Register,
    /// The task waits until it is notified, and starts anew.
    Wait,
    /// The task was notified already, and starts anew.
    StartAnew,
}

/// After the first attempt: what would block is tried again after registering,
/// unless the caller does not want to wait.
pub fn io_first<T>(attempt: AxResult<T>, nonblocking: bool) -> (r: IoStep<T>)
    ensures
        match attempt {
            Err(AxError::WouldBlock) if !nonblocking => r is Register,
            _ => r == IoStep::Done(attempt),
        },
{
    match attempt {
        Ok(x) => IoStep::Done(Ok(x)),
        Err(e) => {
            if e == AxError::WouldBlock && !nonblocking {
                IoStep::Register
            } else {
                IoStep::Done(Err(e))
            }
        },
    }
}

/// After the attempt that follows registering: an event between the first
/// attempt and registering is not missed.
pub fn io_second<T>(attempt: AxResult<T>, already_notified: bool) -> (r: IoStep<T>)
    ensures
        match attempt {
            Err(AxError::WouldBlock) => if already_notified {
                r is StartAnew
            } else {
                r is Wait
            },
            _ => r == IoStep::Done(attempt),
        },
{
    match attempt {
        Ok(x) => IoStep::Done(Ok(x)),
        Err(e) => {
            if e == AxError::WouldBlock {
                if already_notified {
                    IoStep::StartAnew
                } else {
                    IoStep::Wait
                }
            } else {
                IoStep::Done(Err(e))
            }
        },
    }
}

/// Whether an attempt is made: a task with signals is interrupted first.
pub fn before_attempt(has_signals: bool) -> (r: AxResult<()>)
    ensures
        r == if has_signals {
            Err::<(), AxError>(AxError::Interrupted)
        } else {
            Ok(())
        },
{
    if has_signals {
        Err(AxError::Interrupted)
    } else {
        Ok(())
    }
}

} // verus!
