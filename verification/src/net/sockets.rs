//! The sockets of the system: who may bind where, and who is woken.
use vstd::prelude::*;

use std::collections::BTreeMap;

use crate::error::{AxError, AxResult};

verus! {

#[derive(Clone, Copy, Debug, PartialEq, Eq, Structural)]
pub enum IpAddress {
    V4(u32),
    V6(u128),
}

impl IpAddress {
    pub open spec fn unspecified(self) -> bool {
        self == IpAddress::V4(0) || self == IpAddress::V6(0)
    }

    pub fn is_unspecified(&self) -> (r: bool)
        ensures
            r == self.unspecified(),
            r == match *self {
                IpAddress::V4(a) => a == 0,
                IpAddress::V6(a) => a == 0,
            },
    {
        match *self {
            IpAddress::V4(a) => a == 0,
            IpAddress::V6(a) => a == 0,
        }
    }

    /// `127.0.0.0/8` and `::1`.
    pub open spec fn loopback(self) -> bool {
        match self {
            IpAddress::V4(a) => a / 0x100_0000 == 127,
            IpAddress::V6(a) => a == 1,
        }
    }

    pub fn is_loopback(&self) -> (r: bool)
        ensures
            r == self.loopback(),
            r == match *self {
                IpAddress::V4(a) => 0x7f00_0000 <= a <= 0x7fff_ffff,
                IpAddress::V6(a) => a == 1,
            },
    {
        match *self {
            IpAddress::V4(a) => a / 0x100_0000 == 127,
            IpAddress::V6(a) => a == 1,
        }
    }
}

/// Where a socket listens: one of the addresses or all of them, and a port.
#[derive(Clone, Copy, Debug, PartialEq, Eq, Structural)]
pub struct ListenEndpoint {
    pub addr: Option<IpAddress>,
    pub port: u16,
}

#[derive(Clone, Copy, Debug, PartialEq, Eq, Structural)]
pub struct Endpoint {
    pub addr: IpAddress,
    pub port: u16,
}

#[derive(Clone, Copy, Debug, PartialEq, Eq, Structural)]
pub enum TcpState {
    Closed,
    Listen,
    SynSent,
    SynReceived,
    Established,
    FinWait1,
    FinWait2,
    CloseWait,
    Closing,
    LastAck,
    TimeWait,
}

/// What is known of a socket.
#[derive(Clone, Copy, Debug, PartialEq, Eq, Structural)]
pub enum SocketInfo {
    Tcp {
        bound: ListenEndpoint,
        state: TcpState,
        can_recv: bool,
        may_recv: bool,
        can_send: bool,
        may_send: bool,
    },
    Udp { endpoint: ListenEndpoint, can_recv: bool, can_send: bool },
    Other,
}

pub type SocketHandle = u64;

/// Whether binding to an address and a port conflicts with a socket: the ports
/// are the same, and the addresses are, or one of them is all addresses.
pub open spec fn conflicts(info: SocketInfo, addr: IpAddress, port: u16) -> bool {
    match info {
        SocketInfo::Tcp { bound, .. } => bound.port == port && (bound.addr is None
            || addr.unspecified() || bound.addr == Some(addr)),
        SocketInfo::Udp { endpoint, .. } => endpoint.port == port && (endpoint.addr is None
            || addr.unspecified() || endpoint.addr == Some(addr)),
        SocketInfo::Other => false,
    }
}

fn endpoint_conflicts(e: ListenEndpoint, addr: IpAddress, port: u16) -> (r: bool)
    ensures
        r == (e.port == port && (e.addr is None || addr.unspecified() || e.addr == Some(addr))),
{
    let addr_conflict: bool = match e.addr {
        None => true,
        Some(a) => addr.is_unspecified() || a == addr,
    };
    addr_conflict && e.port == port
}

/// Whether a socket may bind to an address and a port: no other one is in the
/// way.
pub fn bind_check(
    sockets: &Vec<(SocketHandle, SocketInfo)>,
    addr: IpAddress,
    port: u16,
    self_handle: Option<SocketHandle>,
) -> (r: AxResult<()>)
    ensures
        r == if exists|i: int|
            0 <= i < sockets@.len() && self_handle != Some((#[trigger] sockets@[i]).0) && conflicts(
                sockets@[i].1,
                addr,
                port,
            ) {
            Err::<(), AxError>(AxError::AddrInUse)
        } else {
            Ok(())
        },
        r is Ok ==> forall|i: int|
            0 <= i < sockets@.len() && self_handle != Some((#[trigger] sockets@[i]).0)
                ==> match sockets@[i].1 {
                SocketInfo::Tcp { bound, .. } => bound.port != port || (bound.addr is Some
                    && bound.addr != Some(addr) && addr != IpAddress::V4(0) && addr
                    != IpAddress::V6(0)),
                SocketInfo::Udp { endpoint, .. } => endpoint.port != port || (endpoint.addr is Some
                    && endpoint.addr != Some(addr) && addr != IpAddress::V4(0) && addr
                    != IpAddress::V6(0)),
                SocketInfo::Other => true,
            },
        r is Err ==> exists|i: int|
            0 <= i < sockets@.len() && self_handle != Some((#[trigger] sockets@[i]).0)
                && match sockets@[i].1 {
                SocketInfo::Tcp { bound, .. } => bound.port == port && (bound.addr is None
                    || bound.addr == Some(addr) || addr == IpAddress::V4(0) || addr
                    == IpAddress::V6(0)),
                SocketInfo::Udp { endpoint, .. } => endpoint.port == port && (endpoint.addr is None
                    || endpoint.addr == Some(addr) || addr == IpAddress::V4(0) || addr
                    == IpAddress::V6(0)),
                SocketInfo::Other => false,
            },
{
    let mut i: usize = 0;
    while i < sockets.len()
        invariant
            i <= sockets@.len(),
            forall|k: int|
                0 <= k < i ==> !(self_handle != Some((#[trigger] sockets@[k]).0) && conflicts(
                    sockets@[k].1,
                    addr,
                    port,
                )),
        decreases sockets@.len() - i,
    {
        let (handle, info): (SocketHandle, SocketInfo) = sockets[i];
        let same: bool = match self_handle {
            Some(h) => h == handle,
            None => false,
        };
        if !same {
            let conflict: bool = match info {
                SocketInfo::Tcp { bound, .. } => endpoint_conflicts(bound, addr, port),
                SocketInfo::Udp { endpoint, .. } => endpoint_conflicts(endpoint, addr, port),
                SocketInfo::Other => false,
            };
            if conflict {
                assert(conflicts(sockets@[i as int].1, addr, port));
                return Err(AxError::AddrInUse);
            }
        }
        i = i + 1;
    }
    Ok(())
}

/// What a task waits for at a socket, or what has happened there.
#[derive(Clone, Copy, Debug, PartialEq, Eq, Structural)]
pub struct IoEvents {
    pub readable: bool,
    pub writable: bool,
    /// The other side sends no more.
    pub read_closed: bool,
}

impl IoEvents {
    pub open spec fn none() -> Self {
        IoEvents { readable: false, writable: false, read_closed: false }
    }

    pub open spec fn reads(self) -> bool {
        self.readable || self.read_closed
    }
}

/// The queues of a socket: for those who read, those who write, and those who
/// wait for anything.
#[derive(Clone, Copy, Debug, PartialEq, Eq, Structural)]
pub struct SocketWaitQueues {
    pub read: u64,
    pub write: u64,
    pub any: u64,
}

impl SocketWaitQueues {
    /// The queue to wait in for some events.
    pub fn queue(&self, events: IoEvents) -> (r: u64)
        ensures
            r == if events.reads() {
                self.read
            } else {
                self.write
            },
            events.readable || events.read_closed ==> r == self.read,
            !events.readable && !events.read_closed ==> r == self.write,
    {
        if events.readable || events.read_closed {
            self.read
        } else {
            self.write
        }
    }

    /// The queues whose waiters are woken by some events.
    pub open spec fn spec_notify(self, events: IoEvents) -> Seq<u64> {
        (if events.reads() {
            seq![self.read]
        } else {
            Seq::empty()
        }) + (if events.writable {
            seq![self.write]
        } else {
            Seq::empty()
        }) + (if events != IoEvents::none() {
            seq![self.any]
        } else {
            Seq::empty()
        })
    }

    pub fn notify(&self, events: IoEvents) -> (r: Vec<u64>)
        ensures
            r@ == self.spec_notify(events),
            events.readable || events.read_closed ==> r@.contains(self.read),
            events.writable ==> r@.contains(self.write),
            events.readable || events.read_closed || events.writable ==> r@.contains(self.any),
            forall|i: int|
                0 <= i < r@.len() ==> (#[trigger] r@[i]) == self.any || (r@[i] == self.read && (
                events.readable || events.read_closed)) || (r@[i] == self.write
                    && events.writable),
            r@.len() == (if events.readable || events.read_closed {
                1int
            } else {
                0
            }) + (if events.writable {
                1int
            } else {
                0
            }) + (if events.readable || events.read_closed || events.writable {
                1int
            } else {
                0
            }),
    {
        let mut queues: Vec<u64> = Vec::new();
        if events.readable || events.read_closed {
            queues.push(self.read);
        }
        if events.writable {
            queues.push(self.write);
        }
        if events.readable || events.writable || events.read_closed {
            queues.push(self.any);
        }
        assert(queues@ =~= self.spec_notify(events));
        proof {
            let reads = events.readable || events.read_closed;
            if reads {
                assert(queues@[0] == self.read);
            }
            if events.writable {
                assert(queues@[if reads {
                    1
                } else {
                    0
                }] == self.write);
            }
            if reads || events.writable {
                assert(queues@[queues@.len() - 1] == self.any);
            }
        }
        queues
    }

    /// The queues that a waker is registered with for some events.
    pub fn register(&self, events: IoEvents) -> (r: Vec<u64>)
        ensures
            r@ == (if events.reads() {
                seq![self.read]
            } else {
                Seq::<u64>::empty()
            }) + (if events.writable {
                seq![self.write]
            } else {
                Seq::empty()
            }),
    {
        let mut queues: Vec<u64> = Vec::new();
        if events.readable || events.read_closed {
            queues.push(self.read);
        }
        if events.writable {
            queues.push(self.write);
        }
        assert(queues@ =~= (if events.reads() {
            seq![self.read]
        } else {
            Seq::<u64>::empty()
        }) + (if events.writable {
            seq![self.write]
        } else {
            Seq::empty()
        }));
        queues
    }
}

/// Whether those who wait at a socket wait for its data, or for a connection of
/// the listener that it belongs to.
#[derive(Clone, Copy, Debug, PartialEq, Eq, Structural)]
pub enum SocketWaitKind {
    Normal,
    ListenerChild,
}

#[derive(Clone, Copy, Debug, PartialEq, Eq, Structural)]
pub struct SocketWaitEntry {
    pub queues: SocketWaitQueues,
    pub kind: SocketWaitKind,
}

/// What has happened at a socket: data or the end of it, room or the end of
/// sending, a connection.
pub open spec fn ready_events(info: SocketInfo, kind: SocketWaitKind) -> IoEvents {
    match (info, kind) {
        (
            SocketInfo::Tcp { can_recv, may_recv, can_send, may_send, .. },
            SocketWaitKind::Normal,
        ) => IoEvents {
            readable: can_recv || !may_recv,
            writable: can_send || !may_send,
            read_closed: false,
        },
        (SocketInfo::Tcp { state, .. }, SocketWaitKind::ListenerChild) => IoEvents {
            readable: state != TcpState::Listen && state != TcpState::SynReceived,
            writable: false,
            read_closed: false,
        },
        (SocketInfo::Udp { can_recv, can_send, .. }, SocketWaitKind::Normal) => IoEvents {
            readable: can_recv,
            writable: can_send,
            read_closed: false,
        },
        _ => IoEvents::none(),
    }
}

fn socket_events(info: SocketInfo, kind: SocketWaitKind) -> (r: IoEvents)
    ensures
        r == ready_events(info, kind),
{
    match (info, kind) {
        (
            SocketInfo::Tcp { can_recv, may_recv, can_send, may_send, .. },
            SocketWaitKind::Normal,
        ) => IoEvents {
            readable: can_recv || !may_recv,
            writable: can_send || !may_send,
            read_closed: false,
        },
        (SocketInfo::Tcp { state, .. }, SocketWaitKind::ListenerChild) => IoEvents {
            readable: state != TcpState::Listen && state != TcpState::SynReceived,
            writable: false,
            read_closed: false,
        },
        (SocketInfo::Udp { can_recv, can_send, .. }, SocketWaitKind::Normal) => IoEvents {
            readable: can_recv,
            writable: can_send,
            read_closed: false,
        },
        _ => IoEvents { readable: false, writable: false, read_closed: false },
    }
}

/// The queues of the sockets that have any.
pub struct SocketWaitMap {
    entries: BTreeMap<SocketHandle, SocketWaitEntry>,
}

/// The queues to wake, from the `i`-th socket on, each with what has happened.
pub open spec fn ready_queues(
    sockets: Seq<(SocketHandle, SocketInfo)>,
    entries: Map<SocketHandle, SocketWaitEntry>,
    i: int,
) -> Seq<(SocketWaitQueues, IoEvents)>
    decreases sockets.len() - i,
{
    if i < 0 || i >= sockets.len() {
        Seq::empty()
    } else {
        let rest = ready_queues(sockets, entries, i + 1);
        let e = entries[sockets[i].0];
        if !entries.contains_key(sockets[i].0) || ready_events(sockets[i].1, e.kind)
            == IoEvents::none() {
            rest
        } else {
            seq![(e.queues, ready_events(sockets[i].1, e.kind))] + rest
        }
    }
}

impl SocketWaitMap {
    pub closed spec fn view(&self) -> Map<SocketHandle, SocketWaitEntry> {
        self.entries@
    }

    pub fn new() -> (r: Self)
        ensures
            r@ == Map::<SocketHandle, SocketWaitEntry>::empty(),
    {
        SocketWaitMap { entries: BTreeMap::new() }
    }

    /// Lets tasks wait for the data of a socket.
    pub fn register_wait_queue(&mut self, handle: SocketHandle, queues: SocketWaitQueues)
        ensures
            final(self)@ == old(self)@.insert(
                handle,
                SocketWaitEntry { queues, kind: SocketWaitKind::Normal },
            ),
    {
        self.entries.insert(handle, SocketWaitEntry { queues, kind: SocketWaitKind::Normal });
    }

    /// Lets tasks wait for the connection of a socket.
    pub fn register_listener_wait_queue(&mut self, handle: SocketHandle, queues: SocketWaitQueues)
        ensures
            final(self)@ == old(self)@.insert(
                handle,
                SocketWaitEntry { queues, kind: SocketWaitKind::ListenerChild },
            ),
    {
        self.entries.insert(
            handle,
            SocketWaitEntry { queues, kind: SocketWaitKind::ListenerChild },
        );
    }

    /// Forgets the queues of a socket.
    pub fn unregister_wait_queue(&mut self, handle: SocketHandle)
        ensures
            final(self)@ == old(self)@.remove(handle),
    {
        self.entries.remove(&handle);
    }

    /// The queues to wake after the interfaces were polled, each with what has
    /// happened. They are woken once nothing is locked.
    pub fn poll_interfaces(&self, sockets: &Vec<(SocketHandle, SocketInfo)>) -> (r: Vec<
        (SocketWaitQueues, IoEvents),
    >)
        ensures
            r@ == ready_queues(sockets@, self@, 0),
    {
        let mut ready: Vec<(SocketWaitQueues, IoEvents)> = Vec::new();
        let mut i: usize = 0;
        assert(ready@ + ready_queues(sockets@, self@, 0) =~= ready_queues(sockets@, self@, 0));
        while i < sockets.len()
            invariant
                i <= sockets@.len(),
                ready@ + ready_queues(sockets@, self@, i as int) == ready_queues(
                    sockets@,
                    self@,
                    0,
                ),
            decreases sockets@.len() - i,
        {
            let ghost before = ready@;
            let (handle, info): (SocketHandle, SocketInfo) = sockets[i];
            if let Some(e) = self.entries.get(&handle) {
                let events: IoEvents = socket_events(info, e.kind);
                if events.readable || events.writable || events.read_closed {
                    ready.push((e.queues, events));
                    assert(ready@ + ready_queues(sockets@, self@, i + 1) =~= before + (seq![
                        (e.queues, events),
                    ] + ready_queues(sockets@, self@, i + 1)));
                }
            }
            i = i + 1;
        }
        assert(ready@ + ready_queues(sockets@, self@, sockets@.len() as int) =~= ready@);
        ready
    }
}

/// A socket at which nothing happens wakes nobody.
pub proof fn lemma_quiet_socket_wakes_nobody(q: SocketWaitQueues)
    ensures
        q.spec_notify(IoEvents::none()) == Seq::<u64>::empty(),
{
    assert(q.spec_notify(IoEvents::none()) =~= Seq::<u64>::empty());
}

/// Whoever registered for events is woken by them: the queue that was waited in
/// is among those that are notified.
pub proof fn lemma_waiter_is_notified(q: SocketWaitQueues, events: IoEvents)
    requires
        events != IoEvents::none(),
    ensures
        q.spec_notify(events).contains(
            if events.reads() {
                q.read
            } else {
                q.write
            },
        ),
        q.spec_notify(events).contains(q.any),
{
    let n = q.spec_notify(events);
    assert(n[0] == if events.reads() {
        q.read
    } else {
        q.write
    });
    assert(n[n.len() - 1] == q.any);
}

/// An address of this machine: every address, the loopback, or one of an
/// interface.
pub fn is_local_ip(ip: &IpAddress, interfaces: &Vec<IpAddress>) -> (r: bool)
    ensures
        r == (ip.unspecified() || ip.loopback() || interfaces@.contains(*ip)),
        r == (interfaces@.contains(*ip) || match *ip {
            IpAddress::V4(a) => a == 0 || 0x7f00_0000 <= a <= 0x7fff_ffff,
            IpAddress::V6(a) => a == 0 || a == 1,
        }),
{
    if ip.is_unspecified() || ip.is_loopback() {
        return true;
    }
    let mut i: usize = 0;
    while i < interfaces.len()
        invariant
            i <= interfaces@.len(),
            forall|k: int| 0 <= k < i ==> interfaces@[k] != *ip,
            !ip.unspecified(),
            !ip.loopback(),
        decreases interfaces@.len() - i,
    {
        if interfaces[i] == *ip {
            return true;
        }
        i = i + 1;
    }
    false
}

/// How long the network may be left alone: the shorter of two times, as far as
/// there are any.
pub fn poll_delay(loopback: Option<u64>, eth0: Option<u64>) -> (r: Option<u64>)
    ensures
        r == match (loopback, eth0) {
            (Some(a), Some(b)) => Some(
                if a <= b {
                    a
                } else {
                    b
                },
            ),
            (Some(a), None) => Some(a),
            (None, Some(b)) => Some(b),
            (None, None) => None,
        },
{
    match (loopback, eth0) {
        (Some(a), Some(b)) => Some(
            if a <= b {
                a
            } else {
                b
            },
        ),
        (Some(a), None) => Some(a),
        (None, Some(b)) => Some(b),
        (None, None) => None,
    }
}

/// A socket that tasks wait for is among those whose queues are woken exactly if
/// something has happened there: data or the end of it, room or the end of
/// sending, and for a connection to come the end of its handshake.
pub proof fn lemma_ready_socket_is_woken(
    sockets: Seq<(SocketHandle, SocketInfo)>,
    entries: Map<SocketHandle, SocketWaitEntry>,
    k: int,
    i: int,
)
    requires
        0 <= k <= i < sockets.len(),
        entries.contains_key(sockets[i].0),
        match (sockets[i].1, entries[sockets[i].0].kind) {
            (
                SocketInfo::Tcp { can_recv, may_recv, can_send, may_send, .. },
                SocketWaitKind::Normal,
            ) => can_recv || !may_recv || can_send || !may_send,
            (SocketInfo::Tcp { state, .. }, SocketWaitKind::ListenerChild) => state
                != TcpState::Listen && state != TcpState::SynReceived,
            (SocketInfo::Udp { can_recv, can_send, .. }, SocketWaitKind::Normal) => can_recv
                || can_send,
            _ => false,
        },
    ensures
        exists|j: int|
            0 <= j < ready_queues(sockets, entries, k).len() && (#[trigger] ready_queues(
                sockets,
                entries,
                k,
            )[j]).0 == entries[sockets[i].0].queues && ready_queues(sockets, entries, k)[j].1 == (
            match (sockets[i].1, entries[sockets[i].0].kind) {
                (
                    SocketInfo::Tcp { can_recv, may_recv, can_send, may_send, .. },
                    SocketWaitKind::Normal,
                ) => IoEvents {
                    readable: can_recv || !may_recv,
                    writable: can_send || !may_send,
                    read_closed: false,
                },
                (SocketInfo::Udp { can_recv, can_send, .. }, SocketWaitKind::Normal) => IoEvents {
                    readable: can_recv,
                    writable: can_send,
                    read_closed: false,
                },
                _ => IoEvents { readable: true, writable: false, read_closed: false },
            }),
    decreases i - k,
{
    let all = ready_queues(sockets, entries, k);
    let rest = ready_queues(sockets, entries, k + 1);
    let e = entries[sockets[k].0];
    if k == i {
        assert(ready_events(sockets[i].1, e.kind) != IoEvents::none());
        assert(all == seq![(e.queues, ready_events(sockets[i].1, e.kind))] + rest);
        assert(all[0] == (e.queues, ready_events(sockets[i].1, e.kind)));
    } else {
        lemma_ready_socket_is_woken(sockets, entries, k + 1, i);
        let q = entries[sockets[i].0].queues;
        let events = ready_events(sockets[i].1, entries[sockets[i].0].kind);
        let j = choose|j: int| 0 <= j < rest.len() && (#[trigger] rest[j]).0 == q && rest[j].1 == events;
        let shift = all.len() - rest.len();
        assert(all == rest || all == seq![(e.queues, ready_events(sockets[k].1, e.kind))] + rest);
        assert(all[j + shift] == rest[j]);
    }
}

/// A queue that is woken is that of a socket at which something has happened.
pub proof fn lemma_woken_socket_is_ready(
    sockets: Seq<(SocketHandle, SocketInfo)>,
    entries: Map<SocketHandle, SocketWaitEntry>,
    k: int,
    j: int,
)
    requires
        0 <= k <= sockets.len(),
        0 <= j < ready_queues(sockets, entries, k).len(),
    ensures
        ({
            let w = ready_queues(sockets, entries, k)[j];
            &&& w.1.readable || w.1.writable || w.1.read_closed
            &&& exists|i: int|
                k <= i < sockets.len() && entries.contains_key((#[trigger] sockets[i]).0)
                    && entries[sockets[i].0].queues == w.0
        }),
    decreases sockets.len() - k,
{
    if k < sockets.len() {
        let all = ready_queues(sockets, entries, k);
        let rest = ready_queues(sockets, entries, k + 1);
        let shift = all.len() - rest.len();
        let e = entries[sockets[k].0];
        if all != rest && j == 0 {
            assert(all == seq![(e.queues, ready_events(sockets[k].1, e.kind))] + rest);
            assert(entries.contains_key(sockets[k].0));
        } else {
            if all == rest {
                lemma_woken_socket_is_ready(sockets, entries, k + 1, j);
            } else {
                assert(all == seq![(e.queues, ready_events(sockets[k].1, e.kind))] + rest);
                assert(all[j] == rest[j - 1]);
                lemma_woken_socket_is_ready(sockets, entries, k + 1, j - 1);
            }
        }
    }
}

} // verus!
