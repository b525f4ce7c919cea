//! Ports on which connections are waited for.
use vstd::prelude::*;

use std::collections::VecDeque;

use crate::error::{AxError, AxResult};
use super::sockets::{Endpoint, IpAddress, ListenEndpoint, SocketHandle, TcpState};

verus! {

pub const PORT_NUM: usize = 65536;

/// How many connections a port keeps that were not accepted yet.
pub const LISTEN_QUEUE_SIZE: usize = 512;

/// A port that is listened on, and the sockets of its connections to come.
pub struct ListenTableEntry {
    listen_endpoint: ListenEndpoint,
    syn_queue: VecDeque<SocketHandle>,
}

pub ghost struct Listening {
    pub endpoint: ListenEndpoint,
    pub queue: Seq<SocketHandle>,
}

impl ListenTableEntry {
    pub closed spec fn view(&self) -> Listening {
        Listening { endpoint: self.listen_endpoint, queue: self.syn_queue@ }
    }

    pub fn new(listen_endpoint: ListenEndpoint) -> (r: Self)
        ensures
            r@ == (Listening { endpoint: listen_endpoint, queue: Seq::empty() }),
    {
        ListenTableEntry {
            listen_endpoint,
            syn_queue: VecDeque::with_capacity(LISTEN_QUEUE_SIZE),
        }
    }
}

/// Whether a connection to an address is meant for a listener.
pub open spec fn listens_at(endpoint: ListenEndpoint, dst: IpAddress) -> bool {
    match endpoint.addr {
        Some(a) => a == dst,
        None => true,
    }
}

/// What is known of the socket of a connection to come.
#[derive(Clone, Copy, Debug, PartialEq, Eq, Structural)]
pub struct Connection {
    pub handle: SocketHandle,
    pub state: TcpState,
    pub local: Endpoint,
    pub remote: Endpoint,
}

/// The socket with a handle, from the `i`-th on.
pub open spec fn connection_of(sockets: Seq<Connection>, handle: SocketHandle, i: int) -> Option<
    Connection,
>
    decreases sockets.len() - i,
{
    if i < 0 || i >= sockets.len() {
        None
    } else if sockets[i].handle == handle {
        Some(sockets[i])
    } else {
        connection_of(sockets, handle, i + 1)
    }
}

/// The state of a socket by its handle; closed where it is not known.
pub open spec fn state_of(sockets: Seq<Connection>, handle: SocketHandle) -> TcpState {
    match connection_of(sockets, handle, 0) {
        Some(c) => c.state,
        None => TcpState::Closed,
    }
}

/// Whether the handshake of a connection is over, well or not.
pub open spec fn is_connected(state: TcpState) -> bool {
    state != TcpState::Listen && state != TcpState::SynReceived
}

/// The first entry from the `i`-th on whose handshake is over; the length where
/// there is none.
pub open spec fn first_connected(
    queue: Seq<SocketHandle>,
    sockets: Seq<Connection>,
    i: int,
) -> int
    decreases queue.len() - i,
{
    if i < 0 || i >= queue.len() {
        queue.len() as int
    } else if is_connected(state_of(sockets, queue[i])) {
        i
    } else {
        first_connected(queue, sockets, i + 1)
    }
}

/// The queue after its `i`-th entry was taken: the first one takes its place.
pub open spec fn taken(queue: Seq<SocketHandle>, i: int) -> Seq<SocketHandle> {
    queue.update(i, queue[0]).skip(1)
}

/// The first entry from the `i`-th on that is `handle`; the length where there
/// is none.
pub open spec fn place_of(queue: Seq<SocketHandle>, handle: SocketHandle, i: int) -> int
    decreases queue.len() - i,
{
    if i < 0 || i >= queue.len() {
        queue.len() as int
    } else if queue[i] == handle {
        i
    } else {
        place_of(queue, handle, i + 1)
    }
}

fn find_connection(sockets: &Vec<Connection>, handle: SocketHandle) -> (r: Option<Connection>)
    ensures
        r == connection_of(sockets@, handle, 0),
{
    let mut i: usize = 0;
    while i < sockets.len()
        invariant
            i <= sockets@.len(),
            connection_of(sockets@, handle, 0) == connection_of(sockets@, handle, i as int),
        decreases sockets@.len() - i,
    {
        if sockets[i].handle == handle {
            return Some(sockets[i]);
        }
        i = i + 1;
    }
    None
}

fn find_state(sockets: &Vec<Connection>, handle: SocketHandle) -> (r: TcpState)
    ensures
        r == state_of(sockets@, handle),
{
    match find_connection(sockets, handle) {
        Some(c) => c.state,
        None => TcpState::Closed,
    }
}

/// What is done about a packet that opens a connection.
#[derive(Clone, Copy, Debug, PartialEq, Eq, Structural)]
pub enum Incoming {
    /// Nobody listens on the port.
    NotListening,
    /// Somebody does, on another address.
    WrongAddress,
    /// There are too many connections to come.
    Overflow,
    /// A socket is made that listens there; it is added to the queue.
    Listen { endpoint: ListenEndpoint },
}

/// How accepting ends, once a connection was taken.
#[derive(Clone, Copy, Debug, PartialEq, Eq, Structural)]
pub enum Accepted {
    Connection { connection: Connection },
    /// It was closed before it was accepted; its socket is removed.
    Reset { handle: SocketHandle },
}

pub struct ListenTable {
    tcp: Vec<Option<ListenTableEntry>>,
}

pub open spec fn entry_view(e: Option<ListenTableEntry>) -> Option<Listening> {
    match e {
        Some(x) => Some(x@),
        None => None,
    }
}

impl ListenTable {
    pub closed spec fn view(&self) -> Seq<Option<Listening>> {
        self.tcp@.map_values(|e: Option<ListenTableEntry>| entry_view(e))
    }

    /// There is a place for each port, and no queue is too long.
    pub open spec fn wf(&self) -> bool {
        &&& self@.len() == PORT_NUM
        &&& forall|p: int|
            0 <= p < PORT_NUM ==> ((#[trigger] self@[p]) matches Some(l) ==> l.queue.len()
                <= LISTEN_QUEUE_SIZE)
    }

    pub fn new() -> (r: Self)
        ensures
            r.wf(),
            forall|p: int| 0 <= p < PORT_NUM ==> (#[trigger] r@[p]) is None,
    {
        let mut tcp: Vec<Option<ListenTableEntry>> = Vec::new();
        while tcp.len() < PORT_NUM
            invariant
                tcp@.len() <= PORT_NUM,
                forall|p: int| 0 <= p < tcp@.len() ==> (#[trigger] tcp@[p]) is None,
            decreases PORT_NUM - tcp@.len(),
        {
            tcp.push(None);
        }
        ListenTable { tcp }
    }

    proof fn lemma_view(&self, p: int)
        requires
            0 <= p < self.tcp@.len(),
        ensures
            self@.len() == self.tcp@.len(),
            self@[p] == entry_view(self.tcp@[p]),
    {
    }

    fn set(&mut self, port: u16, entry: Option<ListenTableEntry>)
        requires
            old(self).wf(),
            entry matches Some(e) ==> e@.queue.len() <= LISTEN_QUEUE_SIZE,
        ensures
            final(self).wf(),
            final(self)@ == old(self)@.update(port as int, entry_view(entry)),
    {
        let ghost before = self@;
        self.tcp.set(port as usize, entry);
        assert(self@ =~= before.update(port as int, entry_view(entry)));
    }

    pub fn can_listen(&self, port: u16) -> (r: bool)
        requires
            self.wf(),
        ensures
            r == (self@[port as int] is None),
    {
        proof {
            self.lemma_view(port as int);
        }
        self.tcp[port as usize].is_none()
    }

    /// Listens on a port, if nobody does.
    pub fn listen(&mut self, listen_endpoint: ListenEndpoint) -> (r: AxResult<()>)
        requires
            old(self).wf(),
            listen_endpoint.port != 0,
        ensures
            final(self).wf(),
            ({
                let p = listen_endpoint.port as int;
                if old(self)@[p] is None {
                    &&& r == Ok::<(), AxError>(())
                    &&& final(self)@ == old(self)@.update(
                        p,
                        Some(Listening { endpoint: listen_endpoint, queue: Seq::empty() }),
                    )
                } else {
                    r == Err::<(), AxError>(AxError::AddrInUse) && final(self)@ == old(self)@
                }
            }),
    {
        if self.can_listen(listen_endpoint.port) {
            self.set(listen_endpoint.port, Some(ListenTableEntry::new(listen_endpoint)));
            Ok(())
        } else {
            Err(AxError::AddrInUse)
        }
    }

    /// Listens no more on a port. Tells which sockets are removed.
    pub fn unlisten(&mut self, port: u16) -> (r: Vec<SocketHandle>)
        requires
            old(self).wf(),
        ensures
            final(self).wf(),
            final(self)@ == old(self)@.update(port as int, None),
            r@ == match old(self)@[port as int] {
                Some(l) => l.queue,
                None => Seq::empty(),
            },
    {
        let mut removed: Vec<SocketHandle> = Vec::new();
        proof {
            self.lemma_view(port as int);
        }
        match &self.tcp[port as usize] {
            Some(e) => {
                let ghost q = e.syn_queue@;
                let mut i: usize = 0;
                while i < e.syn_queue.len()
                    invariant
                        i <= q.len(),
                        q == e.syn_queue@,
                        removed@ == q.take(i as int),
                    decreases q.len() - i,
                {
                    removed.push(e.syn_queue[i]);
                    assert(q.take(i + 1) =~= q.take(i as int).push(q[i as int]));
                    i = i + 1;
                }
                assert(q.take(q.len() as int) =~= q);
            },
            None => {},
        }
        self.set(port, None);
        removed
    }

    /// Where in a queue the first connection is that can be accepted.
    fn find_connected(e: &ListenTableEntry, sockets: &Vec<Connection>) -> (r: usize)
        ensures
            r == first_connected(e@.queue, sockets@, 0),
            r <= e@.queue.len(),
    {
        let mut i: usize = 0;
        while i < e.syn_queue.len()
            invariant_except_break
                i <= e@.queue.len(),
                first_connected(e@.queue, sockets@, 0) == first_connected(
                    e@.queue,
                    sockets@,
                    i as int,
                ),
            ensures
                i <= e@.queue.len(),
                i == first_connected(e@.queue, sockets@, 0),
            decreases e@.queue.len() - i,
        {
            let state: TcpState = find_state(sockets, e.syn_queue[i]);
            if state != TcpState::Listen && state != TcpState::SynReceived {
                break;
            }
            i = i + 1;
        }
        i
    }

    /// Whether there is a connection to accept.
    pub fn can_accept(&self, port: u16, sockets: &Vec<Connection>) -> (r: AxResult<bool>)
        requires
            self.wf(),
        ensures
            r == match self@[port as int] {
                Some(l) => Ok::<bool, AxError>(
                    first_connected(l.queue, sockets@, 0) < l.queue.len(),
                ),
                None => Err(AxError::InvalidInput),
            },
    {
        proof {
            self.lemma_view(port as int);
        }
        match &self.tcp[port as usize] {
            Some(e) => Ok(Self::find_connected(e, sockets) < e.syn_queue.len()),
            None => Err(AxError::InvalidInput),
        }
    }

    /// The first connection that can be accepted.
    pub fn next_connected(&self, port: u16, sockets: &Vec<Connection>) -> (r: AxResult<SocketHandle>)
        requires
            self.wf(),
        ensures
            r == match self@[port as int] {
                Some(l) => {
                    let i = first_connected(l.queue, sockets@, 0);
                    if i < l.queue.len() {
                        Ok::<SocketHandle, AxError>(l.queue[i])
                    } else {
                        Err(AxError::WouldBlock)
                    }
                },
                None => Err(AxError::InvalidInput),
            },
    {
        proof {
            self.lemma_view(port as int);
        }
        match &self.tcp[port as usize] {
            Some(e) => {
                let i: usize = Self::find_connected(e, sockets);
                if i < e.syn_queue.len() {
                    Ok(e.syn_queue[i])
                } else {
                    Err(AxError::WouldBlock)
                }
            },
            None => Err(AxError::InvalidInput),
        }
    }

    /// Takes a connection out of its queue. Tells whether it was there: another
    /// task may have been faster.
    pub fn take(&mut self, port: u16, handle: SocketHandle) -> (r: AxResult<bool>)
        requires
            old(self).wf(),
        ensures
            final(self).wf(),
            match old(self)@[port as int] {
                Some(l) => {
                    let i = place_of(l.queue, handle, 0);
                    if i < l.queue.len() {
                        &&& r == Ok::<bool, AxError>(true)
                        &&& final(self)@ == old(self)@.update(
                            port as int,
                            Some(Listening { queue: taken(l.queue, i), ..l }),
                        )
                    } else {
                        r == Ok::<bool, AxError>(false) && final(self)@ == old(self)@
                    }
                },
                None => r == Err::<bool, AxError>(AxError::InvalidInput) && final(self)@ == old(
                    self,
                )@,
            },
    {
        proof {
            self.lemma_view(port as int);
        }
        let ghost before = self@;
        match self.tcp[port as usize].take() {
            None => {
                assert(self@ =~= before);
                Err(AxError::InvalidInput)
            },
            Some(e) => {
                let mut e: ListenTableEntry = e;
                let ghost l = e@;
                let mut i: usize = 0;
                while i < e.syn_queue.len()
                    invariant_except_break
                        i <= l.queue.len(),
                        e@ == l,
                        place_of(l.queue, handle, 0) == place_of(l.queue, handle, i as int),
                    ensures
                        i <= l.queue.len(),
                        e@ == l,
                        i == place_of(l.queue, handle, 0),
                    decreases l.queue.len() - i,
                {
                    if e.syn_queue[i] == handle {
                        break;
                    }
                    i = i + 1;
                }
                assert(before[port as int] == Some(l));
                if i < e.syn_queue.len() {
                    let front: SocketHandle = e.syn_queue[0];
                    let _ = e.syn_queue.remove(i);
                    e.syn_queue.insert(i, front);
                    assert(e.syn_queue@ =~= l.queue.update(i as int, l.queue[0]));
                    let _ = e.syn_queue.pop_front();
                    assert(e@.queue =~= taken(l.queue, i as int));
                    self.put_back(port, e);
                    assert(self@ =~= before.update(
                        port as int,
                        Some(Listening { queue: taken(l.queue, i as int), ..l }),
                    ));
                    Ok(true)
                } else {
                    self.put_back(port, e);
                    assert(self@ =~= before);
                    Ok(false)
                }
            },
        }
    }

    fn put_back(&mut self, port: u16, e: ListenTableEntry)
        requires
            old(self)@.len() == PORT_NUM,
        ensures
            final(self)@ == old(self)@.update(port as int, Some(e@)),
    {
        let ghost before = self@;
        self.tcp.set(port as usize, Some(e));
        assert(self@ =~= before.update(port as int, Some(e@)));
    }

    /// Accepts a connection: the first one whose handshake is over.
    pub fn accept(&mut self, port: u16, sockets: &Vec<Connection>) -> (r: AxResult<Accepted>)
        requires
            old(self).wf(),
        ensures
            final(self).wf(),
            match old(self)@[port as int] {
                None => r == Err::<Accepted, AxError>(AxError::InvalidInput) && final(self)@ == old(
                    self,
                )@,
                Some(l) => {
                    let i = first_connected(l.queue, sockets@, 0);
                    if i >= l.queue.len() {
                        r == Err::<Accepted, AxError>(AxError::WouldBlock) && final(self)@ == old(
                            self,
                        )@
                    } else {
                        &&& r == Ok::<Accepted, AxError>(
                            match connection_of(sockets@, l.queue[i], 0) {
                                Some(c) if c.state != TcpState::Closed => Accepted::Connection {
                                    connection: c,
                                },
                                _ => Accepted::Reset { handle: l.queue[i] },
                            },
                        )
                        &&& final(self)@ == old(self)@.update(
                            port as int,
                            Some(
                                Listening {
                                    queue: taken(l.queue, place_of(l.queue, l.queue[i], 0)),
                                    ..l
                                },
                            ),
                        )
                    }
                },
            },
    {
        let handle: SocketHandle = match self.next_connected(port, sockets) {
            Ok(h) => h,
            Err(e) => {
                return Err(e);
            },
        };
        proof {
            let q = self@[port as int]->0.queue;
            let i = first_connected(q, sockets@, 0);
            lemma_first_connected(q, sockets@, 0);
            lemma_place_of(q, handle, 0, i);
        }
        let _ = self.take(port, handle);
        match find_connection(sockets, handle) {
            Some(connection) => {
                if connection.state == TcpState::Closed {
                    Ok(Accepted::Reset { handle })
                } else {
                    Ok(Accepted::Connection { connection })
                }
            },
            None => Ok(Accepted::Reset { handle }),
        }
    }

    /// What is done about a packet that opens a connection to `dst`.
    pub fn incoming_tcp_packet(&self, dst: Endpoint) -> (r: Incoming)
        requires
            self.wf(),
        ensures
            r == match self@[dst.port as int] {
                None => Incoming::NotListening,
                Some(l) => if !listens_at(l.endpoint, dst.addr) {
                    Incoming::WrongAddress
                } else if l.queue.len() >= LISTEN_QUEUE_SIZE {
                    Incoming::Overflow
                } else {
                    Incoming::Listen { endpoint: l.endpoint }
                },
            },
            r matches Incoming::Listen { endpoint } ==> self@[dst.port as int] is Some
                && self@[dst.port as int]->0.queue.len() < 512 && (endpoint.addr is None
                || endpoint.addr == Some(dst.addr)),
            r is WrongAddress ==> self@[dst.port as int] is Some
                && self@[dst.port as int]->0.endpoint.addr is Some
                && self@[dst.port as int]->0.endpoint.addr != Some(dst.addr),
    {
        proof {
            self.lemma_view(dst.port as int);
        }
        match &self.tcp[dst.port as usize] {
            None => Incoming::NotListening,
            Some(e) => {
                let meant: bool = match e.listen_endpoint.addr {
                    Some(a) => a == dst.addr,
                    None => true,
                };
                if !meant {
                    Incoming::WrongAddress
                } else if e.syn_queue.len() >= LISTEN_QUEUE_SIZE {
                    Incoming::Overflow
                } else {
                    Incoming::Listen { endpoint: e.listen_endpoint }
                }
            },
        }
    }

    /// Adds the socket of a connection to come to the queue of its port.
    pub fn enqueue(&mut self, port: u16, handle: SocketHandle)
        requires
            old(self).wf(),
            old(self)@[port as int] is Some,
            old(self)@[port as int]->0.queue.len() < LISTEN_QUEUE_SIZE,
        ensures
            final(self).wf(),
            final(self)@ == old(self)@.update(
                port as int,
                Some(
                    Listening {
                        queue: old(self)@[port as int]->0.queue.push(handle),
                        ..old(self)@[port as int]->0
                    },
                ),
            ),
    {
        proof {
            self.lemma_view(port as int);
        }
        let ghost before = self@;
        match self.tcp[port as usize].take() {
            None => {},
            Some(e) => {
                let mut e: ListenTableEntry = e;
                e.syn_queue.push_back(handle);
                self.put_back(port, e);
                assert(self@ =~= before.update(
                    port as int,
                    Some(
                        Listening {
                            queue: before[port as int]->0.queue.push(handle),
                            ..before[port as int]->0
                        },
                    ),
                ));
            },
        }
    }
}

proof fn lemma_first_connected(queue: Seq<SocketHandle>, sockets: Seq<Connection>, i: int)
    requires
        0 <= i <= queue.len(),
    ensures
        i <= first_connected(queue, sockets, i) <= queue.len(),
    decreases queue.len() - i,
{
    if i < queue.len() && !is_connected(state_of(sockets, queue[i])) {
        lemma_first_connected(queue, sockets, i + 1);
    }
}

proof fn lemma_place_of(queue: Seq<SocketHandle>, handle: SocketHandle, i: int, k: int)
    requires
        0 <= i <= k < queue.len(),
        queue[k] == handle,
    ensures
        i <= place_of(queue, handle, i) <= k,
        queue[place_of(queue, handle, i)] == handle,
    decreases queue.len() - i,
{
    if queue[i] != handle {
        lemma_place_of(queue, handle, i + 1, k);
    }
}

/// Taking a connection keeps all others.
pub proof fn lemma_taken_keeps_others(queue: Seq<SocketHandle>, i: int, k: int)
    requires
        0 <= i < queue.len(),
        0 <= k < queue.len(),
        k != i,
    ensures
        taken(queue, i).len() == queue.len() - 1,
        taken(queue, i).contains(queue[k]),
{
    let t = taken(queue, i);
    if k == 0 {
        assert(t[i - 1] == queue[0]);
    } else {
        assert(t[k - 1] == queue[k]);
    }
}

/// Whether the handshake of a socket is under way: the first socket with this
/// handle still listens, or has received the first packet.
#[verifier::opaque]
pub open spec fn in_handshake(sockets: Seq<Connection>, handle: SocketHandle) -> bool {
    exists|k: int|
        0 <= k < sockets.len() && (#[trigger] sockets[k]).handle == handle && (forall|j: int|
            0 <= j < k ==> (#[trigger] sockets[j]).handle != handle) && (sockets[k].state
            == TcpState::Listen || sockets[k].state == TcpState::SynReceived)
}

/// A search finds the first socket with a handle, wherever there is one.
pub proof fn lemma_connection_is_found(sockets: Seq<Connection>, handle: SocketHandle, i: int)
    requires
        0 <= i <= sockets.len(),
    ensures
        match connection_of(sockets, handle, i) {
            Some(c) => c.handle == handle && exists|k: int|
                i <= k < sockets.len() && (#[trigger] sockets[k]) == c && forall|j: int|
                    i <= j < k ==> (#[trigger] sockets[j]).handle != handle,
            None => forall|j: int| i <= j < sockets.len() ==> (#[trigger] sockets[j]).handle != handle,
        },
    decreases sockets.len() - i,
{
    if i < sockets.len() {
        if sockets[i].handle == handle {
            assert(sockets[i] == connection_of(sockets, handle, i)->0);
        } else {
            lemma_connection_is_found(sockets, handle, i + 1);
            if let Some(c) = connection_of(sockets, handle, i + 1) {
                let k = choose|k: int|
                    i + 1 <= k < sockets.len() && (#[trigger] sockets[k]) == c && forall|j: int|
                        i + 1 <= j < k ==> (#[trigger] sockets[j]).handle != handle;
                assert(sockets[k] == c);
            }
        }
    }
}

/// Connections are accepted in the order in which they came, as far as their
/// handshakes are over: what is accepted first is the first in the queue whose
/// handshake is not under way.
pub proof fn lemma_accepted_connection_is_the_first(
    queue: Seq<SocketHandle>,
    sockets: Seq<Connection>,
    i: int,
)
    requires
        0 <= i <= queue.len(),
    ensures
        ({
            let n = first_connected(queue, sockets, i);
            &&& i <= n <= queue.len()
            &&& n < queue.len() ==> !in_handshake(sockets, queue[n])
            &&& forall|j: int| i <= j < n ==> in_handshake(sockets, #[trigger] queue[j])
        }),
    decreases queue.len() - i,
{
    if i < queue.len() {
        lemma_handshake_is_known(sockets, queue[i]);
        if in_handshake(sockets, queue[i]) {
            lemma_accepted_connection_is_the_first(queue, sockets, i + 1);
        }
    }
}

/// Whether a handshake is under way shows in the state that is found.
proof fn lemma_handshake_is_known(sockets: Seq<Connection>, h: SocketHandle)
    ensures
        in_handshake(sockets, h) <==> !is_connected(state_of(sockets, h)),
{
    reveal(in_handshake);
    lemma_connection_is_found(sockets, h, 0);
    match connection_of(sockets, h, 0) {
        Some(c) => {
            let n = choose|n: int|
                0 <= n < sockets.len() && (#[trigger] sockets[n]) == c && forall|j: int|
                    0 <= j < n ==> (#[trigger] sockets[j]).handle != h;
            assert(sockets[n].handle == h);
            if in_handshake(sockets, h) {
                let k = choose|k: int|
                    0 <= k < sockets.len() && (#[trigger] sockets[k]).handle == h && (forall|j: int|
                        0 <= j < k ==> (#[trigger] sockets[j]).handle != h) && (sockets[k].state
                        == TcpState::Listen || sockets[k].state == TcpState::SynReceived);
                if k < n {
                    assert(sockets[k].handle != h);
                } else if n < k {
                    assert(sockets[n].handle != h);
                }
            }
        },
        None => {
            if in_handshake(sockets, h) {
                let k = choose|k: int|
                    0 <= k < sockets.len() && (#[trigger] sockets[k]).handle == h && (forall|j: int|
                        0 <= j < k ==> (#[trigger] sockets[j]).handle != h) && (sockets[k].state
                        == TcpState::Listen || sockets[k].state == TcpState::SynReceived);
                assert(sockets[k].handle != h);
            }
        },
    }
}

} // verus!
