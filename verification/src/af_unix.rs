//! Sockets between processes of one machine: streams of bytes and datagrams,
//! in pairs or under an address, which can carry descriptors.
use vstd::prelude::*;

pub mod laws;

use crate::bytes::{copy_range, drain_front};
use crate::namemap::NameMap;
use crate::scheduler::{FileDescriptor, Scheduler, SchedulerView};
use crate::scheduler::switch::{self, wake_pipe_waiters};
use crate::store::Store;

verus! {

pub const FIRST_SOCKET_ID: u64 = 0x6000_0000;

pub const MAX_BACKLOG: usize = 128;

#[derive(Debug)]
pub enum UnixAddress {
    Path(Vec<u8>),
    Abstract(Vec<u8>),
}

pub enum UnixAddressView {
    Path(Seq<u8>),
    Abstract(Seq<u8>),
}

impl View for UnixAddress {
    type V = UnixAddressView;

    open spec fn view(&self) -> UnixAddressView {
        match self {
            UnixAddress::Path(path) => UnixAddressView::Path(path@),
            UnixAddress::Abstract(name) => UnixAddressView::Abstract(name@),
        }
    }
}

/// The name under which an address is registered: paths come before abstract
/// names.
pub open spec fn registered_name(address: UnixAddressView) -> Seq<u8> {
    match address {
        UnixAddressView::Path(path) => seq![0u8] + path,
        UnixAddressView::Abstract(name) => seq![1u8] + name,
    }
}

/// Two addresses have the same name only if they are the same.
pub proof fn law_names_differ(a: UnixAddressView, b: UnixAddressView)
    ensures
        registered_name(a) == registered_name(b) ==> a == b,
{
    if registered_name(a) == registered_name(b) {
        let (x, y) = (registered_name(a), registered_name(b));
        assert(x[0] == y[0]);
        assert(x.skip(1) == y.skip(1));
        match (a, b) {
            (UnixAddressView::Path(p), UnixAddressView::Path(q)) => {
                assert(x.skip(1) =~= p && y.skip(1) =~= q);
            },
            (UnixAddressView::Abstract(p), UnixAddressView::Abstract(q)) => {
                assert(x.skip(1) =~= p && y.skip(1) =~= q);
            },
            _ => {},
        }
    }
}

impl UnixAddress {
    fn to_name(&self) -> (r: Vec<u8>)
        ensures
            r@ == registered_name(self@),
    {
        let mut name: Vec<u8> = Vec::new();
        match self {
            UnixAddress::Path(path) => {
                name.push(0);
                name.extend_from_slice(path.as_slice());
                assert(name@ =~= seq![0u8] + path@);
            },
            UnixAddress::Abstract(text) => {
                name.push(1);
                name.extend_from_slice(text.as_slice());
                assert(name@ =~= seq![1u8] + text@);
            },
        }
        name
    }

    fn copy(&self) -> (r: UnixAddress)
        ensures
            r@ == self@,
    {
        match self {
            UnixAddress::Path(path) => UnixAddress::Path(
                vstd::slice::slice_to_vec(path.as_slice()),
            ),
            UnixAddress::Abstract(name) => UnixAddress::Abstract(
                vstd::slice::slice_to_vec(name.as_slice()),
            ),
        }
    }
}

#[derive(Debug)]
pub struct UnixDatagram {
    pub sender_addr: Option<UnixAddress>,
    pub data: Vec<u8>,
    pub fds: Vec<FileDescriptor>,
}

#[verifier::ext_equal]
pub struct UnixDatagramView {
    pub sender_addr: Option<UnixAddressView>,
    pub data: Seq<u8>,
    pub fds: Seq<FileDescriptor>,
}

pub open spec fn seen_address(address: Option<UnixAddress>) -> Option<UnixAddressView> {
    match address {
        Some(address) => Some(address@),
        None => None,
    }
}

impl View for UnixDatagram {
    type V = UnixDatagramView;

    open spec fn view(&self) -> UnixDatagramView {
        UnixDatagramView {
            sender_addr: seen_address(self.sender_addr),
            data: self.data@,
            fds: self.fds@,
        }
    }
}

/// One end of a stream; its peer is known by its place.
#[derive(Debug)]
pub struct StreamEndpoint {
    pub peer: Option<usize>,
    pub rx_buf: Vec<u8>,
    pub rx_fds: Vec<FileDescriptor>,
    pub closed: bool,
    pub peer_closed: bool,
}

#[derive(Debug)]
pub struct DatagramEndpoint {
    pub bound_addr: Option<UnixAddress>,
    pub peer: Option<usize>,
    pub rx_queue: Store<UnixDatagram>,
}

/// A socket that others connect to; connections that wait are known by their
/// places.
#[derive(Debug)]
pub struct ListenerEndpoint {
    pub bound_addr: UnixAddress,
    pub backlog: usize,
    pub accept_queue: Vec<usize>,
}

#[derive(Debug)]
pub enum AfUnixSocketKind {
    Stream(StreamEndpoint),
    Datagram(DatagramEndpoint),
    Listener(ListenerEndpoint),
}

#[verifier::ext_equal]
pub enum KindView {
    Stream {
        peer: Option<usize>,
        rx_buf: Seq<u8>,
        rx_fds: Seq<FileDescriptor>,
        closed: bool,
        peer_closed: bool,
    },
    Datagram {
        bound_addr: Option<UnixAddressView>,
        peer: Option<usize>,
        rx_queue: Seq<UnixDatagramView>,
    },
    Listener { bound_addr: UnixAddressView, backlog: usize, accept_queue: Seq<usize> },
}

impl View for AfUnixSocketKind {
    type V = KindView;

    open spec fn view(&self) -> KindView {
        match self {
            AfUnixSocketKind::Stream(s) => KindView::Stream {
                peer: s.peer,
                rx_buf: s.rx_buf@,
                rx_fds: s.rx_fds@,
                closed: s.closed,
                peer_closed: s.peer_closed,
            },
            AfUnixSocketKind::Datagram(d) => KindView::Datagram {
                bound_addr: seen_address(d.bound_addr),
                peer: d.peer,
                rx_queue: d.rx_queue@,
            },
            AfUnixSocketKind::Listener(l) => KindView::Listener {
                bound_addr: l.bound_addr@,
                backlog: l.backlog,
                accept_queue: l.accept_queue@,
            },
        }
    }
}

/// A socket. It is there as long as somebody holds it.
#[derive(Debug)]
pub struct AfUnixSocket {
    pub id: u64,
    pub kind: AfUnixSocketKind,
    pub nonblocking: bool,
    pub held: bool,
}

#[verifier::ext_equal]
pub struct SocketView {
    pub id: u64,
    pub kind: KindView,
    pub nonblocking: bool,
    pub held: bool,
}

impl View for AfUnixSocket {
    type V = SocketView;

    open spec fn view(&self) -> SocketView {
        SocketView {
            id: self.id,
            kind: self.kind@,
            nonblocking: self.nonblocking,
            held: self.held,
        }
    }
}

/// A stream that is connected to nothing yet.
pub open spec fn fresh_stream(id: u64, peer: Option<usize>) -> SocketView {
    SocketView {
        id,
        kind: KindView::Stream {
            peer,
            rx_buf: Seq::empty(),
            rx_fds: Seq::empty(),
            closed: false,
            peer_closed: false,
        },
        nonblocking: false,
        held: true,
    }
}

pub open spec fn fresh_datagram(id: u64, peer: Option<usize>) -> SocketView {
    SocketView {
        id,
        kind: KindView::Datagram { bound_addr: None, peer, rx_queue: Seq::empty() },
        nonblocking: false,
        held: true,
    }
}

pub open spec fn pending(s: SocketView) -> bool {
    match s.kind {
        KindView::Stream { rx_buf, peer_closed, .. } => rx_buf.len() > 0 || peer_closed,
        KindView::Datagram { rx_queue, .. } => rx_queue.len() > 0,
        KindView::Listener { accept_queue, .. } => accept_queue.len() > 0,
    }
}

pub open spec fn writable(s: SocketView) -> bool {
    match s.kind {
        KindView::Stream { closed, peer_closed, .. } => !closed && !peer_closed,
        KindView::Datagram { .. } => true,
        KindView::Listener { .. } => false,
    }
}

impl AfUnixSocket {
    /// A new stream, with the next number.
    pub fn new_stream(next_id: &mut u64) -> (r: Self)
        ensures
            r@ == fresh_stream(*old(next_id), None),
            *final(next_id) == following(*old(next_id)),
    {
        let id: u64 = *next_id;
        *next_id = next_id.wrapping_add(1);
        let r = AfUnixSocket {
            id,
            kind: AfUnixSocketKind::Stream(
                StreamEndpoint {
                    peer: None,
                    rx_buf: Vec::new(),
                    rx_fds: Vec::new(),
                    closed: false,
                    peer_closed: false,
                },
            ),
            nonblocking: false,
            held: true,
        };
        assert(r@ =~= fresh_stream(id, None));
        r
    }

    pub fn new_datagram(next_id: &mut u64) -> (r: Self)
        ensures
            r@ == fresh_datagram(*old(next_id), None),
            *final(next_id) == following(*old(next_id)),
    {
        let id: u64 = *next_id;
        *next_id = next_id.wrapping_add(1);
        AfUnixSocket {
            id,
            kind: AfUnixSocketKind::Datagram(
                DatagramEndpoint { bound_addr: None, peer: None, rx_queue: Store::new() },
            ),
            nonblocking: false,
            held: true,
        }
    }

    pub fn has_pending_data(&self) -> (r: bool)
        ensures
            r == pending(self@),
    {
        match &self.kind {
            AfUnixSocketKind::Stream(s) => s.rx_buf.len() > 0 || s.peer_closed,
            AfUnixSocketKind::Datagram(d) => d.rx_queue.len() > 0,
            AfUnixSocketKind::Listener(l) => l.accept_queue.len() > 0,
        }
    }

    pub fn can_write(&self) -> (r: bool)
        ensures
            r == writable(self@),
    {
        match &self.kind {
            AfUnixSocketKind::Stream(s) => !s.closed && !s.peer_closed,
            AfUnixSocketKind::Datagram(_) => true,
            AfUnixSocketKind::Listener(_) => false,
        }
    }

    fn set_peer(&mut self, place: usize)
        ensures
            final(self)@ == with_peer(old(self)@, place),
    {
        match &mut self.kind {
            AfUnixSocketKind::Stream(s) => {
                s.peer = Some(place);
            },
            AfUnixSocketKind::Datagram(d) => {
                d.peer = Some(place);
            },
            AfUnixSocketKind::Listener(_) => {},
        }
    }
}

pub open spec fn following(id: u64) -> u64 {
    if id == u64::MAX {
        0
    } else {
        (id + 1) as u64
    }
}

pub open spec fn with_peer(s: SocketView, place: usize) -> SocketView {
    match s.kind {
        KindView::Stream { rx_buf, rx_fds, closed, peer_closed, .. } => SocketView {
            kind: KindView::Stream { peer: Some(place), rx_buf, rx_fds, closed, peer_closed },
            ..s
        },
        KindView::Datagram { bound_addr, rx_queue, .. } => SocketView {
            kind: KindView::Datagram { bound_addr, peer: Some(place), rx_queue },
            ..s
        },
        KindView::Listener { .. } => s,
    }
}

// ---------------------------------------------------------------------------
// All sockets
// ---------------------------------------------------------------------------
/// Every socket there is, and which of them have an address.
#[derive(Debug)]
pub struct UnixSockets {
    pub next_id: u64,
    pub sockets: Store<AfUnixSocket>,
    pub registry: NameMap<usize>,
}

#[verifier::ext_equal]
pub struct UnixView {
    pub next_id: u64,
    pub sockets: Seq<SocketView>,
    pub registry: Map<Seq<u8>, usize>,
}

impl View for UnixSockets {
    type V = UnixView;

    open spec fn view(&self) -> UnixView {
        UnixView { next_id: self.next_id, sockets: self.sockets@, registry: self.registry@ }
    }
}

impl UnixView {
    /// Whether a socket is still held by somebody.
    pub open spec fn alive(self, place: usize) -> bool {
        place < self.sockets.len() && self.sockets[place as int].held
    }

    pub open spec fn with(self, place: usize, s: SocketView) -> UnixView {
        UnixView { sockets: self.sockets.update(place as int, s), ..self }
    }

    pub open spec fn pushed(self, s: SocketView) -> UnixView {
        UnixView {
            next_id: following(self.next_id),
            sockets: self.sockets.push(s),
            ..self
        }
    }

    /// The socket at an address, if it is still held.
    pub open spec fn at(self, address: UnixAddressView) -> Option<usize> {
        let name = registered_name(address);
        if self.registry.dom().contains(name) && self.alive(self.registry[name]) {
            Some(self.registry[name])
        } else {
            None
        }
    }

    pub open spec fn registered(self, address: UnixAddressView, place: usize) -> UnixView {
        UnixView { registry: self.registry.insert(registered_name(address), place), ..self }
    }

    pub open spec fn forgotten(self, address: UnixAddressView) -> UnixView {
        UnixView { registry: self.registry.remove(registered_name(address)), ..self }
    }
}

pub open spec fn woken(s: SchedulerView, id: u64) -> SchedulerView {
    SchedulerView { tasks: switch::pipe_woken(s.tasks, id), ..s }
}

/// A socket of a type: a stream or a datagram socket.
pub open spec fn socket_created(u: UnixView, socket_type: u32) -> (UnixView, Result<usize, ()>) {
    let place = u.sockets.len() as usize;
    if socket_type % 16 == 1 {
        (u.pushed(fresh_stream(u.next_id, None)), Ok(place))
    } else if socket_type % 16 == 2 {
        (u.pushed(fresh_datagram(u.next_id, None)), Ok(place))
    } else {
        (u, Err(()))
    }
}

/// Two sockets, each the other's peer.
pub open spec fn pair_created(u: UnixView, socket_type: u32) -> (
    UnixView,
    Result<(usize, usize), ()>,
) {
    let a = u.sockets.len() as usize;
    let b = (a + 1) as usize;
    if socket_type % 16 == 1 {
        (
            u.pushed(fresh_stream(u.next_id, Some(b))).pushed(
                fresh_stream(following(u.next_id), Some(a)),
            ),
            Ok((a, b)),
        )
    } else if socket_type % 16 == 2 {
        (
            u.pushed(fresh_datagram(u.next_id, Some(b))).pushed(
                fresh_datagram(following(u.next_id), Some(a)),
            ),
            Ok((a, b)),
        )
    } else {
        (u, Err(()))
    }
}

/// A socket closed: it gives up its address, and its peer reads to the end.
pub open spec fn closed(u: UnixView, s: SchedulerView, place: usize) -> (UnixView, SchedulerView) {
    let socket = u.sockets[place as int];
    match socket.kind {
        KindView::Stream { peer, rx_buf, rx_fds, peer_closed, .. } => {
            let u1 = u.with(
                place,
                SocketView {
                    kind: KindView::Stream { peer, rx_buf, rx_fds, closed: true, peer_closed },
                    ..socket
                },
            );
            match peer {
                Some(p) if u1.alive(p) => (
                    match u1.sockets[p as int].kind {
                        KindView::Stream { peer, rx_buf, rx_fds, closed, .. } => u1.with(
                            p,
                            SocketView {
                                kind: KindView::Stream {
                                    peer,
                                    rx_buf,
                                    rx_fds,
                                    closed,
                                    peer_closed: true,
                                },
                                ..u1.sockets[p as int]
                            },
                        ),
                        _ => u1,
                    },
                    woken(woken(s, u1.sockets[p as int].id), socket.id),
                ),
                _ => (u1, woken(s, socket.id)),
            }
        },
        KindView::Datagram { bound_addr, .. } => (
            match bound_addr {
                Some(address) => u.forgotten(address),
                None => u,
            },
            woken(s, socket.id),
        ),
        KindView::Listener { bound_addr, .. } => (
            u.forgotten(bound_addr),
            woken(s, socket.id),
        ),
    }
}

/// The peer that a socket sends to, and whether as a stream.
pub open spec fn recipient(u: UnixView, place: usize) -> Option<(usize, bool)> {
    match u.sockets[place as int].kind {
        KindView::Stream { peer, closed, peer_closed, .. } => match peer {
            Some(p) if !closed && !peer_closed && u.alive(p) => Some((p, true)),
            _ => None,
        },
        KindView::Datagram { peer, .. } => match peer {
            Some(p) if u.alive(p) => Some((p, false)),
            _ => None,
        },
        KindView::Listener { .. } => None,
    }
}

/// What a peer holds after a delivery, if it takes it.
pub open spec fn delivered(kind: KindView, stream: bool, data: Seq<u8>, fds: Seq<FileDescriptor>) -> Option<
    KindView,
> {
    match kind {
        KindView::Stream { peer, rx_buf, rx_fds, closed, peer_closed } => if stream && !closed {
            Some(
                KindView::Stream {
                    peer,
                    rx_buf: rx_buf + data,
                    rx_fds: rx_fds + fds,
                    closed,
                    peer_closed,
                },
            )
        } else {
            None
        },
        KindView::Datagram { bound_addr, peer, rx_queue } => if !stream {
            Some(
                KindView::Datagram {
                    bound_addr,
                    peer,
                    rx_queue: rx_queue.push(UnixDatagramView { sender_addr: None, data, fds }),
                },
            )
        } else {
            None
        },
        KindView::Listener { .. } => None,
    }
}

pub open spec fn sent(
    u: UnixView,
    s: SchedulerView,
    place: usize,
    data: Seq<u8>,
    fds: Seq<FileDescriptor>,
) -> (UnixView, SchedulerView, Result<usize, ()>) {
    match recipient(u, place) {
        None => (u, s, Err(())),
        Some((p, stream)) => {
            let peer = u.sockets[p as int];
            match delivered(peer.kind, stream, data, fds) {
                None => (u, s, Err(())),
                Some(kind) => (
                    u.with(p, SocketView { kind, ..peer }),
                    woken(s, peer.id),
                    Ok(data.len() as usize),
                ),
            }
        },
    }
}

/// What a socket has for its reader, and what it holds afterwards. A datagram
/// that is too long loses its end.
pub open spec fn received(kind: KindView, limit: usize) -> (
    KindView,
    Result<(Seq<u8>, Seq<FileDescriptor>), ()>,
) {
    match kind {
        KindView::Stream { peer, rx_buf, rx_fds, closed, peer_closed } => if rx_buf.len() > 0 {
            let n = at_most(rx_buf.len() as int, limit);
            (
                KindView::Stream {
                    peer,
                    rx_buf: rx_buf.skip(n),
                    rx_fds: Seq::empty(),
                    closed,
                    peer_closed,
                },
                Ok((rx_buf.take(n), rx_fds)),
            )
        } else if peer_closed {
            (kind, Ok((Seq::empty(), Seq::empty())))
        } else {
            (kind, Err(()))
        },
        KindView::Datagram { bound_addr, peer, rx_queue } => if rx_queue.len() > 0 {
            let first = rx_queue[0];
            (
                KindView::Datagram { bound_addr, peer, rx_queue: rx_queue.remove(0) },
                Ok((first.data.take(at_most(first.data.len() as int, limit)), first.fds)),
            )
        } else {
            (kind, Err(()))
        },
        KindView::Listener { .. } => (kind, Err(())),
    }
}

pub open spec fn at_most(length: int, limit: usize) -> int {
    if length <= limit {
        length
    } else {
        limit as int
    }
}

pub open spec fn bound(u: UnixView, place: usize, address: UnixAddressView) -> (
    UnixView,
    Result<(), ()>,
) {
    let socket = u.sockets[place as int];
    if u.at(address) is Some {
        (u, Err(()))
    } else {
        match socket.kind {
            KindView::Stream { .. } => (
                u.with(
                    place,
                    SocketView {
                        kind: KindView::Listener {
                            bound_addr: address,
                            backlog: 128,
                            accept_queue: Seq::empty(),
                        },
                        ..socket
                    },
                ).registered(address, place),
                Ok(()),
            ),
            KindView::Datagram { peer, rx_queue, .. } => (
                u.with(
                    place,
                    SocketView {
                        kind: KindView::Datagram { bound_addr: Some(address), peer, rx_queue },
                        ..socket
                    },
                ).registered(address, place),
                Ok(()),
            ),
            KindView::Listener { .. } => (u, Err(())),
        }
    }
}

pub open spec fn listening(u: UnixView, place: usize, backlog: usize) -> (UnixView, Result<(), ()>) {
    let socket = u.sockets[place as int];
    match socket.kind {
        KindView::Listener { bound_addr, accept_queue, .. } => (
            u.with(
                place,
                SocketView {
                    kind: KindView::Listener {
                        bound_addr,
                        backlog: if backlog == 0 || backlog > 128 {
                            128
                        } else {
                            backlog
                        },
                        accept_queue,
                    },
                    ..socket
                },
            ),
            Ok(()),
        ),
        _ => (u, Err(())),
    }
}

/// A connection: a listener gets a new stream in its queue, whose peer is the
/// caller; a datagram socket becomes the peer.
pub open spec fn connected(u: UnixView, s: SchedulerView, place: usize, address: UnixAddressView) -> (
    UnixView,
    SchedulerView,
    Result<(), ()>,
) {
    match u.at(address) {
        None => (u, s, Err(())),
        Some(target) => {
            let socket = u.sockets[place as int];
            let server = u.sockets.len() as usize;
            match u.sockets[target as int].kind {
                KindView::Listener { bound_addr, backlog, accept_queue } => if socket.kind
                    is Stream {
                    let u1 = u.pushed(fresh_stream(u.next_id, Some(place))).with(
                        place,
                        with_peer(socket, server),
                    );
                    (
                        u1.with(
                            target,
                            SocketView {
                                kind: KindView::Listener {
                                    bound_addr,
                                    backlog,
                                    accept_queue: accept_queue.push(server),
                                },
                                ..u.sockets[target as int]
                            },
                        ),
                        woken(s, u.sockets[target as int].id),
                        Ok(()),
                    )
                } else {
                    (UnixView { next_id: following(u.next_id), ..u }, s, Err(()))
                },
                KindView::Datagram { .. } => if socket.kind is Datagram {
                    (u.with(place, with_peer(socket, target)), s, Ok(()))
                } else {
                    (u, s, Err(()))
                },
                KindView::Stream { .. } => (u, s, Err(())),
            }
        },
    }
}

pub open spec fn accepted(u: UnixView, place: usize, nonblocking: bool) -> (
    UnixView,
    Result<usize, ()>,
) {
    let socket = u.sockets[place as int];
    match socket.kind {
        KindView::Listener { bound_addr, backlog, accept_queue } => if accept_queue.len() > 0 {
            let u1 = u.with(
                place,
                SocketView {
                    kind: KindView::Listener {
                        bound_addr,
                        backlog,
                        accept_queue: accept_queue.remove(0),
                    },
                    ..socket
                },
            );
            let conn = accept_queue[0];
            (
                if nonblocking {
                    u1.with(conn, SocketView { nonblocking: true, ..u1.sockets[conn as int] })
                } else {
                    u1
                },
                Ok(conn),
            )
        } else {
            (u, Err(()))
        },
        _ => (u, Err(())),
    }
}

/// Sockets that nobody holds any more.
pub open spec fn let_go(u: UnixView, places: Seq<usize>, i: int) -> UnixView
    decreases places.len() - i,
{
    if i < 0 || i >= places.len() {
        u
    } else {
        let_go(
            u.with(places[i], SocketView { held: false, ..u.sockets[places[i] as int] }),
            places,
            i + 1,
        )
    }
}

/// A socket that its last holder let go. A listener takes the connections that
/// wait with it.
pub open spec fn let_go_of(u: UnixView, place: usize) -> UnixView {
    let u1 = u.with(place, SocketView { held: false, ..u.sockets[place as int] });
    match u.sockets[place as int].kind {
        KindView::Listener { accept_queue, .. } => let_go(u1, accept_queue, 0),
        _ => u1,
    }
}

impl UnixView {
    /// Connections that wait are there.
    pub open spec fn queues_ok(self) -> bool {
        forall|i: int| 0 <= i < self.sockets.len() ==> queue_ok(#[trigger] self.sockets[i], self.sockets.len())
    }
}

pub open spec fn queue_ok(s: SocketView, count: nat) -> bool {
    match s.kind {
        KindView::Listener { accept_queue, .. } => forall|j: int|
            0 <= j < accept_queue.len() ==> (#[trigger] accept_queue[j]) < count,
        _ => true,
    }
}

/// Queues stay as they are, or hold places that there are.
proof fn lemma_queues(u: UnixView, w: UnixView)
    requires
        u.queues_ok(),
        w.sockets.len() >= u.sockets.len(),
        forall|i: int|
            0 <= i < w.sockets.len() ==> (#[trigger] w.sockets[i]).kind is Listener ==> queue_ok(
                w.sockets[i],
                w.sockets.len(),
            ) || (i < u.sockets.len() && u.sockets[i].kind is Listener
                && w.sockets[i].kind->accept_queue == u.sockets[i].kind->accept_queue),
    ensures
        w.queues_ok(),
{
    assert forall|i: int| 0 <= i < w.sockets.len() implies queue_ok(
        #[trigger] w.sockets[i],
        w.sockets.len(),
    ) by {
        if i < u.sockets.len() {
            assert(queue_ok(u.sockets[i], u.sockets.len()));
        }
    }
}

impl UnixSockets {
    pub open spec fn wf(&self) -> bool {
        self.registry.wf() && self@.queues_ok()
    }

    pub fn new() -> (r: Self)
        ensures
            r.wf(),
            r@ == (UnixView {
                next_id: FIRST_SOCKET_ID,
                sockets: Seq::empty(),
                registry: Map::empty(),
            }),
    {
        UnixSockets { next_id: FIRST_SOCKET_ID, sockets: Store::new(), registry: NameMap::new() }
    }

    fn is_alive(&self, place: usize) -> (r: bool)
        ensures
            r == self@.alive(place),
    {
        place < self.sockets.len() && self.sockets.get(place).held
    }

    fn find(&self, address: &UnixAddress) -> (r: Option<usize>)
        requires
            self.wf(),
        ensures
            r == self@.at(address@),
    {
        let name: Vec<u8> = address.to_name();
        match self.registry.get(name.as_slice()) {
            None => None,
            Some(place) => if self.is_alive(place) {
                Some(place)
            } else {
                None
            },
        }
    }

    fn register(&mut self, address: &UnixAddress, place: usize)
        requires
            old(self).wf(),
        ensures
            final(self).wf(),
            final(self)@ == old(self)@.registered(address@, place),
    {
        let name: Vec<u8> = address.to_name();
        self.registry.insert(name.as_slice(), place);
        proof {
            lemma_queues(old(self)@, self@);
        }
    }
}

pub fn create_socket(unix: &mut UnixSockets, socket_type: u32) -> (r: Result<usize, ()>)
    requires
        old(unix).wf(),
    ensures
        final(unix).wf(),
        (final(unix)@, r) == socket_created(old(unix)@, socket_type),
{
    match socket_type % 16 {
        1 => {
            let socket = AfUnixSocket::new_stream(&mut unix.next_id);
            let place: usize = unix.sockets.push(socket);
            proof {
                lemma_queues(old(unix)@, unix@);
            }
            Ok(place)
        },
        2 => {
            let socket = AfUnixSocket::new_datagram(&mut unix.next_id);
            let place: usize = unix.sockets.push(socket);
            proof {
                lemma_queues(old(unix)@, unix@);
            }
            Ok(place)
        },
        _ => Err(()),
    }
}

pub fn create_socketpair(unix: &mut UnixSockets, socket_type: u32) -> (r: Result<(usize, usize), ()>)
    requires
        old(unix).wf(),
        old(unix)@.sockets.len() + 1 < usize::MAX,
    ensures
        final(unix).wf(),
        (final(unix)@, r) == pair_created(old(unix)@, socket_type),
{
    let a: usize = unix.sockets.len();
    let b: usize = a + 1;
    match socket_type % 16 {
        1 => {
            let mut first = AfUnixSocket::new_stream(&mut unix.next_id);
            let mut second = AfUnixSocket::new_stream(&mut unix.next_id);
            first.set_peer(b);
            second.set_peer(a);
            let _ = unix.sockets.push(first);
            let _ = unix.sockets.push(second);
            Ok((a, b))
        },
        2 => {
            let mut first = AfUnixSocket::new_datagram(&mut unix.next_id);
            let mut second = AfUnixSocket::new_datagram(&mut unix.next_id);
            first.set_peer(b);
            second.set_peer(a);
            let _ = unix.sockets.push(first);
            let _ = unix.sockets.push(second);
            Ok((a, b))
        },
        _ => Err(()),
    }
}

/// Closes a socket.
pub fn close(unix: &mut UnixSockets, scheduler: &mut Scheduler, place: usize)
    requires
        old(unix).wf(),
        old(scheduler)@.wf(),
        place < old(unix)@.sockets.len(),
    ensures
        final(unix).wf(),
        final(scheduler)@.wf(),
        (final(unix)@, final(scheduler)@) == closed(old(unix)@, old(scheduler)@, place),
{
    let id: u64 = unix.sockets.get(place).id;
    let mut name: Option<Vec<u8>> = None;
    let mut peer: Option<usize> = None;
    let socket = unix.sockets.at_mut(place);
    match &mut socket.kind {
        AfUnixSocketKind::Stream(s) => {
            s.closed = true;
            peer = s.peer;
        },
        AfUnixSocketKind::Datagram(d) => {
            if let Some(address) = &d.bound_addr {
                name = Some(address.to_name());
            }
        },
        AfUnixSocketKind::Listener(l) => {
            name = Some(l.bound_addr.to_name());
        },
    }
    if let Some(name) = name {
        let _ = unix.registry.remove(name.as_slice());
    }
    if let Some(p) = peer {
        if unix.is_alive(p) {
            let other = unix.sockets.at_mut(p);
            let other_id: u64 = other.id;
            if let AfUnixSocketKind::Stream(s) = &mut other.kind {
                s.peer_closed = true;
            }
            wake_pipe_waiters(scheduler, other_id);
        }
    }
    wake_pipe_waiters(scheduler, id);
    assert(unix@ =~= closed(old(unix)@, old(scheduler)@, place).0);
}

pub fn send_af_unix(
    unix: &mut UnixSockets,
    scheduler: &mut Scheduler,
    place: usize,
    data: &[u8],
    passed_fds: Vec<FileDescriptor>,
) -> (r: Result<usize, ()>)
    requires
        old(unix).wf(),
        old(scheduler)@.wf(),
        place < old(unix)@.sockets.len(),
    ensures
        final(unix).wf(),
        final(scheduler)@.wf(),
        (final(unix)@, final(scheduler)@, r) == sent(
            old(unix)@,
            old(scheduler)@,
            place,
            data@,
            passed_fds@,
        ),
{
    let (peer, stream): (Option<usize>, bool) = match &unix.sockets.get(place).kind {
        AfUnixSocketKind::Stream(s) => (
            if s.closed || s.peer_closed {
                None
            } else {
                s.peer
            },
            true,
        ),
        AfUnixSocketKind::Datagram(d) => (d.peer, false),
        AfUnixSocketKind::Listener(_) => (None, false),
    };
    let p: usize = match peer {
        None => {
            return Err(());
        },
        Some(p) => p,
    };
    if !unix.is_alive(p) {
        return Err(());
    }
    let mut passed = passed_fds;
    let takes: bool = match &unix.sockets.get(p).kind {
        AfUnixSocketKind::Stream(s) => stream && !s.closed,
        AfUnixSocketKind::Datagram(_) => !stream,
        AfUnixSocketKind::Listener(_) => false,
    };
    if !takes {
        return Err(());
    }
    let other = unix.sockets.at_mut(p);
    let id: u64 = other.id;
    match &mut other.kind {
        AfUnixSocketKind::Stream(s) => {
            let ghost before = s.rx_fds@;
            s.rx_buf.extend_from_slice(data);
            s.rx_fds.append(&mut passed);
            assert(s.rx_fds@ =~= before + passed_fds@);
        },
        AfUnixSocketKind::Datagram(d) => {
            let _ = d.rx_queue.push(
                UnixDatagram {
                    sender_addr: None,
                    data: vstd::slice::slice_to_vec(data),
                    fds: passed,
                },
            );
        },
        AfUnixSocketKind::Listener(_) => {},
    }
    wake_pipe_waiters(scheduler, id);
    proof {
        let kind = delivered(old(unix)@.sockets[p as int].kind, stream, data@, passed_fds@)->0;
        assert(unix@.sockets[p as int].kind =~= kind);
        assert(unix@ =~= sent(old(unix)@, old(scheduler)@, place, data@, passed_fds@).0);
    }
    Ok(data.len())
}

pub fn recv_af_unix(unix: &mut UnixSockets, place: usize, limit: usize) -> (r: Result<
    (Vec<u8>, Vec<FileDescriptor>),
    (),
>)
    requires
        old(unix).wf(),
        place < old(unix)@.sockets.len(),
    ensures
        final(unix).wf(),
        ({
            let socket = old(unix)@.sockets[place as int];
            let (kind, out) = received(socket.kind, limit);
            &&& final(unix)@ == old(unix)@.with(place, SocketView { kind, ..socket })
            &&& match r {
                Ok((data, fds)) => out == Ok::<(Seq<u8>, Seq<FileDescriptor>), ()>(
                    (data@, fds@),
                ),
                Err(_) => out is Err,
            }
        }),
{
    let socket = unix.sockets.at_mut(place);
    match &mut socket.kind {
        AfUnixSocketKind::Stream(s) => if s.rx_buf.len() > 0 {
            let n: usize = if s.rx_buf.len() <= limit {
                s.rx_buf.len()
            } else {
                limit
            };
            let data: Vec<u8> = drain_front(&mut s.rx_buf, n);
            let mut fds: Vec<FileDescriptor> = Vec::new();
            core::mem::swap(&mut fds, &mut s.rx_fds);
            assert(s.rx_fds@ =~= Seq::<FileDescriptor>::empty());
            Ok((data, fds))
        } else if s.peer_closed {
            let data: Vec<u8> = Vec::new();
            let fds: Vec<FileDescriptor> = Vec::new();
            assert(data@ =~= Seq::<u8>::empty());
            assert(fds@ =~= Seq::<FileDescriptor>::empty());
            Ok((data, fds))
        } else {
            Err(())
        },
        AfUnixSocketKind::Datagram(d) => if d.rx_queue.len() > 0 {
            let first = d.rx_queue.remove(0);
            let n: usize = if first.data.len() <= limit {
                first.data.len()
            } else {
                limit
            };
            let data: Vec<u8> = copy_range(first.data.as_slice(), 0, n);
            Ok((data, first.fds))
        } else {
            Err(())
        },
        AfUnixSocketKind::Listener(_) => Err(()),
    }
}

pub fn bind_af_unix(unix: &mut UnixSockets, place: usize, address: &UnixAddress) -> (r: Result<
    (),
    (),
>)
    requires
        old(unix).wf(),
        place < old(unix)@.sockets.len(),
    ensures
        final(unix).wf(),
        (final(unix)@, r) == bound(old(unix)@, place, address@),
{
    if unix.find(address).is_some() {
        return Err(());
    }
    let socket = unix.sockets.at_mut(place);
    let stream: bool = match &socket.kind {
        AfUnixSocketKind::Stream(_) => true,
        AfUnixSocketKind::Datagram(_) => false,
        AfUnixSocketKind::Listener(_) => {
            return Err(());
        },
    };
    if stream {
        let accept_queue: Vec<usize> = Vec::new();
        assert(accept_queue@ =~= Seq::<usize>::empty());
        socket.kind =
        AfUnixSocketKind::Listener(
            ListenerEndpoint { bound_addr: address.copy(), backlog: MAX_BACKLOG, accept_queue },
        );
    } else if let AfUnixSocketKind::Datagram(d) = &mut socket.kind {
        d.bound_addr = Some(address.copy());
    }
    unix.register(address, place);
    Ok(())
}

pub fn listen_af_unix(unix: &mut UnixSockets, place: usize, backlog: usize) -> (r: Result<(), ()>)
    requires
        old(unix).wf(),
        place < old(unix)@.sockets.len(),
    ensures
        final(unix).wf(),
        (final(unix)@, r) == listening(old(unix)@, place, backlog),
{
    let socket = unix.sockets.at_mut(place);
    if let AfUnixSocketKind::Listener(l) = &mut socket.kind {
        l.backlog =
        if backlog == 0 || backlog > MAX_BACKLOG {
            MAX_BACKLOG
        } else {
            backlog
        };
        proof {
            lemma_queues(old(unix)@, unix@);
        }
        Ok(())
    } else {
        Err(())
    }
}

pub fn connect_af_unix(
    unix: &mut UnixSockets,
    scheduler: &mut Scheduler,
    place: usize,
    address: &UnixAddress,
) -> (r: Result<(), ()>)
    requires
        old(unix).wf(),
        old(scheduler)@.wf(),
        place < old(unix)@.sockets.len(),
        old(unix)@.sockets.len() < usize::MAX,
        old(unix)@.at(address@) != Some(place),
    ensures
        final(unix).wf(),
        final(scheduler)@.wf(),
        (final(unix)@, final(scheduler)@, r) == connected(
            old(unix)@,
            old(scheduler)@,
            place,
            address@,
        ),
{
    let target: usize = match unix.find(address) {
        None => {
            return Err(());
        },
        Some(target) => target,
    };
    let from_stream: bool = match &unix.sockets.get(place).kind {
        AfUnixSocketKind::Stream(_) => true,
        _ => false,
    };
    let from_datagram: bool = match &unix.sockets.get(place).kind {
        AfUnixSocketKind::Datagram(_) => true,
        _ => false,
    };
    let (to_listener, to_datagram): (bool, bool) = match &unix.sockets.get(target).kind {
        AfUnixSocketKind::Listener(_) => (true, false),
        AfUnixSocketKind::Datagram(_) => (false, true),
        AfUnixSocketKind::Stream(_) => (false, false),
    };
    if to_listener {
        let mut server = AfUnixSocket::new_stream(&mut unix.next_id);
        if !from_stream {
            return Err(());
        }
        server.set_peer(place);
        let server_place: usize = unix.sockets.push(server);
        unix.sockets.at_mut(place).set_peer(server_place);
        let listener = unix.sockets.at_mut(target);
        let id: u64 = listener.id;
        if let AfUnixSocketKind::Listener(l) = &mut listener.kind {
            l.accept_queue.push(server_place);
        }
        wake_pipe_waiters(scheduler, id);
        proof {
            assert(unix@ =~= connected(old(unix)@, old(scheduler)@, place, address@).0);
        }
        Ok(())
    } else if to_datagram {
        if from_datagram {
            unix.sockets.at_mut(place).set_peer(target);
            Ok(())
        } else {
            Err(())
        }
    } else {
        Err(())
    }
}

pub fn accept_af_unix(unix: &mut UnixSockets, place: usize, nonblocking: bool) -> (r: Result<
    usize,
    (),
>)
    requires
        old(unix).wf(),
        place < old(unix)@.sockets.len(),
    ensures
        final(unix).wf(),
        (final(unix)@, r) == accepted(old(unix)@, place, nonblocking),
{
    assert(queue_ok(unix@.sockets[place as int], unix@.sockets.len()));
    let socket = unix.sockets.at_mut(place);
    let conn: usize = match &mut socket.kind {
        AfUnixSocketKind::Listener(l) => if l.accept_queue.len() > 0 {
            l.accept_queue.remove(0)
        } else {
            return Err(());
        },
        _ => {
            return Err(());
        },
    };
    if nonblocking {
        let accepted_socket = unix.sockets.at_mut(conn);
        accepted_socket.nonblocking = true;
    }
    Ok(conn)
}

/// The last holder of a socket lets it go.
pub fn release(unix: &mut UnixSockets, place: usize)
    requires
        old(unix).wf(),
        place < old(unix)@.sockets.len(),
    ensures
        final(unix).wf(),
        final(unix)@ == let_go_of(old(unix)@, place),
{
    let mut waiting: Vec<usize> = Vec::new();
    assert(queue_ok(unix@.sockets[place as int], unix@.sockets.len()));
    let socket = unix.sockets.at_mut(place);
    socket.held = false;
    if let AfUnixSocketKind::Listener(l) = &socket.kind {
        waiting = copy_places(&l.accept_queue);
    }
    let ghost u1 = unix@;
    proof {
        lemma_queues(old(unix)@, unix@);
        assert(queue_ok(u1.sockets[place as int], u1.sockets.len()));
    }
    let mut i: usize = 0;
    while i < waiting.len()
        invariant
            i <= waiting.len(),
            unix.wf(),
            forall|j: int| 0 <= j < waiting.len() ==> (#[trigger] waiting@[j]) < unix@.sockets.len(),
            let_go(unix@, waiting@, i as int) == let_go(u1, waiting@, 0),
        decreases waiting.len() - i,
    {
        let queued = unix.sockets.at_mut(waiting[i]);
        queued.held = false;
        i += 1;
    }
}

fn copy_places(places: &Vec<usize>) -> (r: Vec<usize>)
    ensures
        r@ == places@,
{
    vstd::slice::slice_to_vec(places.as_slice())
}

// ---------------------------------------------------------------------------
// Laws
// ---------------------------------------------------------------------------
/// What is sent through one end of a stream pair comes out of the other, after
/// what was sent before, with the descriptors.
pub proof fn law_stream_keeps_order(
    u: UnixView,
    s: SchedulerView,
    a: usize,
    b: usize,
    first: Seq<u8>,
    second: Seq<u8>,
    fds: Seq<FileDescriptor>,
    limit: usize,
)
    requires
        a < u.sockets.len(),
        b < u.sockets.len(),
        a != b,
        u.alive(b),
        u.sockets[a as int].kind matches KindView::Stream { peer, closed, peer_closed, .. }
            && peer == Some(b) && !closed && !peer_closed,
        u.sockets[b as int].kind matches KindView::Stream { rx_buf, rx_fds, closed, .. }
            && rx_buf.len() == 0 && rx_fds.len() == 0 && !closed,
        first.len() + second.len() > 0,
        first.len() + second.len() <= limit,
    ensures
        ({
            let (u1, s1, r1) = sent(u, s, a, first, fds);
            let (u2, s2, r2) = sent(u1, s1, a, second, Seq::empty());
            &&& r1 == Ok::<usize, ()>(first.len() as usize)
            &&& r2 == Ok::<usize, ()>(second.len() as usize)
            &&& received(u2.sockets[b as int].kind, limit).1 == Ok::<
                (Seq<u8>, Seq<FileDescriptor>),
                (),
            >((first + second, fds))
        }),
{
    let (u1, s1, r1) = sent(u, s, a, first, fds);
    let (u2, s2, r2) = sent(u1, s1, a, second, Seq::empty());
    assert(u1.sockets[a as int] == u.sockets[a as int]);
    if let KindView::Stream { rx_buf, rx_fds, .. } = u2.sockets[b as int].kind {
        assert(rx_buf =~= first + second);
        assert(rx_fds =~= fds);
        assert(rx_buf.take(rx_buf.len() as int) =~= rx_buf);
    }
}

/// A datagram comes out as it was sent, one at a time, in the order sent.
pub proof fn law_datagram_keeps_bounds(
    kind: KindView,
    data: Seq<u8>,
    fds: Seq<FileDescriptor>,
    limit: usize,
)
    requires
        kind matches KindView::Datagram { rx_queue, .. } && rx_queue.len() == 0,
        data.len() <= limit,
    ensures
        delivered(kind, false, data, fds) matches Some(after) && received(after, limit) == (
            kind,
            Ok::<(Seq<u8>, Seq<FileDescriptor>), ()>((data, fds)),
        ),
{
    if let KindView::Datagram { rx_queue, .. } = kind {
        let d = UnixDatagramView { sender_addr: None, data, fds };
        assert(rx_queue.push(d).remove(0) =~= rx_queue);
        assert(data.take(data.len() as int) =~= data);
    }
}

/// After one end of a stream is closed, the other reads what is left and then
/// the end, and can send nothing more.
pub proof fn law_closed_peer_ends(u: UnixView, s: SchedulerView, a: usize, b: usize, data: Seq<u8>)
    requires
        a < u.sockets.len(),
        b < u.sockets.len(),
        a != b,
        u.alive(b),
        u.sockets[a as int].kind matches KindView::Stream { peer, .. } && peer == Some(b),
        u.sockets[b as int].kind matches KindView::Stream { rx_buf, .. } && rx_buf.len() == 0,
    ensures
        ({
            let (u1, s1) = closed(u, s, a);
            &&& received(u1.sockets[b as int].kind, 1).1 == Ok::<
                (Seq<u8>, Seq<FileDescriptor>),
                (),
            >((Seq::empty(), Seq::empty()))
            &&& sent(u1, s1, b, data, Seq::empty()).2 is Err
        }),
{
}

} // verus!
