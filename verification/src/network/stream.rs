//! Operations on open sockets: connecting, sending, receiving, closing.
use vstd::prelude::*;
use vstd::slice::slice_subrange;

use crate::bytes::{self, copy_range, drain_front};
use crate::net::{self, Ipv4Address, MacAddress};
use crate::network::{
    self, generate_isn, socket_create, take_port, tcp_out, Counters, DEFAULT_WINDOW_SIZE,
    MAX_TCP_CHUNK_SIZE, NetView, Network, NetworkError, NetworkState, RESOLVE_POLL_ATTEMPTS,
    Socket, SocketOptions, SocketView, TCP_POLL_ATTEMPTS, TcpConnection, TcpSocket, TcpState,
    TcpView, UdpView,
};
use crate::virtio_net;

verus! {

/// How far a connection attempt has come.
#[derive(Clone, Copy, Debug, Eq, PartialEq, Structural)]
pub enum ConnectProgress {
    Start,
    Resolving { attempts: usize },
    Handshake { attempts: usize },
}

/// How far a send has come. Only a datagram to a neighbour whose hardware
/// address is not known yet has to wait.
#[derive(Clone, Copy, Debug, Eq, PartialEq)]
pub enum SendProgress {
    Start,
    Resolving { dest_ip: Ipv4Address, dest_port: u16, local_port: u16, attempts: usize },
}

// ---------------------------------------------------------------------------
// Connecting
// ---------------------------------------------------------------------------
/// Opening a connection once the peer's hardware address is known: a TCP
/// socket sends its request, a UDP socket remembers its peer.
pub open spec fn connect_send(
    n: NetView,
    handle: u32,
    mac: MacAddress,
    ip: Ipv4Address,
    port: u16,
    nonblocking: bool,
) -> (Result<bool, NetworkError>, NetView, ConnectProgress) {
    let key = handle as u64;
    let start = ConnectProgress::Start;
    if !n.sockets.dom().contains(key) {
        (Err(NetworkError::SocketNotFound), n, start)
    } else {
        match n.sockets[key] {
            SocketView::Tcp(t) => {
                if t.state is Established {
                    (Err(NetworkError::AlreadyConnected), n, start)
                } else {
                    let counters = if t.local_port == 0 {
                        network::port_taken(n.counters)
                    } else {
                        n.counters
                    };
                    let local_port = if t.local_port == 0 {
                        n.counters.next_port
                    } else {
                        t.local_port
                    };
                    let sequence = network::isn(counters.isn_counter, local_port, port);
                    let asking = TcpView {
                        local_port,
                        remote_ip: ip,
                        remote_port: port,
                        remote_mac: Some(mac),
                        seq_num: sequence,
                        state: TcpState::SynSent,
                        ..t
                    };
                    let asked = NetView {
                        counters: Counters {
                            isn_counter: counters.isn_counter.wrapping_add(0x1000),
                            ..counters
                        },
                        sockets: n.sockets.insert(key, SocketView::Tcp(asking)),
                        ..n
                    };
                    match n.fault {
                        Some(e) => (Err(NetworkError::Device(e)), asked, start),
                        None => (
                            Ok(nonblocking),
                            asked.sending(
                                seq![
                                    n.tcp_out(
                                        mac,
                                        ip,
                                        local_port,
                                        port,
                                        sequence,
                                        0,
                                        net::TCP_SYN,
                                        Seq::empty(),
                                    ),
                                ],
                            ),
                            if nonblocking {
                                start
                            } else {
                                ConnectProgress::Handshake { attempts: TCP_POLL_ATTEMPTS }
                            },
                        ),
                    }
                }
            },
            SocketView::Udp(u) => (
                Ok(true),
                NetView {
                    counters: if u.local_port == 0 {
                        network::port_taken(n.counters)
                    } else {
                        n.counters
                    },
                    sockets: n.sockets.insert(
                        key,
                        SocketView::Udp(
                            UdpView {
                                connected_peer: Some((ip, port)),
                                local_port: if u.local_port == 0 {
                                    n.counters.next_port
                                } else {
                                    u.local_port
                                },
                                bound: u.local_port == 0 || u.bound,
                                ..u
                            },
                        ),
                    ),
                    ..n
                },
                start,
            ),
            SocketView::Raw => (Ok(true), n, start),
        }
    }
}

/// One look at whether the peer has answered.
pub open spec fn handshake_look(n: NetView, handle: u32, attempts: usize) -> (
    Result<bool, NetworkError>,
    NetView,
    ConnectProgress,
) {
    let p = network::polled(n);
    let key = handle as u64;
    let start = ConnectProgress::Start;
    if attempts == 0 {
        (Err(NetworkError::TcpHandshakeTimeout), n, start)
    } else if n.fault is Some {
        (Err(NetworkError::Device(n.fault->0)), p, start)
    } else if !p.sockets.dom().contains(key) {
        (Err(NetworkError::SocketNotFound), p, start)
    } else {
        let again = (
            Ok(false),
            p,
            ConnectProgress::Handshake { attempts: (attempts - 1) as usize },
        );
        match p.sockets[key] {
            SocketView::Tcp(t) => {
                if t.state is Established {
                    (Ok(true), NetView { tcp_connected: true, ..p }, start)
                } else if t.state is Reset || t.state is Closed {
                    (Err(NetworkError::ConnectionReset), p, start)
                } else {
                    again
                }
            },
            _ => again,
        }
    }
}

/// One step of connecting.
pub open spec fn connect_step(
    n: NetView,
    handle: u32,
    ip: Ipv4Address,
    port: u16,
    nonblocking: bool,
    progress: ConnectProgress,
) -> (Result<bool, NetworkError>, NetView, ConnectProgress) {
    match progress {
        ConnectProgress::Handshake { attempts } => handshake_look(n, handle, attempts),
        ConnectProgress::Start => {
            let (found, m) = network::resolve_start(n, ip);
            match found {
                Err(e) => (Err(e), m, ConnectProgress::Start),
                Ok(Some(mac)) => connect_send(m, handle, mac, ip, port, nonblocking),
                Ok(None) => (
                    Ok(false),
                    m,
                    ConnectProgress::Resolving { attempts: RESOLVE_POLL_ATTEMPTS },
                ),
            }
        },
        ConnectProgress::Resolving { attempts } => {
            let (found, m) = network::resolve_look(n, ip, attempts);
            match found {
                Err(e) => (Err(e), m, ConnectProgress::Start),
                Ok(Some(mac)) => connect_send(m, handle, mac, ip, port, nonblocking),
                Ok(None) => (
                    Ok(false),
                    m,
                    ConnectProgress::Resolving { attempts: (attempts - 1) as usize },
                ),
            }
        },
    }
}

impl NetworkState {
    fn connect_send(
        &mut self,
        counters: &mut Counters,
        handle: u32,
        mac: MacAddress,
        ip: Ipv4Address,
        port: u16,
        nonblocking: bool,
    ) -> (r: (Result<bool, NetworkError>, ConnectProgress))
        requires
            old(self).wf(),
        ensures
            final(self).wf(),
            (r.0, final(self).with(*final(counters)), r.1) == connect_send(
                old(self).with(*old(counters)),
                handle,
                mac,
                ip,
                port,
                nonblocking,
            ),
    {
        let ghost n = self.with(*counters);
        let ghost m = self.sockets@;
        let key: u64 = handle as u64;
        let our_mac = self.device.mac;
        let our_ip = self.configuration.address;
        if !self.sockets.contains_key(key) {
            return (Err(NetworkError::SocketNotFound), ConnectProgress::Start);
        }
        if let Some(Socket::Tcp(tcp)) = self.sockets.get(key) {
            if tcp.state == TcpState::Established {
                return (Err(NetworkError::AlreadyConnected), ConnectProgress::Start);
            }
        }
        let mut syn: Option<(u16, u32)> = None;
        match self.sockets.at_mut(key) {
            Socket::Tcp(tcp) => {
                if tcp.local_port == 0 {
                    tcp.local_port = take_port(counters);
                }
                tcp.remote_ip = ip;
                tcp.remote_port = port;
                tcp.remote_mac = Some(mac);
                let sequence = generate_isn(counters, tcp.local_port, port);
                tcp.seq_num = sequence;
                tcp.state = TcpState::SynSent;
                syn = Some((tcp.local_port, sequence));
            },
            Socket::Udp(udp) => {
                udp.connected_peer = Some((ip, port));
                if udp.local_port == 0 {
                    udp.local_port = take_port(counters);
                    udp.bound = true;
                }
            },
            Socket::Raw => {},
        }
        proof {
            let v = self.sockets@[key];
            network::lemma_views_insert(m, key, v);
            assert(self.sockets@ =~= m.insert(key, v));
            if m[key] is Raw {
                assert(network::socket_views(self.sockets@) =~= network::socket_views(m));
            }
        }
        match syn {
            None => (Ok(true), ConnectProgress::Start),
            Some((local_port, sequence)) => {
                let nothing: [u8; 0] = [];
                assert(nothing@ =~= Seq::<u8>::empty());
                let frame = tcp_out(
                    our_mac,
                    our_ip,
                    mac,
                    ip,
                    local_port,
                    port,
                    sequence,
                    0,
                    net::TCP_SYN,
                    nothing.as_slice(),
                );
                let ghost sent = self.device.sent();
                match self.device.transmit(frame) {
                    Err(e) => (Err(NetworkError::Device(e)), ConnectProgress::Start),
                    Ok(_) => {
                        assert(sent + seq![frame@] =~= sent.push(frame@));
                        if nonblocking {
                            (Ok(true), ConnectProgress::Start)
                        } else {
                            (
                                Ok(false),
                                ConnectProgress::Handshake { attempts: TCP_POLL_ATTEMPTS },
                            )
                        }
                    },
                }
            },
        }
    }

    fn handshake_look(&mut self, counters: &mut Counters, handle: u32, attempts: usize) -> (r: (
        Result<bool, NetworkError>,
        ConnectProgress,
    ))
        requires
            old(self).wf(),
        ensures
            final(self).wf(),
            (r.0, final(self).with(*final(counters)), r.1) == handshake_look(
                old(self).with(*old(counters)),
                handle,
                attempts,
            ),
    {
        if attempts == 0 {
            return (Err(NetworkError::TcpHandshakeTimeout), ConnectProgress::Start);
        }
        if let Err(e) = self.poll_network_locked(counters) {
            return (Err(e), ConnectProgress::Start);
        }
        match self.sockets.get(handle as u64) {
            None => (Err(NetworkError::SocketNotFound), ConnectProgress::Start),
            Some(Socket::Tcp(tcp)) => {
                if tcp.state == TcpState::Established {
                    self.tcp_connected = true;
                    (Ok(true), ConnectProgress::Start)
                } else if tcp.state == TcpState::Reset || tcp.state == TcpState::Closed {
                    (Err(NetworkError::ConnectionReset), ConnectProgress::Start)
                } else {
                    (Ok(false), ConnectProgress::Handshake { attempts: attempts - 1 })
                }
            },
            _ => (Ok(false), ConnectProgress::Handshake { attempts: attempts - 1 }),
        }
    }
}

/// Connects a socket to a peer, one step to a call. `Ok(true)` says that the
/// socket is connected (or, without blocking, that the request is on its way),
/// `Ok(false)` asks for another call once more frames have arrived.
pub fn socket_connect(
    network: &mut Network,
    handle: u32,
    remote_ip: Ipv4Address,
    remote_port: u16,
    nonblocking: bool,
    progress: &mut ConnectProgress,
) -> (r: Result<bool, NetworkError>)
    requires
        old(network).wf(),
    ensures
        final(network).wf(),
        final(network).state is Some <==> old(network).state is Some,
        remote_port == 0 ==> r == Err::<bool, NetworkError>(NetworkError::InvalidTcpPort)
            && *final(network) == *old(network) && *final(progress) == *old(progress),
        remote_port != 0 && old(network).state is None ==> r == Err::<bool, NetworkError>(
            NetworkError::Unavailable,
        ) && *final(network) == *old(network) && *final(progress) == *old(progress),
        remote_port != 0 && old(network).state is Some ==> (r, final(network)@, *final(progress))
            == connect_step(
            old(network)@,
            handle,
            remote_ip,
            remote_port,
            nonblocking,
            *old(progress),
        ),
{
    if remote_port == 0 {
        return Err(NetworkError::InvalidTcpPort);
    }
    match &mut network.state {
        None => Err(NetworkError::Unavailable),
        Some(state) => {
            let (found, waiting) = match *progress {
                ConnectProgress::Handshake { attempts } => {
                    let (r, next) = state.handshake_look(&mut network.counters, handle, attempts);
                    *progress = next;
                    return r;
                },
                ConnectProgress::Start => (
                    state.resolve_destination_mac(remote_ip),
                    RESOLVE_POLL_ATTEMPTS,
                ),
                ConnectProgress::Resolving { attempts } => (
                    state.resolve_poll(remote_ip, attempts),
                    if attempts == 0 {
                        0
                    } else {
                        attempts - 1
                    },
                ),
            };
            match found {
                Err(e) => {
                    *progress = ConnectProgress::Start;
                    Err(e)
                },
                Ok(Some(mac)) => {
                    let (r, next) = state.connect_send(
                        &mut network.counters,
                        handle,
                        mac,
                        remote_ip,
                        remote_port,
                        nonblocking,
                    );
                    *progress = next;
                    r
                },
                Ok(None) => {
                    *progress = ConnectProgress::Resolving { attempts: waiting };
                    Ok(false)
                },
            }
        },
    }
}

// ---------------------------------------------------------------------------
// Sending
// ---------------------------------------------------------------------------
/// The frame that carries `part` over a connection.
#[verifier::opaque]
pub open spec fn chunk_frame(
    our_mac: MacAddress,
    our_ip: Ipv4Address,
    mac: MacAddress,
    t: TcpView,
    sequence: u32,
    part: Seq<u8>,
) -> Seq<u8> {
    net::tcp_frame(
        our_mac@,
        mac@,
        our_ip@,
        t.remote_ip@,
        t.local_port,
        t.remote_port,
        sequence,
        t.ack_num,
        0x18,
        DEFAULT_WINDOW_SIZE,
        part,
    )
}

/// The frames that carry `bytes` over a connection, in segments of at most
/// 1400 bytes with consecutive sequence numbers.
pub open spec fn chunks(
    our_mac: MacAddress,
    our_ip: Ipv4Address,
    mac: MacAddress,
    t: TcpView,
    sequence: u32,
    bytes: Seq<u8>,
) -> Seq<Seq<u8>>
    decreases bytes.len(),
{
    if bytes.len() == 0 {
        Seq::empty()
    } else {
        let size = if bytes.len() <= MAX_TCP_CHUNK_SIZE {
            bytes.len() as int
        } else {
            MAX_TCP_CHUNK_SIZE as int
        };
        seq![chunk_frame(our_mac, our_ip, mac, t, sequence, bytes.take(size))] + chunks(our_mac, our_ip, mac, t, sequence.wrapping_add(size as u32), bytes.skip(size))
    }
}

/// The sequence number `len` bytes after `sequence`.
pub open spec fn advanced(sequence: u32, len: nat) -> u32 {
    ((sequence + len) % 0x1_0000_0000) as u32
}

/// Sending over a connection: everything goes out, the socket's sequence
/// number moves on and what has arrived meanwhile is handled.
pub open spec fn send_tcp(n: NetView, handle: u32, t: TcpView, bytes: Seq<u8>) -> (
    Result<Option<usize>, NetworkError>,
    NetView,
) {
    if t.state !is Established && t.state !is CloseWait {
        (Err(NetworkError::NotConnected), n)
    } else if t.remote_mac is None {
        (Err(NetworkError::GatewayUnreachable), n)
    } else if bytes.len() > 0 && n.fault is Some {
        (Err(NetworkError::Device(n.fault->0)), n)
    } else {
        let mac = t.remote_mac->0;
        let sent = NetView {
            sockets: n.sockets.insert(
                handle as u64,
                SocketView::Tcp(TcpView { seq_num: advanced(t.seq_num, bytes.len()), ..t }),
            ),
            ..n.sending(
                chunks(n.mac, n.configuration.address, mac, t, t.seq_num, bytes),
            )
        };
        (Ok(Some(bytes.len() as usize)), network::polled(sent))
    }
}

/// The frame of a datagram from this host.
pub open spec fn udp_out(
    n: NetView,
    mac: MacAddress,
    ip: Ipv4Address,
    local_port: u16,
    port: u16,
    bytes: Seq<u8>,
) -> Seq<u8> {
    net::ipv4_frame(
        n.mac@,
        mac@,
        n.configuration.address@,
        ip@,
        net::IP_PROTOCOL_UDP,
        local_port,
        0x4000,
        64,
        net::udp_sealed(n.configuration.address@, ip@, local_port, port, bytes),
    )
}

/// Sending a datagram after one step of resolving its destination.
pub open spec fn send_resolved(
    resolution: (Result<Option<MacAddress>, NetworkError>, NetView),
    ip: Ipv4Address,
    port: u16,
    local_port: u16,
    attempts: int,
    bytes: Seq<u8>,
) -> (Result<Option<usize>, NetworkError>, NetView, SendProgress) {
    let m = resolution.1;
    match resolution.0 {
        Err(e) => (Err(e), m, SendProgress::Start),
        Ok(None) => (
            Ok(None),
            m,
            SendProgress::Resolving {
                dest_ip: ip,
                dest_port: port,
                local_port,
                attempts: attempts as usize,
            },
        ),
        Ok(Some(mac)) => match m.fault {
            Some(e) => (Err(NetworkError::Device(e)), m, SendProgress::Start),
            None => (
                Ok(Some(bytes.len() as usize)),
                m.sending(seq![udp_out(m, mac, ip, local_port, port, bytes)]),
                SendProgress::Start,
            ),
        },
    }
}

/// A UDP socket about to send: an unbound one takes an ephemeral port.
pub open spec fn ready_to_send(n: NetView, handle: u32, u: UdpView) -> NetView {
    if u.local_port == 0 {
        NetView {
            counters: network::port_taken(n.counters),
            sockets: n.sockets.insert(
                handle as u64,
                SocketView::Udp(UdpView { local_port: n.counters.next_port, bound: true, ..u }),
            ),
            ..n
        }
    } else {
        n
    }
}

/// The port that a UDP socket sends from.
pub open spec fn sending_port(n: NetView, u: UdpView) -> u16 {
    if u.local_port == 0 {
        n.counters.next_port
    } else {
        u.local_port
    }
}

/// Starting to send a datagram.
pub open spec fn send_udp(
    n: NetView,
    handle: u32,
    u: UdpView,
    ip: Ipv4Address,
    port: u16,
    bytes: Seq<u8>,
) -> (Result<Option<usize>, NetworkError>, NetView, SendProgress) {
    send_resolved(
        network::resolve_start(ready_to_send(n, handle, u), ip),
        ip,
        port,
        sending_port(n, u),
        RESOLVE_POLL_ATTEMPTS as int,
        bytes,
    )
}

/// Going on with a datagram that waits for its destination.
pub open spec fn send_resume(n: NetView, progress: SendProgress, bytes: Seq<u8>) -> (
    Result<Option<usize>, NetworkError>,
    NetView,
    SendProgress,
) {
    match progress {
        SendProgress::Resolving { dest_ip, dest_port, local_port, attempts } => send_resolved(
            network::resolve_look(n, dest_ip, attempts),
            dest_ip,
            dest_port,
            local_port,
            attempts - 1,
            bytes,
        ),
        SendProgress::Start => (Ok(None), n, progress),
    }
}

/// One step of sending to the socket's peer.
pub open spec fn send_step(n: NetView, handle: u32, bytes: Seq<u8>, progress: SendProgress) -> (
    Result<Option<usize>, NetworkError>,
    NetView,
    SendProgress,
) {
    let key = handle as u64;
    if progress is Resolving {
        send_resume(n, progress, bytes)
    } else if !n.sockets.dom().contains(key) {
        (Err(NetworkError::SocketNotFound), n, progress)
    } else {
        match n.sockets[key] {
            SocketView::Tcp(t) => {
                let (r, m) = send_tcp(n, handle, t, bytes);
                (r, m, progress)
            },
            SocketView::Udp(u) => match u.connected_peer {
                None => (Err(NetworkError::NotConnected), n, progress),
                Some((ip, port)) => send_udp(n, handle, u, ip, port, bytes),
            },
            SocketView::Raw => (Ok(Some(bytes.len() as usize)), n, progress),
        }
    }
}

/// One step of sending to a given destination; a connection ignores it.
pub open spec fn sendto_step(
    n: NetView,
    handle: u32,
    bytes: Seq<u8>,
    ip: Ipv4Address,
    port: u16,
    progress: SendProgress,
) -> (Result<Option<usize>, NetworkError>, NetView, SendProgress) {
    let key = handle as u64;
    if progress is Resolving {
        send_resume(n, progress, bytes)
    } else if !n.sockets.dom().contains(key) {
        (Err(NetworkError::SocketNotFound), n, progress)
    } else {
        match n.sockets[key] {
            SocketView::Tcp(t) => {
                let (r, m) = send_tcp(n, handle, t, bytes);
                (r, m, progress)
            },
            SocketView::Udp(u) => send_udp(n, handle, u, ip, port, bytes),
            SocketView::Raw => (Ok(Some(bytes.len() as usize)), n, progress),
        }
    }
}

/// The most that what is before the bytes of a datagram comes to in its sum:
/// eight words, and the number of the protocol.
pub const HEADER_SUM: u32 = 524_297;

/// Whether bytes can be sent in a datagram: their sum, with what is before
/// them, is one of 32 bits.
pub open spec fn can_be_summed(bytes: Seq<u8>) -> bool {
    net::word_sum(bytes) + HEADER_SUM <= u32::MAX && bytes.len() + 42 <= usize::MAX
}

/// Whether bytes can be summed if a send comes to a datagram.
pub open spec fn datagram_fits(
    network: Network,
    handle: u32,
    progress: SendProgress,
    bytes: Seq<u8>,
) -> bool {
    (progress is Resolving || (network.state matches Some(state) && state.sockets@.dom().contains(
        handle as u64,
    ) && state.sockets@[handle as u64] is Udp)) ==> can_be_summed(bytes)
}

proof fn lemma_datagram_sum(
    src: Ipv4Address,
    dst: Ipv4Address,
    src_port: u16,
    dst_port: u16,
    bytes: Seq<u8>,
)
    ensures
        net::transport_sum(
            src@,
            dst@,
            net::IP_PROTOCOL_UDP,
            net::udp_datagram(src_port, dst_port, 0, bytes),
        ) <= net::word_sum(bytes) + HEADER_SUM,
{
    let words = bytes::be16_bytes(src_port) + bytes::be16_bytes(dst_port) + bytes::be16_bytes(
        ((8 + bytes.len()) % 65536) as u16,
    );
    let zero = bytes::be16_bytes(0);
    net::lemma_word_sum_concat(words + zero, bytes);
    net::lemma_word_sum_concat(words, zero);
    net::lemma_word_sum_bounds(words);
    net::lemma_word_sum_bounds(src@);
    net::lemma_word_sum_bounds(dst@);
    assert(net::word_sum(zero) == 0) by {
        assert(zero.skip(2) =~= Seq::<u8>::empty());
        assert(net::word_sum(zero.skip(2)) == 0);
    }
}

proof fn lemma_advanced(sequence: u32, n: nat, size: u32)
    ensures
        advanced(sequence, n).wrapping_add(size) == advanced(sequence, n + size as nat),
{
    vstd::arithmetic::div_mod::lemma_add_mod_noop(sequence + n, size as int, 0x1_0000_0000);
}

fn one_chunk(
    our_mac: MacAddress,
    our_ip: Ipv4Address,
    mac: MacAddress,
    tcp: &TcpSocket,
    sequence: u32,
    part: &[u8],
) -> (r: Vec<u8>)
    requires
        part.len() <= MAX_TCP_CHUNK_SIZE,
    ensures
        r@ == chunk_frame(our_mac, our_ip, mac, tcp@, sequence, part@),
{
    reveal(chunk_frame);
    tcp_out(
        our_mac,
        our_ip,
        mac,
        tcp.remote_ip,
        tcp.local_port,
        tcp.remote_port,
        sequence,
        tcp.ack_num,
        0x18,
        part,
    )
}

/// The segments that carry `bytes`, and the sequence number after them.
fn chunk_frames(
    our_mac: MacAddress,
    our_ip: Ipv4Address,
    mac: MacAddress,
    tcp: &TcpSocket,
    bytes: &[u8],
) -> (r: (Vec<Vec<u8>>, u32))
    ensures
        virtio_net::frames_of(r.0@) == chunks(our_mac, our_ip, mac, tcp@, tcp.seq_num, bytes@),
        r.1 == advanced(tcp.seq_num, bytes@.len()),
        bytes.len() > 0 <==> r.0.len() > 0,
{
    let mut frames: Vec<Vec<u8>> = Vec::new();
    let mut seq_num: u32 = tcp.seq_num;
    let mut offset: usize = 0;
    proof {
        assert(bytes@.skip(0) =~= bytes@);
        let all = chunks(our_mac, our_ip, mac, tcp@, seq_num, bytes@);
        assert(virtio_net::frames_of(frames@) + all =~= all);
    }
    while offset < bytes.len()
        invariant
            offset <= bytes.len(),
            seq_num == advanced(tcp.seq_num, offset as nat),
            virtio_net::frames_of(frames@) + chunks(
                our_mac,
                our_ip,
                mac,
                tcp@,
                seq_num,
                bytes@.skip(offset as int),
            ) == chunks(our_mac, our_ip, mac, tcp@, tcp.seq_num, bytes@),
            offset > 0 <==> frames.len() > 0,
        decreases bytes.len() - offset,
    {
        let left: usize = bytes.len() - offset;
        let size: usize = if left <= MAX_TCP_CHUNK_SIZE {
            left
        } else {
            MAX_TCP_CHUNK_SIZE
        };
        let chunk = slice_subrange(bytes, offset, offset + size);
        let frame = one_chunk(our_mac, our_ip, mac, tcp, seq_num, chunk);
        proof {
            let rest = bytes@.skip(offset as int);
            assert(chunk@ =~= rest.take(size as int));
            assert(rest.skip(size as int) =~= bytes@.skip(offset + size));
            let tail = chunks(
                our_mac,
                our_ip,
                mac,
                tcp@,
                seq_num.wrapping_add(size as u32),
                rest.skip(size as int),
            );
            let done = virtio_net::frames_of(frames@);
            assert(chunks(our_mac, our_ip, mac, tcp@, seq_num, rest) == seq![frame@] + tail);
            assert(done + (seq![frame@] + tail) =~= done.push(frame@) + tail);
            assert(virtio_net::frames_of(frames@.push(frame)) =~= done.push(frame@));
            lemma_advanced(tcp.seq_num, offset as nat, size as u32);
        }
        frames.push(frame);
        seq_num = seq_num.wrapping_add(size as u32);
        offset += size;
    }
    proof {
        assert(bytes@.skip(offset as int) =~= Seq::<u8>::empty());
        assert(virtio_net::frames_of(frames@) + Seq::<Seq<u8>>::empty() =~= virtio_net::frames_of(frames@));
    }
    (frames, seq_num)
}

impl NetworkState {
    /// Sends `frames` in order; the first refusal ends it.
    fn send_frames(&mut self, frames: Vec<Vec<u8>>) -> (r: Result<(), NetworkError>)
        requires
            old(self).wf(),
        ensures
            final(self).wf(),
            final(self).sockets@ == old(self).sockets@,
            r == (if frames.len() > 0 && old(self).device.fault is Some {
                Err::<(), NetworkError>(NetworkError::Device(old(self).device.fault->0))
            } else {
                Ok::<(), NetworkError>(())
            }),
            forall|c: Counters| #[trigger]
                final(self).with(c) == old(self).with(c).sending(virtio_net::frames_of(frames@)),
    {
        let mut frames = frames;
        let ghost all = frames@;
        match self.device.fault {
            Some(e) => {
                assert(self.device.sent() =~= old(self).device.sent());
                if frames.len() > 0 {
                    return Err(NetworkError::Device(e));
                }
                assert(virtio_net::frames_of(all) =~= Seq::<Seq<u8>>::empty());
                Ok(())
            },
            None => {
                let ghost before = self.device.tx@;
                self.device.tx.append(&mut frames);
                assert(virtio_net::frames_of(before + all) =~= virtio_net::frames_of(before) + virtio_net::frames_of(all));
                Ok(())
            },
        }
    }

    fn send_tcp(&mut self, counters: &mut Counters, handle: u32, bytes: &[u8]) -> (r: Result<
        Option<usize>,
        NetworkError,
    >)
        requires
            old(self).wf(),
            old(self).sockets@.dom().contains(handle as u64),
            old(self).sockets@[handle as u64] is Tcp,
        ensures
            final(self).wf(),
            (r, final(self).with(*final(counters))) == send_tcp(
                old(self).with(*old(counters)),
                handle,
                old(self).sockets@[handle as u64]->Tcp_0@,
                bytes@,
            ),
    {
        let key: u64 = handle as u64;
        let our_mac = self.device.mac;
        let our_ip = self.configuration.address;
        let ghost n = self.with(*counters);
        let ghost m = self.sockets@;
        let ghost t = m[key]->Tcp_0@;
        let (frames, seq_num) = match self.sockets.get(key) {
            Some(Socket::Tcp(tcp)) => {
                if tcp.state != TcpState::Established && tcp.state != TcpState::CloseWait {
                    return Err(NetworkError::NotConnected);
                }
                match tcp.remote_mac {
                    None => {
                        return Err(NetworkError::GatewayUnreachable);
                    },
                    Some(mac) => chunk_frames(our_mac, our_ip, mac, tcp, bytes),
                }
            },
            _ => (Vec::new(), 0),
        };
        let ghost out = virtio_net::frames_of(frames@);
        match self.send_frames(frames) {
            Err(e) => {
                return Err(e);
            },
            Ok(_) => {},
        }
        let ghost sent = self.with(*counters);
        match self.sockets.at_mut(key) {
            Socket::Tcp(tcp) => {
                tcp.seq_num = seq_num;
            },
            _ => {},
        }
        proof {
            let v = self.sockets@[key];
            network::lemma_views_insert(m, key, v);
            assert(self.sockets@ =~= m.insert(key, v));
            assert(v@ =~= SocketView::Tcp(
                TcpView { seq_num: advanced(t.seq_num, bytes@.len()), ..t },
            ));
            assert(self.with(*counters) =~= NetView {
                sockets: n.sockets.insert(
                    key,
                    SocketView::Tcp(TcpView { seq_num: advanced(t.seq_num, bytes@.len()), ..t }),
                ),
                ..n.sending(out)
            });
        }
        let _ = self.poll_network_locked(counters);
        Ok(Some(bytes.len()))
    }

    fn send_resolved(
        &mut self,
        found: Result<Option<MacAddress>, NetworkError>,
        ip: Ipv4Address,
        port: u16,
        local_port: u16,
        attempts: usize,
        bytes: &[u8],
    ) -> (r: (Result<Option<usize>, NetworkError>, SendProgress))
        requires
            old(self).wf(),
            can_be_summed(bytes@),
        ensures
            final(self).wf(),
            final(self).sockets@ == old(self).sockets@,
            forall|c: Counters|
                (r.0, #[trigger] final(self).with(c), r.1) == send_resolved(
                    (found, old(self).with(c)),
                    ip,
                    port,
                    local_port,
                    attempts as int,
                    bytes@,
                ),
    {
        match found {
            Err(e) => (Err(e), SendProgress::Start),
            Ok(None) => (
                Ok(None),
                SendProgress::Resolving { dest_ip: ip, dest_port: port, local_port, attempts },
            ),
            Ok(Some(mac)) => {
                let our_mac = self.device.mac;
                let our_ip = self.configuration.address;
                proof {
                    lemma_datagram_sum(our_ip, ip, local_port, port, bytes@);
                }
                let frame = net::build_udp_frame(
                    our_mac,
                    mac,
                    our_ip,
                    ip,
                    local_port,
                    port,
                    bytes,
                );
                let ghost before = self.device.sent();
                match self.device.transmit(frame) {
                    Err(e) => (Err(NetworkError::Device(e)), SendProgress::Start),
                    Ok(_) => {
                        assert(before + seq![frame@] =~= before.push(frame@));
                        (Ok(Some(bytes.len())), SendProgress::Start)
                    },
                }
            },
        }
    }

    fn send_udp(
        &mut self,
        counters: &mut Counters,
        handle: u32,
        ip: Ipv4Address,
        port: u16,
        bytes: &[u8],
    ) -> (r: (Result<Option<usize>, NetworkError>, SendProgress))
        requires
            old(self).wf(),
            can_be_summed(bytes@),
            old(self).sockets@.dom().contains(handle as u64),
            old(self).sockets@[handle as u64] is Udp,
        ensures
            final(self).wf(),
            (r.0, final(self).with(*final(counters)), r.1) == send_udp(
                old(self).with(*old(counters)),
                handle,
                old(self).sockets@[handle as u64]->Udp_0@,
                ip,
                port,
                bytes@,
            ),
    {
        let key: u64 = handle as u64;
        let ghost n = self.with(*counters);
        let ghost m = self.sockets@;
        let ghost u = m[key]->Udp_0@;
        let mut local_port: u16 = 0;
        match self.sockets.at_mut(key) {
            Socket::Udp(udp) => {
                if udp.local_port == 0 {
                    udp.local_port = take_port(counters);
                    udp.bound = true;
                }
                local_port = udp.local_port;
            },
            _ => {},
        }
        proof {
            let v = self.sockets@[key];
            network::lemma_views_insert(m, key, v);
            assert(self.sockets@ =~= m.insert(key, v));
            if u.local_port != 0 {
                assert(v@ =~= m[key]@);
                assert(network::socket_views(self.sockets@) =~= network::socket_views(m));
            }
            assert(self.with(*counters) =~= ready_to_send(n, handle, u));
        }
        let found = self.resolve_destination_mac(ip);
        self.send_resolved(found, ip, port, local_port, RESOLVE_POLL_ATTEMPTS, bytes)
    }

    fn send_resume(&mut self, progress: SendProgress, bytes: &[u8]) -> (r: (
        Result<Option<usize>, NetworkError>,
        SendProgress,
    ))
        requires
            old(self).wf(),
            progress is Resolving,
            can_be_summed(bytes@),
        ensures
            final(self).wf(),
            final(self).sockets@ == old(self).sockets@,
            forall|c: Counters|
                (r.0, #[trigger] final(self).with(c), r.1) == send_resume(
                    old(self).with(c),
                    progress,
                    bytes@,
                ),
    {
        match progress {
            SendProgress::Resolving { dest_ip, dest_port, local_port, attempts } => {
                let found = self.resolve_poll(dest_ip, attempts);
                let left: usize = if attempts == 0 {
                    0
                } else {
                    attempts - 1
                };
                let ghost looked = *self;
                let r = self.send_resolved(found, dest_ip, dest_port, local_port, left, bytes);
                assert forall|c: Counters|
                    (r.0, #[trigger] self.with(c), r.1) == send_resume(
                        old(self).with(c),
                        progress,
                        bytes@,
                    ) by {
                    assert((found, looked.with(c)) == network::resolve_look(
                        old(self).with(c),
                        dest_ip,
                        attempts,
                    ));
                }
                r
            },
            SendProgress::Start => (Ok(None), progress),
        }
    }
}

/// Sends to the socket's peer. Nothing to send is done at once; `Ok(None)` asks
/// for another call once more frames have arrived.
pub fn socket_send(
    network: &mut Network,
    handle: u32,
    bytes: &[u8],
    progress: &mut SendProgress,
) -> (r: Result<Option<usize>, NetworkError>)
    requires
        old(network).wf(),
        datagram_fits(*old(network), handle, *old(progress), bytes@),
    ensures
        final(network).wf(),
        final(network).state is Some <==> old(network).state is Some,
        bytes.len() == 0 ==> r == Ok::<Option<usize>, NetworkError>(Some(0)) && *final(network)
            == *old(network) && *final(progress) == *old(progress),
        bytes.len() > 0 && old(network).state is None ==> r == Err::<Option<usize>, NetworkError>(
            NetworkError::Unavailable,
        ) && *final(network) == *old(network) && *final(progress) == *old(progress),
        bytes.len() > 0 && old(network).state is Some ==> (r, final(network)@, *final(progress))
            == send_step(old(network)@, handle, bytes@, *old(progress)),
{
    if bytes.len() == 0 {
        return Ok(Some(0));
    }
    match &mut network.state {
        None => Err(NetworkError::Unavailable),
        Some(state) => {
            if let SendProgress::Resolving { .. } = *progress {
                let (r, next) = state.send_resume(*progress, bytes);
                *progress = next;
                return r;
            }
            let key: u64 = handle as u64;
            let peer = match state.sockets.get(key) {
                None => {
                    return Err(NetworkError::SocketNotFound);
                },
                Some(Socket::Raw) => {
                    return Ok(Some(bytes.len()));
                },
                Some(Socket::Udp(udp)) => match udp.connected_peer {
                    None => {
                        return Err(NetworkError::NotConnected);
                    },
                    Some(peer) => Some(peer),
                },
                Some(Socket::Tcp(_)) => None,
            };
            match peer {
                None => state.send_tcp(&mut network.counters, handle, bytes),
                Some((ip, port)) => {
                    let (r, next) = state.send_udp(
                        &mut network.counters,
                        handle,
                        ip,
                        port,
                        bytes,
                    );
                    *progress = next;
                    r
                },
            }
        },
    }
}

/// Sends a datagram to a given destination; over a connection it is sent to
/// the peer. `Ok(None)` asks for another call once more frames have arrived.
pub fn socket_sendto(
    network: &mut Network,
    handle: u32,
    bytes: &[u8],
    dest_ip: Ipv4Address,
    dest_port: u16,
    progress: &mut SendProgress,
) -> (r: Result<Option<usize>, NetworkError>)
    requires
        old(network).wf(),
        datagram_fits(*old(network), handle, *old(progress), bytes@),
    ensures
        final(network).wf(),
        final(network).state is Some <==> old(network).state is Some,
        old(network).state is None ==> r == Err::<Option<usize>, NetworkError>(
            NetworkError::Unavailable,
        ) && *final(network) == *old(network) && *final(progress) == *old(progress),
        old(network).state is Some ==> (r, final(network)@, *final(progress)) == sendto_step(
            old(network)@,
            handle,
            bytes@,
            dest_ip,
            dest_port,
            *old(progress),
        ),
{
    match &mut network.state {
        None => Err(NetworkError::Unavailable),
        Some(state) => {
            if let SendProgress::Resolving { .. } = *progress {
                let (r, next) = state.send_resume(*progress, bytes);
                *progress = next;
                return r;
            }
            let key: u64 = handle as u64;
            let connected: bool = match state.sockets.get(key) {
                None => {
                    return Err(NetworkError::SocketNotFound);
                },
                Some(Socket::Raw) => {
                    return Ok(Some(bytes.len()));
                },
                Some(Socket::Udp(_)) => false,
                Some(Socket::Tcp(_)) => true,
            };
            if connected {
                state.send_tcp(&mut network.counters, handle, bytes)
            } else {
                let (r, next) = state.send_udp(
                    &mut network.counters,
                    handle,
                    dest_ip,
                    dest_port,
                    bytes,
                );
                *progress = next;
                r
            }
        },
    }
}

// ---------------------------------------------------------------------------
// Receiving
// ---------------------------------------------------------------------------
/// The first `limit` elements of `s`, or all of it.
pub open spec fn at_most(s: Seq<u8>, limit: nat) -> Seq<u8> {
    if s.len() <= limit {
        s
    } else {
        s.take(limit as int)
    }
}

/// What a receive hands out: the bytes and where they came from.
#[verifier::ext_equal]
pub struct ReceivedView {
    pub data: Seq<u8>,
    pub ip: Ipv4Address,
    pub port: u16,
}

/// One attempt to receive: buffered bytes of a connection, else its end; or
/// the oldest datagram, cut to the limit.
pub open spec fn receive_attempt(n: NetView, handle: u32, limit: usize, nonblocking: bool) -> (
    Result<Option<ReceivedView>, NetworkError>,
    NetView,
) {
    let p = network::polled(n);
    let key = handle as u64;
    let idle = if nonblocking {
        Err(NetworkError::WouldBlock)
    } else {
        Ok(None)
    };
    if n.fault is Some {
        (Err(NetworkError::Device(n.fault->0)), p)
    } else if !p.sockets.dom().contains(key) {
        (Err(NetworkError::SocketNotFound), p)
    } else {
        match p.sockets[key] {
            SocketView::Tcp(t) => {
                if t.rx.len() > 0 {
                    let data = at_most(t.rx, limit as nat);
                    (
                        Ok(Some(ReceivedView { data, ip: t.remote_ip, port: t.remote_port })),
                        NetView {
                            sockets: p.sockets.insert(
                                key,
                                SocketView::Tcp(
                                    TcpView { rx: t.rx.skip(data.len() as int), ..t },
                                ),
                            ),
                            ..p
                        },
                    )
                } else if t.rx_closed {
                    (
                        Ok(
                            Some(
                                ReceivedView {
                                    data: Seq::empty(),
                                    ip: t.remote_ip,
                                    port: t.remote_port,
                                },
                            ),
                        ),
                        p,
                    )
                } else if t.state is Reset || t.state is Closed {
                    (Err(NetworkError::ConnectionReset), p)
                } else {
                    (idle, p)
                }
            },
            SocketView::Udp(u) => {
                if u.rx_queue.len() > 0 {
                    let first = u.rx_queue[0];
                    (
                        Ok(
                            Some(
                                ReceivedView {
                                    data: at_most(first.data, limit as nat),
                                    ip: first.src_ip,
                                    port: first.src_port,
                                },
                            ),
                        ),
                        NetView {
                            sockets: p.sockets.insert(
                                key,
                                SocketView::Udp(UdpView { rx_queue: u.rx_queue.skip(1), ..u }),
                            ),
                            ..p
                        },
                    )
                } else {
                    (idle, p)
                }
            },
            SocketView::Raw => (
                Ok(
                    Some(
                        ReceivedView {
                            data: Seq::empty(),
                            ip: network::ip_of(seq![0u8, 0u8, 0u8, 0u8]),
                            port: 0,
                        },
                    ),
                ),
                p,
            ),
        }
    }
}

/// What a receive of bytes and their origin looks like.
pub open spec fn received(r: Result<Option<(Vec<u8>, Ipv4Address, u16)>, NetworkError>) -> Result<
    Option<ReceivedView>,
    NetworkError,
> {
    match r {
        Err(e) => Err(e),
        Ok(None) => Ok(None),
        Ok(Some((data, ip, port))) => Ok(Some(ReceivedView { data: data@, ip, port })),
    }
}

impl NetworkState {
    fn receive_attempt(
        &mut self,
        counters: &mut Counters,
        handle: u32,
        limit: usize,
        nonblocking: bool,
    ) -> (r: Result<Option<(Vec<u8>, Ipv4Address, u16)>, NetworkError>)
        requires
            old(self).wf(),
        ensures
            final(self).wf(),
            (received(r), final(self).with(*final(counters))) == receive_attempt(
                old(self).with(*old(counters)),
                handle,
                limit,
                nonblocking,
            ),
    {
        if let Err(e) = self.poll_network_locked(counters) {
            return Err(e);
        }
        let ghost m = self.sockets@;
        let ghost p = self.with(*counters);
        let key: u64 = handle as u64;
        if !self.sockets.contains_key(key) {
            return Err(NetworkError::SocketNotFound);
        }
        let nowhere: Ipv4Address = [0, 0, 0, 0];
        proof {
            assert(nowhere@ =~= seq![0u8, 0u8, 0u8, 0u8]);
            network::lemma_ip_of(nowhere);
        }
        let r = match self.sockets.at_mut(key) {
            Socket::Tcp(tcp) => {
                let ip = tcp.remote_ip;
                let port: u16 = tcp.remote_port;
                if tcp.rx_buffer.len() > 0 {
                    let size: usize = if tcp.rx_buffer.len() <= limit {
                        tcp.rx_buffer.len()
                    } else {
                        limit
                    };
                    let ghost buffer = tcp.rx_buffer@;
                    let data = drain_front(&mut tcp.rx_buffer, size);
                    assert(data@ =~= at_most(buffer, limit as nat));
                    Ok(Some((data, ip, port)))
                } else if tcp.rx_closed {
                    let data: Vec<u8> = Vec::new();
                    Ok(Some((data, ip, port)))
                } else if tcp.state == TcpState::Reset || tcp.state == TcpState::Closed {
                    Err(NetworkError::ConnectionReset)
                } else if nonblocking {
                    Err(NetworkError::WouldBlock)
                } else {
                    Ok(None)
                }
            },
            Socket::Udp(udp) => {
                if udp.rx_queue.len() > 0 {
                    let ghost queue = udp@.rx_queue;
                    let first = udp.rx_queue.remove(0);
                    assert(udp@.rx_queue =~= queue.skip(1));
                    let size: usize = if first.data.len() <= limit {
                        first.data.len()
                    } else {
                        limit
                    };
                    let data = copy_range(first.data.as_slice(), 0, size);
                    assert(data@ =~= at_most(first.data@, limit as nat));
                    Ok(Some((data, first.src_ip, first.src_port)))
                } else if nonblocking {
                    Err(NetworkError::WouldBlock)
                } else {
                    Ok(None)
                }
            },
            Socket::Raw => {
                let data: Vec<u8> = Vec::new();
                Ok(Some((data, nowhere, 0)))
            },
        };
        proof {
            let v = self.sockets@[key];
            network::lemma_views_insert(m, key, v);
            assert(self.sockets@ =~= m.insert(key, v));
            if v@ == m[key]@ {
                assert(network::socket_views(self.sockets@) =~= network::socket_views(m));
            }
            assert(self.with(*counters) =~= NetView {
                sockets: network::socket_views(self.sockets@),
                ..p
            });
        }
        r
    }
}

/// What a receive of bytes looks like.
pub open spec fn received_bytes(r: Result<Option<Vec<u8>>, NetworkError>) -> Result<
    Option<Seq<u8>>,
    NetworkError,
> {
    match r {
        Err(e) => Err(e),
        Ok(None) => Ok(None),
        Ok(Some(data)) => Ok(Some(data@)),
    }
}

/// A receive without the origin.
pub open spec fn only_bytes(r: Result<Option<ReceivedView>, NetworkError>) -> Result<
    Option<Seq<u8>>,
    NetworkError,
> {
    match r {
        Err(e) => Err(e),
        Ok(None) => Ok(None),
        Ok(Some(v)) => Ok(Some(v.data)),
    }
}

/// Receives at most `limit` bytes; an empty result is the end of the stream.
/// A limit of zero is met at once. `Ok(None)` asks for another call once more
/// frames have arrived; each call uses up one attempt, and none left is a timeout.
pub fn socket_recv(
    network: &mut Network,
    handle: u32,
    limit: usize,
    nonblocking: bool,
    attempts: &mut usize,
) -> (r: Result<Option<Vec<u8>>, NetworkError>)
    requires
        old(network).wf(),
    ensures
        final(network).wf(),
        final(network).state is Some <==> old(network).state is Some,
        limit == 0 ==> received_bytes(r) == Ok::<Option<Seq<u8>>, NetworkError>(
            Some(Seq::empty()),
        ) && *final(network) == *old(network) && *final(attempts) == *old(attempts),
        limit > 0 && *old(attempts) == 0 ==> received_bytes(r) == Err::<
            Option<Seq<u8>>,
            NetworkError,
        >(NetworkError::TcpReceiveTimeout) && *final(network) == *old(network) && *final(attempts)
            == 0,
        limit > 0 && *old(attempts) > 0 ==> *final(attempts) == *old(attempts) - 1,
        limit > 0 && *old(attempts) > 0 && old(network).state is None ==> received_bytes(r) == Err::<
            Option<Seq<u8>>,
            NetworkError,
        >(NetworkError::Unavailable) && *final(network) == *old(network),
        limit > 0 && *old(attempts) > 0 && old(network).state is Some ==> {
            let (out, m) = receive_attempt(old(network)@, handle, limit, nonblocking);
            received_bytes(r) == only_bytes(out) && final(network)@ == m
        },
{
    if limit == 0 {
        let nothing: Vec<u8> = Vec::new();
        return Ok(Some(nothing));
    }
    if *attempts == 0 {
        return Err(NetworkError::TcpReceiveTimeout);
    }
    *attempts = *attempts - 1;
    match &mut network.state {
        None => Err(NetworkError::Unavailable),
        Some(state) => match state.receive_attempt(
            &mut network.counters,
            handle,
            limit,
            nonblocking,
        ) {
            Err(e) => Err(e),
            Ok(None) => Ok(None),
            Ok(Some((data, _, _))) => Ok(Some(data)),
        },
    }
}

/// Receives at most `limit` bytes and says where they came from. `Ok(None)`
/// asks for another call once more frames have arrived; each call uses up one
/// attempt, and none left is a timeout.
pub fn socket_recvfrom(
    network: &mut Network,
    handle: u32,
    limit: usize,
    nonblocking: bool,
    attempts: &mut usize,
) -> (r: Result<Option<(Vec<u8>, Ipv4Address, u16)>, NetworkError>)
    requires
        old(network).wf(),
    ensures
        final(network).wf(),
        final(network).state is Some <==> old(network).state is Some,
        *old(attempts) == 0 ==> received(r) == Err::<Option<ReceivedView>, NetworkError>(
            NetworkError::TcpReceiveTimeout,
        ) && *final(network) == *old(network) && *final(attempts) == 0,
        *old(attempts) > 0 ==> *final(attempts) == *old(attempts) - 1,
        *old(attempts) > 0 && old(network).state is None ==> received(r) == Err::<
            Option<ReceivedView>,
            NetworkError,
        >(NetworkError::Unavailable) && *final(network) == *old(network),
        *old(attempts) > 0 && old(network).state is Some ==> (received(r), final(network)@)
            == receive_attempt(old(network)@, handle, limit, nonblocking),
{
    if *attempts == 0 {
        return Err(NetworkError::TcpReceiveTimeout);
    }
    *attempts = *attempts - 1;
    match &mut network.state {
        None => Err(NetworkError::Unavailable),
        Some(state) => state.receive_attempt(&mut network.counters, handle, limit, nonblocking),
    }
}

// ---------------------------------------------------------------------------
// Names and options
// ---------------------------------------------------------------------------
/// The local address of a socket.
pub open spec fn local_name(n: NetView, handle: u32) -> Result<(Ipv4Address, u16), NetworkError> {
    if !n.sockets.dom().contains(handle as u64) {
        Err(NetworkError::SocketNotFound)
    } else {
        match n.sockets[handle as u64] {
            SocketView::Tcp(t) => Ok((t.local_ip, t.local_port)),
            SocketView::Udp(u) => Ok((u.local_ip, u.local_port)),
            SocketView::Raw => Ok((n.configuration.address, 0)),
        }
    }
}

/// The address of a socket's peer.
pub open spec fn peer_name(n: NetView, handle: u32) -> Result<(Ipv4Address, u16), NetworkError> {
    if !n.sockets.dom().contains(handle as u64) {
        Err(NetworkError::SocketNotFound)
    } else {
        match n.sockets[handle as u64] {
            SocketView::Tcp(t) => if t.state is Closed || t.state is Listen {
                Err(NetworkError::NotConnected)
            } else {
                Ok((t.remote_ip, t.remote_port))
            },
            SocketView::Udp(u) => match u.connected_peer {
                Some(peer) => Ok(peer),
                None => Err(NetworkError::NotConnected),
            },
            SocketView::Raw => Err(NetworkError::NotConnected),
        }
    }
}

pub fn socket_getsockname(network: &Network, handle: u32) -> (r: Result<
    (Ipv4Address, u16),
    NetworkError,
>)
    requires
        network.wf(),
    ensures
        network.state is None ==> r == Err::<(Ipv4Address, u16), NetworkError>(
            NetworkError::Unavailable,
        ),
        network.state is Some ==> r == local_name(network@, handle),
{
    match &network.state {
        None => Err(NetworkError::Unavailable),
        Some(state) => match state.sockets.get(handle as u64) {
            None => Err(NetworkError::SocketNotFound),
            Some(Socket::Tcp(tcp)) => Ok((tcp.local_ip, tcp.local_port)),
            Some(Socket::Udp(udp)) => Ok((udp.local_ip, udp.local_port)),
            Some(Socket::Raw) => Ok((state.configuration.address, 0)),
        },
    }
}

pub fn socket_getpeername(network: &Network, handle: u32) -> (r: Result<
    (Ipv4Address, u16),
    NetworkError,
>)
    requires
        network.wf(),
    ensures
        network.state is None ==> r == Err::<(Ipv4Address, u16), NetworkError>(
            NetworkError::Unavailable,
        ),
        network.state is Some ==> r == peer_name(network@, handle),
{
    match &network.state {
        None => Err(NetworkError::Unavailable),
        Some(state) => match state.sockets.get(handle as u64) {
            None => Err(NetworkError::SocketNotFound),
            Some(Socket::Tcp(tcp)) => {
                if tcp.state == TcpState::Closed || tcp.state == TcpState::Listen {
                    Err(NetworkError::NotConnected)
                } else {
                    Ok((tcp.remote_ip, tcp.remote_port))
                }
            },
            Some(Socket::Udp(udp)) => match udp.connected_peer {
                Some(peer) => Ok(peer),
                None => Err(NetworkError::NotConnected),
            },
            Some(Socket::Raw) => Err(NetworkError::NotConnected),
        },
    }
}

/// `options` with one option set; an unknown option changes nothing.
pub open spec fn option_set(options: SocketOptions, optname: u32, optval: u32) -> SocketOptions {
    if optname == 2 {
        SocketOptions { reuse_addr: optval != 0, ..options }
    } else if optname == 8 {
        SocketOptions { rcvbuf: optval as usize, ..options }
    } else if optname == 7 {
        SocketOptions { sndbuf: optval as usize, ..options }
    } else {
        options
    }
}

/// A socket with one option set.
pub open spec fn socket_option_set(s: SocketView, optname: u32, optval: u32) -> SocketView {
    match s {
        SocketView::Tcp(t) => SocketView::Tcp(
            TcpView { options: option_set(t.options, optname, optval), ..t },
        ),
        SocketView::Udp(u) => SocketView::Udp(
            UdpView { options: option_set(u.options, optname, optval), ..u },
        ),
        SocketView::Raw => s,
    }
}

/// The value of one option of a socket.
pub open spec fn option_value(s: SocketView, optname: u32) -> u32 {
    let (kind, options) = match s {
        SocketView::Tcp(t) => (1u32, t.options),
        SocketView::Udp(u) => (2u32, u.options),
        SocketView::Raw => (
            3u32,
            SocketOptions { reuse_addr: false, rcvbuf: 0, sndbuf: 0, nonblocking: false },
        ),
    };
    if optname == 2 {
        if options.reuse_addr {
            1
        } else {
            0
        }
    } else if optname == 3 {
        kind
    } else if optname == 8 {
        (options.rcvbuf as int % 0x1_0000_0000) as u32
    } else if optname == 7 {
        (options.sndbuf as int % 0x1_0000_0000) as u32
    } else {
        0
    }
}

impl SocketOptions {
    fn set(&mut self, optname: u32, optval: u32)
        ensures
            *final(self) == option_set(*old(self), optname, optval),
    {
        if optname == 2 {
            self.reuse_addr = optval != 0;
        } else if optname == 8 {
            self.rcvbuf = optval as usize;
        } else if optname == 7 {
            self.sndbuf = optval as usize;
        }
    }
}

pub fn socket_setsockopt(
    network: &mut Network,
    handle: u32,
    _level: u32,
    optname: u32,
    optval: u32,
) -> (r: Result<(), NetworkError>)
    requires
        old(network).wf(),
    ensures
        final(network).wf(),
        final(network).state is Some <==> old(network).state is Some,
        old(network).state is None ==> r == Err::<(), NetworkError>(NetworkError::Unavailable)
            && *final(network) == *old(network),
        old(network).state is Some ==> {
            let n = old(network)@;
            let key = handle as u64;
            if n.sockets.dom().contains(key) {
                r is Ok && final(network)@ == (NetView {
                    sockets: n.sockets.insert(
                        key,
                        socket_option_set(n.sockets[key], optname, optval),
                    ),
                    ..n
                })
            } else {
                r == Err::<(), NetworkError>(NetworkError::SocketNotFound) && final(network)@ == n
            }
        },
{
    match &mut network.state {
        None => Err(NetworkError::Unavailable),
        Some(state) => {
            let ghost m = state.sockets@;
            let key: u64 = handle as u64;
            if !state.sockets.contains_key(key) {
                return Err(NetworkError::SocketNotFound);
            }
            match state.sockets.at_mut(key) {
                Socket::Tcp(tcp) => {
                    tcp.options.set(optname, optval);
                },
                Socket::Udp(udp) => {
                    udp.options.set(optname, optval);
                },
                Socket::Raw => {},
            }
            proof {
                let v = state.sockets@[key];
                network::lemma_views_insert(m, key, v);
                assert(state.sockets@ =~= m.insert(key, v));
            }
            Ok(())
        },
    }
}

pub fn socket_getsockopt(network: &Network, handle: u32, _level: u32, optname: u32) -> (r: Result<
    u32,
    NetworkError,
>)
    requires
        network.wf(),
    ensures
        network.state is None ==> r == Err::<u32, NetworkError>(NetworkError::Unavailable),
        network.state is Some ==> r == (if network@.sockets.dom().contains(handle as u64) {
            Ok::<u32, NetworkError>(option_value(network@.sockets[handle as u64], optname))
        } else {
            Err::<u32, NetworkError>(NetworkError::SocketNotFound)
        }),
{
    match &network.state {
        None => Err(NetworkError::Unavailable),
        Some(state) => {
            let (kind, options) = match state.sockets.get(handle as u64) {
                None => {
                    return Err(NetworkError::SocketNotFound);
                },
                Some(Socket::Tcp(tcp)) => (1u32, tcp.options),
                Some(Socket::Udp(udp)) => (2u32, udp.options),
                Some(Socket::Raw) => (
                    3u32,
                    SocketOptions { reuse_addr: false, rcvbuf: 0, sndbuf: 0, nonblocking: false },
                ),
            };
            Ok(
                if optname == 2 {
                    if options.reuse_addr {
                        1
                    } else {
                        0
                    }
                } else if optname == 3 {
                    kind
                } else if optname == 8 {
                    (options.rcvbuf as u64 % 0x1_0000_0000) as u32
                } else if optname == 7 {
                    (options.sndbuf as u64 % 0x1_0000_0000) as u32
                } else {
                    0
                },
            )
        },
    }
}

// ---------------------------------------------------------------------------
// Closing
// ---------------------------------------------------------------------------
/// The frame that ends our side of a connection, if the socket is in a state
/// to send one.
#[verifier::opaque]
pub open spec fn farewell(n: NetView, s: SocketView) -> Seq<Seq<u8>> {
    match s {
        SocketView::Tcp(t) => {
            if (t.state is Established || t.state is CloseWait) && t.remote_mac is Some {
                seq![
                    n.tcp_out(
                        t.remote_mac->0,
                        t.remote_ip,
                        t.local_port,
                        t.remote_port,
                        t.seq_num,
                        t.ack_num,
                        0x11,
                        Seq::empty(),
                    ),
                ]
            } else {
                Seq::empty()
            }
        },
        _ => Seq::empty(),
    }
}

/// Closing a socket: an open connection says goodbye, and the handle is gone.
pub open spec fn closed(n: NetView, handle: u32) -> NetView {
    let key = handle as u64;
    if n.sockets.dom().contains(key) {
        NetView { sockets: n.sockets.remove(key), ..n.sending(farewell(n, n.sockets[key])) }
    } else {
        n
    }
}

/// Closes a socket. An unknown handle is no error.
pub fn socket_close(network: &mut Network, handle: u32) -> (r: Result<(), NetworkError>)
    requires
        old(network).wf(),
    ensures
        final(network).wf(),
        final(network).state is Some <==> old(network).state is Some,
        old(network).state is None ==> r == Err::<(), NetworkError>(NetworkError::Unavailable)
            && *final(network) == *old(network),
        old(network).state is Some ==> r is Ok && final(network)@ == closed(old(network)@, handle),
{
    match &mut network.state {
        None => Err(NetworkError::Unavailable),
        Some(state) => {
            let ghost n = state.with(network.counters);
            let ghost m = state.sockets@;
            let key: u64 = handle as u64;
            let fin = state.farewell_frame(key);
            proof {
                if m.dom().contains(key) {
                    assert(n.sockets[key] == m[key]@);
                    assert(farewell(state.with(network.counters), m[key]@) == farewell(
                        n,
                        n.sockets[key],
                    ));
                }
            }
            assert(n.sent + Seq::<Seq<u8>>::empty() =~= n.sent);
            if let Some(frame) = fin {
                state.send(frame);
            }
            let ghost mid = state.with(network.counters);
            proof {
                if m.dom().contains(key) {
                    assert(mid == n.sending(farewell(n, n.sockets[key])));
                } else {
                    assert(mid == n);
                }
                assert(state.sockets@ == m);
            }
            let _ = state.sockets.remove(key);
            proof {
                assert(state.with(network.counters) =~= NetView {
                    sockets: network::socket_views(m.remove(key)),
                    ..mid
                });
                network::lemma_views_remove(m, key);
                if !m.dom().contains(key) {
                    assert(m.remove(key) =~= m);
                }
                assert(state.with(network.counters) =~= closed(n, handle));
            }
            Ok(())
        },
    }
}

impl NetworkState {
    fn farewell_frame(&self, key: u64) -> (r: Option<Vec<u8>>)
        requires
            self.wf(),
        ensures
            !self.sockets@.dom().contains(key) ==> r is None,
            self.sockets@.dom().contains(key) ==> forall|c: Counters| #[trigger]
                farewell(self.with(c), self.sockets@[key]@) == (match r {
                    Some(frame) => seq![frame@],
                    None => Seq::empty(),
                }),
    {
        reveal(farewell);
        if let Some(Socket::Tcp(tcp)) = self.sockets.get(key) {
            if tcp.state == TcpState::Established || tcp.state == TcpState::CloseWait {
                if let Some(mac) = tcp.remote_mac {
                    let nothing: [u8; 0] = [];
                    assert(nothing@ =~= Seq::<u8>::empty());
                    return Some(
                        tcp_out(
                            self.device.mac,
                            self.configuration.address,
                            mac,
                            tcp.remote_ip,
                            tcp.local_port,
                            tcp.remote_port,
                            tcp.seq_num,
                            tcp.ack_num,
                            0x11,
                            nothing.as_slice(),
                        ),
                    );
                }
            }
        }
        None
    }
}

/// Whether a read, or an accept, would find something.
pub open spec fn readable(s: SocketView) -> bool {
    match s {
        SocketView::Tcp(t) => t.rx.len() > 0 || t.accept_queue.len() > 0 || t.rx_closed,
        SocketView::Udp(u) => u.rx_queue.len() > 0,
        SocketView::Raw => false,
    }
}

pub fn socket_has_data(network: &mut Network, handle: u32) -> (r: bool)
    requires
        old(network).wf(),
    ensures
        final(network).wf(),
        final(network).state is Some <==> old(network).state is Some,
        old(network).state is None ==> !r && *final(network) == *old(network),
        old(network).state is Some ==> {
            let p = network::polled(old(network)@);
            &&& final(network)@ == p
            &&& r == (p.sockets.dom().contains(handle as u64) && readable(
                p.sockets[handle as u64],
            ))
        },
{
    match &mut network.state {
        None => false,
        Some(state) => {
            let _ = state.poll_network_locked(&mut network.counters);
            match state.sockets.get(handle as u64) {
                None => false,
                Some(Socket::Tcp(tcp)) => tcp.rx_buffer.len() > 0 || tcp.accept_queue.len() > 0
                    || tcp.rx_closed,
                Some(Socket::Udp(udp)) => udp.rx_queue.len() > 0,
                Some(Socket::Raw) => false,
            }
        },
    }
}

// ---------------------------------------------------------------------------
// Connections by one value
// ---------------------------------------------------------------------------
/// How far the opening of a connection has come: the socket made for it, and
/// how far that has been connected.
#[derive(Clone, Copy, Debug, Eq, PartialEq, Structural)]
pub struct Opening {
    pub socket_handle: Option<u32>,
    pub progress: ConnectProgress,
}

/// The connection that a connected socket stands for.
pub open spec fn connection_of(
    n: NetView,
    handle: u32,
    ip: Ipv4Address,
    port: u16,
) -> Result<TcpConnection, NetworkError> {
    if !n.sockets.dom().contains(handle as u64) {
        Err(NetworkError::SocketNotFound)
    } else {
        match n.sockets[handle as u64] {
            SocketView::Tcp(t) => Ok(
                TcpConnection {
                    local_port: t.local_port,
                    remote_ip: ip,
                    remote_port: port,
                    next_sequence: t.seq_num,
                    acknowledgement: t.ack_num,
                    socket_handle: handle,
                },
            ),
            _ => Err(NetworkError::InvalidSocketType),
        }
    }
}

/// A stack with a new TCP socket under the next handle.
pub open spec fn with_stream(n: NetView) -> NetView {
    NetView {
        counters: Counters { next_handle: n.counters.next_handle.wrapping_add(1), ..n.counters },
        sockets: n.sockets.insert(
            n.counters.next_handle as u64,
            network::fresh_socket(1, n.configuration.address)->0,
        ),
        ..n
    }
}

/// Opens a connection, one step to a call: makes a socket, connects it and
/// describes it. `Ok(None)` asks for another call once more frames have arrived.
pub fn tcp_connect(
    network: &mut Network,
    remote_ip: Ipv4Address,
    remote_port: u16,
    opening: &mut Opening,
) -> (r: Result<Option<TcpConnection>, NetworkError>)
    requires
        old(network).wf(),
    ensures
        final(network).wf(),
        final(network).state is Some <==> old(network).state is Some,
        old(network).state is None ==> r is Err && final(network).state is None,
        old(network).state is Some ==> {
            let n = if old(opening).socket_handle is Some {
                old(network)@
            } else {
                with_stream(old(network)@)
            };
            let handle = match old(opening).socket_handle {
                Some(handle) => handle,
                None => old(network).counters.next_handle,
            };
            let (step, m, next) = connect_step(
                n,
                handle,
                remote_ip,
                remote_port,
                false,
                old(opening).progress,
            );
            &&& final(opening).socket_handle == Some(handle)
            &&& remote_port == 0 ==> r == Err::<Option<TcpConnection>, NetworkError>(
                NetworkError::InvalidTcpPort,
            ) && final(network)@ == n && final(opening).progress == old(opening).progress
            &&& remote_port != 0 ==> final(network)@ == m && final(opening).progress == next
                && r == (match step {
                Err(e) => Err::<Option<TcpConnection>, NetworkError>(e),
                Ok(false) => Ok::<Option<TcpConnection>, NetworkError>(None),
                Ok(true) => match connection_of(m, handle, remote_ip, remote_port) {
                    Err(e) => Err::<Option<TcpConnection>, NetworkError>(e),
                    Ok(connection) => Ok::<Option<TcpConnection>, NetworkError>(Some(connection)),
                },
            })
        },
{
    let handle: u32 = match opening.socket_handle {
        Some(handle) => handle,
        None => match socket_create(network, 2, 1, 0) {
            Err(e) => {
                return Err(e);
            },
            Ok(handle) => {
                opening.socket_handle = Some(handle);
                handle
            },
        },
    };
    match socket_connect(
        network,
        handle,
        remote_ip,
        remote_port,
        false,
        &mut opening.progress,
    ) {
        Err(e) => {
            return Err(e);
        },
        Ok(false) => {
            return Ok(None);
        },
        Ok(true) => {},
    }
    match &network.state {
        None => Err(NetworkError::Unavailable),
        Some(state) => match state.sockets.get(handle as u64) {
            None => Err(NetworkError::SocketNotFound),
            Some(Socket::Tcp(tcp)) => Ok(
                Some(
                    TcpConnection {
                        local_port: tcp.local_port,
                        remote_ip,
                        remote_port,
                        next_sequence: tcp.seq_num,
                        acknowledgement: tcp.ack_num,
                        socket_handle: handle,
                    },
                ),
            ),
            _ => Err(NetworkError::InvalidSocketType),
        },
    }
}

/// A connection's numbers as its socket has them now.
pub open spec fn refreshed(n: NetView, connection: TcpConnection) -> TcpConnection {
    let key = connection.socket_handle as u64;
    if n.sockets.dom().contains(key) && n.sockets[key] is Tcp {
        TcpConnection {
            next_sequence: n.sockets[key]->Tcp_0.seq_num,
            acknowledgement: n.sockets[key]->Tcp_0.ack_num,
            ..connection
        }
    } else {
        connection
    }
}

fn refresh(network: &Network, connection: &mut TcpConnection)
    requires
        network.wf(),
    ensures
        network.state is None ==> *final(connection) == *old(connection),
        network.state is Some ==> *final(connection) == refreshed(network@, *old(connection)),
{
    if let Some(state) = &network.state {
        if let Some(Socket::Tcp(tcp)) = state.sockets.get(connection.socket_handle as u64) {
            connection.next_sequence = tcp.seq_num;
            connection.acknowledgement = tcp.ack_num;
        }
    }
}

/// Sends over a connection and brings its numbers up to date.
pub fn tcp_send(
    network: &mut Network,
    connection: &mut TcpConnection,
    bytes: &[u8],
    progress: &mut SendProgress,
) -> (r: Result<bool, NetworkError>)
    requires
        old(network).wf(),
        datagram_fits(
            *old(network),
            old(connection).socket_handle,
            *old(progress),
            bytes@,
        ),
    ensures
        final(network).wf(),
        final(network).state is Some <==> old(network).state is Some,
        old(network).state is None ==> *final(connection) == *old(connection) && *final(progress)
            == *old(progress) && r == (if bytes.len() == 0 {
            Ok::<bool, NetworkError>(true)
        } else {
            Err::<bool, NetworkError>(NetworkError::Unavailable)
        }),
        old(network).state is Some ==> {
            let (step, m, next) = if bytes.len() == 0 {
                (
                    Ok::<Option<usize>, NetworkError>(Some(0)),
                    old(network)@,
                    *old(progress),
                )
            } else {
                send_step(
                    old(network)@,
                    old(connection).socket_handle,
                    bytes@,
                    *old(progress),
                )
            };
            &&& final(network)@ == m
            &&& *final(progress) == next
            &&& match step {
                Err(e) => r == Err::<bool, NetworkError>(e) && *final(connection) == *old(
                    connection,
                ),
                Ok(None) => r == Ok::<bool, NetworkError>(false) && *final(connection) == *old(
                    connection,
                ),
                Ok(Some(_)) => r == Ok::<bool, NetworkError>(true) && *final(connection)
                    == refreshed(m, *old(connection)),
            }
        },
{
    match socket_send(network, connection.socket_handle, bytes, progress) {
        Err(e) => Err(e),
        Ok(None) => Ok(false),
        Ok(Some(_)) => {
            refresh(network, connection);
            Ok(true)
        },
    }
}

/// Receives over a connection and brings its numbers up to date.
pub fn tcp_receive(
    network: &mut Network,
    connection: &mut TcpConnection,
    limit: usize,
    attempts: &mut usize,
) -> (r: Result<Option<Vec<u8>>, NetworkError>)
    requires
        old(network).wf(),
    ensures
        final(network).wf(),
        final(network).state is Some <==> old(network).state is Some,
        limit > 0 && *old(attempts) == 0 ==> received_bytes(r) == Err::<
            Option<Seq<u8>>,
            NetworkError,
        >(NetworkError::TcpReceiveTimeout),
        limit > 0 && *old(attempts) > 0 ==> *final(attempts) == *old(attempts) - 1,
        limit > 0 && *old(attempts) > 0 && old(network).state is None ==> received_bytes(r) == Err::<
            Option<Seq<u8>>,
            NetworkError,
        >(NetworkError::Unavailable),
        limit == 0 ==> received_bytes(r) == Ok::<Option<Seq<u8>>, NetworkError>(Some(Seq::empty())),
        limit > 0 && *old(attempts) > 0 && old(network).state is Some ==> {
            let (out, m) = receive_attempt(
                old(network)@,
                old(connection).socket_handle,
                limit,
                false,
            );
            &&& received_bytes(r) == only_bytes(out)
            &&& final(network)@ == m
            &&& *final(connection) == (if out is Ok && out->Ok_0 is Some {
                refreshed(m, *old(connection))
            } else {
                *old(connection)
            })
        },
{
    match socket_recv(network, connection.socket_handle, limit, false, attempts) {
        Err(e) => Err(e),
        Ok(None) => Ok(None),
        Ok(Some(data)) => {
            refresh(network, connection);
            Ok(Some(data))
        },
    }
}

/// Closes a connection's socket.
pub fn tcp_close(network: &mut Network, connection: TcpConnection) -> (r: Result<(), NetworkError>)
    requires
        old(network).wf(),
    ensures
        final(network).wf(),
        final(network).state is Some <==> old(network).state is Some,
        old(network).state is None ==> r == Err::<(), NetworkError>(NetworkError::Unavailable)
            && *final(network) == *old(network),
        old(network).state is Some ==> r is Ok && final(network)@ == closed(
            old(network)@,
            connection.socket_handle,
        ),
{
    socket_close(network, connection.socket_handle)
}

} // verus!
