//! What holds of calls on sockets, and of questions between hosts.
use vstd::prelude::*;

use crate::bytes;
use crate::net::{self, Ipv4Address, MacAddress};
use crate::network::{
    self, DatagramView, NetView, NetworkError, SocketView, TcpView, UdpView,
};
use crate::network::stream::{self, ReceivedView, SendProgress};

verus! {

// ---------------------------------------------------------------------------
// Reading
// ---------------------------------------------------------------------------
/// Bytes of a connection are read in their order, each once: what one read
/// leaves, the next gives. They come with the address of the peer.
pub proof fn law_stream_read_in_pieces(
    n: NetView,
    handle: u32,
    t: TcpView,
    first: usize,
    second: usize,
    nonblocking: bool,
)
    requires
        n.fault is None,
        n.arrived.len() == 0,
        n.sockets.dom().contains(handle as u64),
        n.sockets[handle as u64] == SocketView::Tcp(t),
        0 < first < t.rx.len(),
    ensures
        ({
            let (a, after) = stream::receive_attempt(n, handle, first, nonblocking);
            let (b, end) = stream::receive_attempt(after, handle, second, nonblocking);
            let all = if first + second <= t.rx.len() {
                first + second
            } else {
                t.rx.len() as int
            };
            &&& a matches Ok(Some(x))
            &&& b matches Ok(Some(y))
            &&& x.data.len() == first
            &&& x.data + y.data == t.rx.take(all)
            &&& x.ip == t.remote_ip && y.ip == t.remote_ip
            &&& x.port == t.remote_port && y.port == t.remote_port
            &&& end.sockets[handle as u64] == SocketView::Tcp(
                TcpView { rx: t.rx.skip(all), ..t },
            )
            &&& end.sockets.remove(handle as u64) == n.sockets.remove(handle as u64)
            &&& end.sent == n.sent
        }),
{
    let (a, after) = stream::receive_attempt(n, handle, first, nonblocking);
    let (b, end) = stream::receive_attempt(after, handle, second, nonblocking);
    let x = a->Ok_0->0;
    let y = b->Ok_0->0;
    let all = if first + second <= t.rx.len() {
        first + second
    } else {
        t.rx.len() as int
    };
    assert(x.data + y.data =~= t.rx.take(all));
    assert(t.rx.skip(first as int).skip(y.data.len() as int) =~= t.rx.skip(all));
    assert(end.sockets.remove(handle as u64) =~= n.sockets.remove(handle as u64));
}

/// A connection from which all is read gives its end when the peer has ended
/// it, an error when it was reset, and nothing yet otherwise.
pub proof fn law_stream_end(n: NetView, handle: u32, t: TcpView, limit: usize)
    requires
        n.fault is None,
        n.arrived.len() == 0,
        n.sockets.dom().contains(handle as u64),
        n.sockets[handle as u64] == SocketView::Tcp(t),
        t.rx.len() == 0,
    ensures
        ({
            let waiting = stream::receive_attempt(n, handle, limit, false);
            let asking = stream::receive_attempt(n, handle, limit, true);
            &&& waiting.1 == n
            &&& asking.1 == n
            &&& t.rx_closed ==> (waiting.0 matches Ok(Some(x)) && x.data.len() == 0)
            &&& !t.rx_closed && (t.state is Reset || t.state is Closed) ==> waiting.0 == Err::<
                Option<ReceivedView>,
                NetworkError,
            >(NetworkError::ConnectionReset)
            &&& !t.rx_closed && !(t.state is Reset || t.state is Closed) ==> waiting.0 == Ok::<
                Option<ReceivedView>,
                NetworkError,
            >(None) && asking.0 == Err::<Option<ReceivedView>, NetworkError>(
                NetworkError::WouldBlock,
            )
        }),
{
}

/// Datagrams are read in the order in which they came, each whole or cut to
/// what there is room for, with the address that it came from.
pub proof fn law_datagram_read(n: NetView, handle: u32, u: UdpView, limit: usize)
    requires
        n.fault is None,
        n.arrived.len() == 0,
        n.sockets.dom().contains(handle as u64),
        n.sockets[handle as u64] == SocketView::Udp(u),
    ensures
        ({
            let (r, after) = stream::receive_attempt(n, handle, limit, false);
            if u.rx_queue.len() == 0 {
                r == Ok::<Option<ReceivedView>, NetworkError>(None) && after == n
            } else {
                let d = u.rx_queue[0];
                &&& r matches Ok(Some(x))
                &&& x.ip == d.src_ip
                &&& x.port == d.src_port
                &&& x.data == d.data.take(
                    if d.data.len() <= limit {
                        d.data.len() as int
                    } else {
                        limit as int
                    },
                )
                &&& after.sockets[handle as u64] matches SocketView::Udp(left)
                &&& seq![d] + left.rx_queue == u.rx_queue
                &&& left == UdpView { rx_queue: left.rx_queue, ..u }
            }
        }),
{
    if u.rx_queue.len() > 0 {
        let d = u.rx_queue[0];
        assert(d.data.take(d.data.len() as int) =~= d.data);
        assert(seq![d] + u.rx_queue.skip(1) =~= u.rx_queue);
    }
}

// ---------------------------------------------------------------------------
// Datagrams between hosts
// ---------------------------------------------------------------------------
/// A datagram reaches every socket that is bound to its port, behind what
/// waits there, and no other.
pub proof fn law_datagram_for_port(s: SocketView, port: u16, d: DatagramView)
    requires
        port != 0,
    ensures
        match s {
            SocketView::Udp(u) => {
                &&& u.bound && u.local_port == port ==> network::delivered(s, port, d)
                    == SocketView::Udp(UdpView { rx_queue: u.rx_queue.push(d), ..u })
                &&& !u.bound || (u.local_port != port && u.local_port != 0) ==> network::delivered(
                    s,
                    port,
                    d,
                ) == s
            },
            _ => network::delivered(s, port, d) == s,
        },
{
}

/// A datagram that one host sends is what the socket of the other gets, with
/// the address and the port that it was sent from.
pub proof fn law_datagram_arrives(
    n: NetView,
    peer: NetView,
    local_port: u16,
    port: u16,
    bytes: Seq<u8>,
    h: u64,
    u: UdpView,
)
    requires
        28 + bytes.len() <= 65535,
        port != 0,
        peer.sockets.dom().contains(h),
        peer.sockets[h] == SocketView::Udp(u),
        u.bound,
        u.local_port == port,
    ensures
        ({
            let frame = stream::udp_out(
                n,
                peer.mac,
                peer.configuration.address,
                local_port,
                port,
                bytes,
            );
            let after = network::on_frame(peer, frame);
            &&& after.sockets[h] == SocketView::Udp(
                UdpView {
                    rx_queue: u.rx_queue.push(
                        DatagramView {
                            src_ip: n.configuration.address,
                            src_port: local_port,
                            data: bytes,
                        },
                    ),
                    ..u
                },
            )
            &&& after.sockets.dom() == peer.sockets.dom()
            &&& after.sent == peer.sent
            &&& forall|k: u64|
                peer.sockets.dom().contains(k) && (#[trigger] peer.sockets[k]) is Tcp
                    ==> after.sockets[k] == peer.sockets[k]
        }),
{
    let src = n.configuration.address;
    let dst = peer.configuration.address;
    let datagram = net::udp_sealed(src@, dst@, local_port, port, bytes);
    net::law_udp_frame_round_trip(
        n.mac@,
        peer.mac@,
        src@,
        dst@,
        local_port,
        port,
        local_port,
        bytes,
    );
    network::lemma_ip_of(src);
    network::lemma_ip_of(dst);
    reveal(network::on_frame);
    reveal(network::on_ipv4);
    let frame = stream::udp_out(n, peer.mac, dst, local_port, port, bytes);
    let after = network::on_frame(peer, frame);
    assert(after.sockets.dom() =~= peer.sockets.dom());
}

/// A datagram goes out as one frame to the destination that was given, from the
/// socket's own port; one without a port takes the next free one, and keeps it.
pub proof fn law_datagram_sent(
    n: NetView,
    handle: u32,
    u: UdpView,
    ip: Ipv4Address,
    port: u16,
    bytes: Seq<u8>,
)
    requires
        n.fault is None,
        n.sockets.dom().contains(handle as u64),
        n.sockets[handle as u64] == SocketView::Udp(u),
        network::same_subnet(ip, n.configuration.address),
        n.arp.dom().contains(ip),
        bytes.len() <= usize::MAX,
    ensures
        ({
            let (r, after, _) = stream::sendto_step(
                n,
                handle,
                bytes,
                ip,
                port,
                SendProgress::Start,
            );
            &&& r == Ok::<Option<usize>, NetworkError>(Some(bytes.len() as usize))
            &&& after.sockets[handle as u64] matches SocketView::Udp(v)
            &&& after.sent == n.sent.push(
                stream::udp_out(n, n.arp[ip], ip, v.local_port, port, bytes),
            )
            &&& v.local_port == (if u.local_port == 0 {
                n.counters.next_port
            } else {
                u.local_port
            })
            &&& u.local_port == 0 ==> v.bound && after.counters.next_port != v.local_port
            &&& u.local_port != 0 ==> v == u && after.counters == n.counters
        }),
{
    let after = stream::sendto_step(n, handle, bytes, ip, port, SendProgress::Start).1;
    assert(after.sent =~= n.sent.push(after.sent.last()));
}

// ---------------------------------------------------------------------------
// Accepting, names, options, closing
// ---------------------------------------------------------------------------
/// Connections are accepted in the order in which they opened, each once, with
/// the address of the peer.
pub proof fn law_accepted_in_order(n: NetView, handle: u32, t: TcpView, c: TcpView)
    requires
        n.fault is None,
        n.arrived.len() == 0,
        n.sockets.dom().contains(handle as u64),
        n.sockets[handle as u64] == SocketView::Tcp(t),
        t.state is Listen,
        t.accept_queue.len() > 0,
        t.accept_queue[0] != handle,
        n.sockets.dom().contains(t.accept_queue[0] as u64),
        n.sockets[t.accept_queue[0] as u64] == SocketView::Tcp(c),
    ensures
        ({
            let (r, after) = network::accept_attempt(n, handle, false);
            &&& r == Ok::<Option<(u32, Ipv4Address, u16)>, NetworkError>(
                Some((t.accept_queue[0], c.remote_ip, c.remote_port)),
            )
            &&& after.sockets[handle as u64] matches SocketView::Tcp(left)
            &&& seq![t.accept_queue[0]] + left.accept_queue == t.accept_queue
            &&& left == TcpView { accept_queue: left.accept_queue, ..t }
            &&& after.sockets.remove(handle as u64) == n.sockets.remove(handle as u64)
        }),
{
    let (r, after) = network::accept_attempt(n, handle, false);
    assert(seq![t.accept_queue[0]] + t.accept_queue.skip(1) =~= t.accept_queue);
    assert(after.sockets.remove(handle as u64) =~= n.sockets.remove(handle as u64));
}

/// Where no connection waits, one that may not block is told so, and one that
/// may goes on waiting; only a listening socket can be asked.
pub proof fn law_nothing_to_accept(n: NetView, handle: u32, t: TcpView)
    requires
        n.fault is None,
        n.arrived.len() == 0,
        n.sockets.dom().contains(handle as u64),
        n.sockets[handle as u64] == SocketView::Tcp(t),
        t.accept_queue.len() == 0,
    ensures
        t.state is Listen ==> network::accept_attempt(n, handle, false) == (
            Ok::<Option<(u32, Ipv4Address, u16)>, NetworkError>(None),
            n,
        ) && network::accept_attempt(n, handle, true) == (
            Err::<Option<(u32, Ipv4Address, u16)>, NetworkError>(NetworkError::WouldBlock),
            n,
        ),
        !(t.state is Listen) ==> network::accept_attempt(n, handle, false).0 == Err::<
            Option<(u32, Ipv4Address, u16)>,
            NetworkError,
        >(NetworkError::NotListening),
{
}

/// A socket that was bound has the name that it was bound to, and cannot be
/// bound again.
pub proof fn law_bound_name(n: NetView, handle: u32, ip: Ipv4Address, port: u16)
    requires
        port != 0,
        n.sockets.dom().contains(handle as u64),
        !(n.sockets[handle as u64] is Raw),
        network::bound(n.sockets[handle as u64], ip, port) is Ok,
    ensures
        ({
            let s = network::bound(n.sockets[handle as u64], ip, port)->Ok_0;
            let after = NetView { sockets: n.sockets.insert(handle as u64, s), ..n };
            &&& stream::local_name(after, handle) == Ok::<(Ipv4Address, u16), NetworkError>(
                (ip, port),
            )
            &&& forall|other_ip: Ipv4Address, other: u16| #[trigger]
                network::bound(s, other_ip, other) == Err::<SocketView, NetworkError>(
                    NetworkError::AlreadyBound,
                )
        }),
{
}

/// A socket that was connected has the peer that it was connected to.
pub proof fn law_connected_name(
    n: NetView,
    handle: u32,
    mac: MacAddress,
    ip: Ipv4Address,
    port: u16,
)
    requires
        n.fault is None,
        n.sockets.dom().contains(handle as u64),
        !(n.sockets[handle as u64] is Raw),
        n.sockets[handle as u64] matches SocketView::Tcp(t) ==> !(t.state is Established),
    ensures
        stream::peer_name(stream::connect_send(n, handle, mac, ip, port, true).1, handle) == Ok::<
            (Ipv4Address, u16),
            NetworkError,
        >((ip, port)),
{
}

/// An option that was set has the value that it was set to; the others stay.
/// The kind of a socket cannot be set.
pub proof fn law_option_set_then_read(s: SocketView, name: u32, value: u32, other: u32)
    requires
        !(s is Raw),
        other != name,
    ensures
        name == 7 || name == 8 ==> stream::option_value(
            stream::socket_option_set(s, name, value),
            name,
        ) == value,
        name == 2 ==> stream::option_value(stream::socket_option_set(s, name, value), name) == (
        if value != 0 {
            1u32
        } else {
            0u32
        }),
        stream::option_value(stream::socket_option_set(s, name, value), other)
            == stream::option_value(s, other),
        stream::option_value(s, 3) == (if s is Tcp {
            1u32
        } else {
            2u32
        }),
        stream::option_value(stream::socket_option_set(s, 3, value), 3) == stream::option_value(s, 3),
{
}

/// A socket that is closed is gone; the others stay. An open connection tells
/// its peer, behind the last byte that was sent.
pub proof fn law_closed_socket(n: NetView, handle: u32)
    requires
        n.fault is None,
        n.sockets.dom().contains(handle as u64),
    ensures
        ({
            let after = stream::closed(n, handle);
            &&& after.sockets == n.sockets.remove(handle as u64)
            &&& match n.sockets[handle as u64] {
                SocketView::Tcp(t) => if (t.state is Established || t.state is CloseWait)
                    && t.remote_mac is Some {
                    after.sent == n.sent.push(
                        net::tcp_frame(
                            n.mac@,
                            (t.remote_mac->0)@,
                            n.configuration.address@,
                            t.remote_ip@,
                            t.local_port,
                            t.remote_port,
                            t.seq_num,
                            t.ack_num,
                            0x11,
                            network::DEFAULT_WINDOW_SIZE,
                            Seq::empty(),
                        ),
                    )
                } else {
                    after.sent == n.sent
                },
                _ => after.sent == n.sent,
            }
        }),
{
    reveal(stream::farewell);
    let after = stream::closed(n, handle);
    if after.sent.len() > n.sent.len() {
        assert(after.sent =~= n.sent.push(after.sent.last()));
    } else {
        assert(after.sent =~= n.sent);
    }
}

/// A socket can be read exactly if a read or an accept would give something at
/// once.
pub proof fn law_readable_gives(n: NetView, handle: u32, limit: usize)
    requires
        n.fault is None,
        n.arrived.len() == 0,
        n.sockets.dom().contains(handle as u64),
        !(n.sockets[handle as u64] is Raw),
        n.sockets[handle as u64] matches SocketView::Tcp(t) ==> !(t.state is Listen)
            && !(t.state is Reset) && !(t.state is Closed) && t.accept_queue.len() == 0,
    ensures
        stream::readable(n.sockets[handle as u64]) <==> stream::receive_attempt(
            n,
            handle,
            limit,
            true,
        ).0 is Ok,
{
}

// ---------------------------------------------------------------------------
// Neighbours
// ---------------------------------------------------------------------------
/// A host that asks for our address is told it; whoever asks or answers is
/// remembered. The answer is one that the other host accepts, with our own
/// hardware address.
pub proof fn law_question_is_answered(n: NetView, peer: NetView, opcode: u16)
    requires
        n.fault is None,
        opcode == 1 || opcode == 2,
    ensures
        ({
            let question = net::eth_frame(
                Seq::new(6, |i: int| 0xffu8),
                peer.mac@,
                net::ETHERTYPE_ARP,
                net::arp_body(
                    opcode,
                    peer.mac@,
                    peer.configuration.address@,
                    bytes::zeros(6),
                    n.configuration.address@,
                ),
            );
            let after = network::on_frame(n, question);
            &&& after.arp == n.arp.insert(peer.configuration.address, peer.mac)
            &&& after.sockets == n.sockets
            &&& opcode == 1 ==> {
                &&& after.sent.len() == n.sent.len() + 1
                &&& after.sent.drop_last() == n.sent
                &&& net::is_arp_reply(
                    after.sent.last(),
                    peer.configuration.address@,
                    n.configuration.address@,
                )
                &&& after.sent.last().subrange(22, 28) == n.mac@
            }
            &&& opcode == 2 ==> after.sent == n.sent
        }),
{
    let body = net::arp_body(
        opcode,
        peer.mac@,
        peer.configuration.address@,
        bytes::zeros(6),
        n.configuration.address@,
    );
    let question = net::eth_frame(
        Seq::new(6, |i: int| 0xffu8),
        peer.mac@,
        net::ETHERTYPE_ARP,
        body,
    );
    assert(question.skip(14) =~= body);
    assert(body.subrange(8, 14) =~= peer.mac@);
    assert(body.subrange(14, 18) =~= peer.configuration.address@);
    assert(body.subrange(24, 28) =~= n.configuration.address@);
    assert(bytes::be16_at(question, 12) == net::ETHERTYPE_ARP);
    assert(bytes::be16_at(body, 6) == opcode);
    network::lemma_ip_of(peer.configuration.address);
    network::lemma_mac_of(peer.mac);
    net::law_arp_reply_accepted(
        n.mac@,
        n.configuration.address@,
        peer.mac@,
        peer.configuration.address@,
    );
    reveal(network::on_frame);
    let after = network::on_frame(n, question);
    if opcode == 1 {
        assert(after.sent.drop_last() =~= n.sent);
    } else {
        assert(after.sent =~= n.sent);
    }
}

/// The hardware address of a neighbour is the one that was learned of it last,
/// without another question; one that is not known is asked for. Any other host
/// is reached by the gateway.
pub proof fn law_neighbour_resolved(n: NetView, ip: Ipv4Address, mac: MacAddress)
    requires
        n.fault is None,
    ensures
        network::same_subnet(ip, n.configuration.address) ==> network::resolve_start(
            NetView { arp: n.arp.insert(ip, mac), ..n },
            ip,
        ) == (
            Ok::<Option<MacAddress>, NetworkError>(Some(mac)),
            NetView { arp: n.arp.insert(ip, mac), ..n },
        ),
        network::same_subnet(ip, n.configuration.address) && !n.arp.dom().contains(ip) ==> {
            let (r, asked) = network::resolve_start(n, ip);
            &&& r == Ok::<Option<MacAddress>, NetworkError>(None)
            &&& asked.sent == n.sent.push(
                net::eth_frame(
                    seq![0xffu8, 0xff, 0xff, 0xff, 0xff, 0xff],
                    n.mac@,
                    net::ETHERTYPE_ARP,
                    net::arp_body(
                        1,
                        n.mac@,
                        n.configuration.address@,
                        seq![0u8, 0, 0, 0, 0, 0],
                        ip@,
                    ),
                ),
            )
        },
        !network::same_subnet(ip, n.configuration.address) ==> network::resolve_start(n, ip) == (
            match n.gateway_mac {
                Some(gateway) => Ok::<Option<MacAddress>, NetworkError>(Some(gateway)),
                None => Err(NetworkError::GatewayUnreachable),
            },
            n,
        ),
{
    assert(Seq::new(6, |i: int| 0xffu8) =~= seq![0xffu8, 0xff, 0xff, 0xff, 0xff, 0xff]);
    assert(bytes::zeros(6) =~= seq![0u8, 0, 0, 0, 0, 0]);
    let asked = network::resolve_start(n, ip).1;
    if asked.sent.len() > n.sent.len() {
        assert(asked.sent =~= n.sent.push(asked.sent.last()));
    }
}

/// The answer of a neighbour that was asked for ends the question with the
/// hardware address that it tells, which is remembered; another frame does not.
pub proof fn law_answer_resolves(n: NetView, peer: NetView, attempts: usize)
    requires
        n.fault is None,
        attempts > 0,
        n.arrived.len() > 0,
    ensures
        ({
            let reply = net::eth_frame(
                n.mac@,
                peer.mac@,
                net::ETHERTYPE_ARP,
                net::arp_body(
                    2,
                    peer.mac@,
                    peer.configuration.address@,
                    n.mac@,
                    n.configuration.address@,
                ),
            );
            let (r, after) = network::resolve_look(n, peer.configuration.address, attempts);
            &&& n.arrived[0] == reply ==> r == Ok::<Option<MacAddress>, NetworkError>(
                Some(peer.mac),
            ) && after.arp == n.arp.insert(peer.configuration.address, peer.mac)
            &&& !net::is_arp_reply(
                n.arrived[0],
                n.configuration.address@,
                peer.configuration.address@,
            ) ==> r == Ok::<Option<MacAddress>, NetworkError>(None) && after.arp == n.arp
            &&& after.arrived == n.arrived.skip(1)
            &&& after.sent == n.sent
        }),
{
    net::law_arp_reply_accepted(
        peer.mac@,
        peer.configuration.address@,
        n.mac@,
        n.configuration.address@,
    );
    network::lemma_mac_of(peer.mac);
}

/// An echo request is answered to its sender, with its number, its place in the
/// sequence and its data: the answer is one that the sender accepts.
pub proof fn law_echo_is_answered(n: NetView, peer: NetView, id: u16, sequence: u16, data: Seq<u8>)
    requires
        n.fault is None,
        28 + data.len() <= 65535,
    ensures
        ({
            let request = net::ipv4_frame(
                peer.mac@,
                n.mac@,
                peer.configuration.address@,
                n.configuration.address@,
                net::IP_PROTOCOL_ICMP,
                id,
                0x4000,
                64,
                net::sealed_echo_message(8, id, sequence, data),
            );
            let after = network::on_frame(n, request);
            &&& after.sent.len() == n.sent.len() + 1
            &&& after.sent.drop_last() == n.sent
            &&& net::echo_reply_frame(
                after.sent.last(),
                peer.configuration.address@,
                n.configuration.address@,
                id,
            )
            &&& after.sent.last().subrange(0, 6) == peer.mac@
            &&& after.sent.last().skip(34) == net::sealed_echo_message(0, id, sequence, data)
            &&& after.sockets == n.sockets
        }),
{
    let src = peer.configuration.address;
    let dst = n.configuration.address;
    let message = net::sealed_echo_message(8, id, sequence, data);
    net::law_echo_round_trip(8, id, sequence, data);
    assert(message.len() == 8 + data.len());
    net::law_ipv4_round_trip(id, 0x4000, 64, net::IP_PROTOCOL_ICMP, src@, dst@, message);
    net::lemma_ipv4_frame_packet(
        peer.mac@,
        n.mac@,
        src@,
        dst@,
        net::IP_PROTOCOL_ICMP,
        id,
        0x4000,
        64,
        message,
    );
    network::lemma_ip_of(src);
    network::lemma_ip_of(dst);
    network::lemma_mac_of(peer.mac);
    let answer = net::sealed_echo_message(0, id, sequence, data);
    assert(answer.len() == 8 + data.len());
    net::law_echo_reply_accepted(n.mac@, peer.mac@, dst@, src@, id, sequence, data);
    net::lemma_ipv4_frame_packet(
        n.mac@,
        peer.mac@,
        dst@,
        src@,
        net::IP_PROTOCOL_ICMP,
        id,
        0x4000,
        64,
        answer,
    );
    reveal(network::on_frame);
    reveal(network::on_ipv4);
    let request = net::ipv4_frame(
        peer.mac@,
        n.mac@,
        src@,
        dst@,
        net::IP_PROTOCOL_ICMP,
        id,
        0x4000,
        64,
        message,
    );
    let after = network::on_frame(n, request);
    assert(after.sent.drop_last() =~= n.sent);
    assert(after.sent.last().skip(34) =~= after.sent.last().skip(14).skip(20));
    assert(after.sent.last().skip(34) =~= answer);
}

} // verus!
