//! What holds between hosts: what one sends, another gets.
use vstd::prelude::*;

use crate::bytes;
use crate::net::{self, Ipv4Address, MacAddress, TcpHeader};
use crate::network::{
    self, Counters, DatagramView, NetView, NetworkError, SocketView, TcpState, TcpView, UdpView,
};
use crate::network::stream::{self, ConnectProgress, ReceivedView, SendProgress};

verus! {

// ---------------------------------------------------------------------------
// Segments
// ---------------------------------------------------------------------------
/// Data that starts at the byte that is waited for is taken and acknowledged
/// up to its end; the peer's acknowledgement is remembered. What we send goes
/// on where it was.
pub proof fn law_data_taken(s: TcpView, src_mac: MacAddress, tcp: TcpHeader, payload: Seq<u8>)
    requires
        s.state is Established || s.state is CloseWait,
        tcp.flags & 0x04 == 0,
        tcp.flags & 0x01 == 0,
        tcp.flags & 0x10 != 0,
        tcp.sequence == s.ack_num,
        0 < payload.len() <= 65535,
    ensures
        ({
            let (after, acks) = network::on_segment(s, src_mac, tcp, payload);
            &&& after.rx == s.rx + payload
            &&& after.ack_num == s.ack_num.wrapping_add(payload.len() as u32)
            &&& acks == seq![after.ack_num]
            &&& after.snd_una == tcp.acknowledgement
            &&& after.state == s.state
            &&& after.seq_num == s.seq_num
            &&& after.rx_closed == s.rx_closed
        }),
{
}

/// The end of what the peer sends takes one number: it is acknowledged after
/// the data that came with it, and nothing more is read after that data.
pub proof fn law_end_of_data(s: TcpView, src_mac: MacAddress, tcp: TcpHeader, payload: Seq<u8>)
    requires
        s.state is Established,
        tcp.flags & 0x04 == 0,
        tcp.flags & 0x01 != 0,
        tcp.sequence == s.ack_num,
        payload.len() <= 65535,
    ensures
        ({
            let (after, acks) = network::on_segment(s, src_mac, tcp, payload);
            &&& after.rx == s.rx + payload
            &&& after.ack_num == s.ack_num.wrapping_add(payload.len() as u32).wrapping_add(1)
            &&& after.rx_closed
            &&& after.state is CloseWait
            &&& after.seq_num == s.seq_num
            &&& acks.len() > 0
            &&& acks.last() == after.ack_num
        }),
{
    assert(s.rx + Seq::<u8>::empty() =~= s.rx);
    if payload.len() == 0 {
        assert(payload =~= Seq::<u8>::empty());
    }
}

/// What is acknowledged last is what is waited for next, in every state; bytes
/// that were taken are never taken back, and our own numbers move only when a
/// connection opens.
pub proof fn law_last_acknowledgement(
    s: TcpView,
    src_mac: MacAddress,
    tcp: TcpHeader,
    payload: Seq<u8>,
)
    ensures
        ({
            let (after, acks) = network::on_segment(s, src_mac, tcp, payload);
            &&& acks.len() > 0 ==> acks.last() == after.ack_num
            &&& after.ack_num != s.ack_num ==> acks.len() > 0
            &&& s.rx.is_prefix_of(after.rx)
            &&& !(s.state is SynSent) ==> after.seq_num == s.seq_num
            &&& after.local_port == s.local_port
            &&& after.remote_port == s.remote_port
            &&& after.remote_ip == s.remote_ip
            &&& after.local_ip == s.local_ip
        }),
{
    let (after, acks) = network::on_segment(s, src_mac, tcp, payload);
    assert(s.rx =~= s.rx.subrange(0, s.rx.len() as int));
    assert(s.rx =~= (s.rx + payload).subrange(0, s.rx.len() as int));
}

/// A connection that we end: the acknowledgement of our end, then the peer's
/// end, which is acknowledged with one number; or both in one segment. One that
/// the peer ended first is closed by the acknowledgement of our end.
pub proof fn law_our_end_acknowledged(
    s: TcpView,
    src_mac: MacAddress,
    answer: TcpHeader,
    end: TcpHeader,
)
    requires
        answer.flags & 0x04 == 0,
        answer.flags & 0x10 != 0,
        answer.flags & 0x01 == 0,
        end.flags & 0x04 == 0,
        end.flags & 0x01 != 0,
        end.flags & 0x10 != 0,
    ensures
        s.state is FinWait1 ==> {
            let half = network::on_segment(s, src_mac, answer, Seq::empty());
            let (after, acks) = network::on_segment(half.0, src_mac, end, Seq::empty());
            &&& half.0.state is FinWait2
            &&& half.1.len() == 0
            &&& after.state is TimeWait
            &&& after.ack_num == s.ack_num.wrapping_add(1)
            &&& acks == seq![after.ack_num]
            &&& network::on_segment(s, src_mac, end, Seq::empty()).0.state is TimeWait
            &&& network::on_segment(s, src_mac, end, Seq::empty()).1 == acks
        },
        s.state is LastAck ==> {
            let (after, acks) = network::on_segment(s, src_mac, answer, Seq::empty());
            &&& after.state is Closed
            &&& acks.len() == 0
        },
{
}

// ---------------------------------------------------------------------------
// Frames to sockets
// ---------------------------------------------------------------------------
/// Whether `h` is the only socket for a connection.
pub open spec fn connected_alone(n: NetView, h: u64, port: u16, ip: Ipv4Address, peer: u16) -> bool {
    &&& n.sockets.dom().contains(h)
    &&& network::is_connection(n.sockets[h], port, ip, peer)
    &&& forall|k: u64|
        n.sockets.dom().contains(k) && network::is_connection(#[trigger] n.sockets[k], port, ip, peer)
            ==> k == h
}

/// A segment goes to the socket of its connection: to the one with its port
/// that has its sender as peer. All other sockets stay as they are, and each
/// acknowledgement goes back to the sender.
pub proof fn law_segment_to_its_connection(
    n: NetView,
    h: u64,
    src_mac: MacAddress,
    src_ip: Ipv4Address,
    tcp: TcpHeader,
    payload: Seq<u8>,
)
    requires
        connected_alone(n, h, tcp.dest_port, src_ip, tcp.src_port),
    ensures
        ({
            let after = network::on_tcp(n, src_mac, src_ip, tcp, payload);
            let (t, acks) = network::on_segment(n.sockets[h]->Tcp_0, src_mac, tcp, payload);
            &&& after.sockets == n.sockets.insert(h, SocketView::Tcp(t))
            &&& after.arrived == n.arrived
            &&& after.arp == n.arp
            &&& after.counters == n.counters
            &&& after.configuration == n.configuration
            &&& after.mac == n.mac
            &&& after.fault == n.fault
            &&& n.fault is None ==> {
                &&& after.sent.len() == n.sent.len() + acks.len()
                &&& after.sent.take(n.sent.len() as int) == n.sent
                &&& forall|i: int|
                    0 <= i < acks.len() ==> #[trigger] after.sent[n.sent.len() + i]
                        == net::tcp_frame(
                        n.mac@,
                        src_mac@,
                        n.configuration.address@,
                        src_ip@,
                        tcp.dest_port,
                        tcp.src_port,
                        t.seq_num,
                        acks[i],
                        0x10,
                        network::DEFAULT_WINDOW_SIZE,
                        Seq::empty(),
                    )
            }
        }),
{
    reveal(network::on_tcp);
    let connection = |s: SocketView|
        network::is_connection(s, tcp.dest_port, src_ip, tcp.src_port);
    assert(network::is_least(n.sockets, connection, h)) by {
        assert forall|k: u64| #![trigger n.sockets[k]]
            n.sockets.dom().contains(k) && connection(n.sockets[k]) implies h <= k by {
            assert(network::is_connection(n.sockets[k], tcp.dest_port, src_ip, tcp.src_port));
        }
    }
    network::lemma_least(n.sockets, connection, h);
    law_last_acknowledgement(n.sockets[h]->Tcp_0, src_mac, tcp, payload);
    let after = network::on_tcp(n, src_mac, src_ip, tcp, payload);
    if n.fault is None {
        assert(after.sent.take(n.sent.len() as int) =~= n.sent);
    }
}

/// A segment that belongs to no connection and no listening socket changes
/// nothing and is not answered.
pub proof fn law_stray_segment(
    n: NetView,
    src_mac: MacAddress,
    src_ip: Ipv4Address,
    tcp: TcpHeader,
    payload: Seq<u8>,
)
    requires
        forall|k: u64|
            n.sockets.dom().contains(k) ==> !network::is_connection(
                #[trigger] n.sockets[k],
                tcp.dest_port,
                src_ip,
                tcp.src_port,
            ) && !network::is_listener(n.sockets[k], tcp.dest_port),
    ensures
        network::on_tcp(n, src_mac, src_ip, tcp, payload) == n,
{
    reveal(network::on_tcp);
    let connection = |s: SocketView|
        network::is_connection(s, tcp.dest_port, src_ip, tcp.src_port);
    let listener = |s: SocketView| network::is_listener(s, tcp.dest_port);
    assert forall|h: u64| !network::is_least(n.sockets, connection, h) by {
        if n.sockets.dom().contains(h) {
            assert(!network::is_connection(n.sockets[h], tcp.dest_port, src_ip, tcp.src_port));
        }
    }
    assert forall|h: u64| !network::is_least(n.sockets, listener, h) by {
        if n.sockets.dom().contains(h) {
            assert(!network::is_listener(n.sockets[h], tcp.dest_port));
        }
    }
}

/// Whether a header is that of a segment with these fields.
pub open spec fn is_header(
    tcp: TcpHeader,
    src_port: u16,
    dest_port: u16,
    sequence: u32,
    acknowledgement: u32,
    flags: u8,
    window: u16,
) -> bool {
    &&& tcp.src_port == src_port
    &&& tcp.dest_port == dest_port
    &&& tcp.sequence == sequence
    &&& tcp.acknowledgement == acknowledgement
    &&& tcp.flags == flags
    &&& tcp.window_size == window
}

/// The frame of a segment is taken by the host that it is for as just that
/// segment, from the host that it is from.
pub proof fn law_segment_arrives(
    n: NetView,
    src_mac: MacAddress,
    src_ip: Ipv4Address,
    src_port: u16,
    dest_port: u16,
    sequence: u32,
    acknowledgement: u32,
    flags: u8,
    window: u16,
    payload: Seq<u8>,
) -> (tcp: TcpHeader)
    requires
        40 + payload.len() <= 65535,
    ensures
        is_header(tcp, src_port, dest_port, sequence, acknowledgement, flags, window),
        network::on_frame(
            n,
            net::tcp_frame(
                src_mac@,
                n.mac@,
                src_ip@,
                n.configuration.address@,
                src_port,
                dest_port,
                sequence,
                acknowledgement,
                flags,
                window,
                payload,
            ),
        ) == network::on_tcp(n, src_mac, src_ip, tcp, payload),
{
    let dst = n.configuration.address;
    let segment = net::tcp_sealed(
        src_ip@,
        dst@,
        src_port,
        dest_port,
        sequence,
        acknowledgement,
        flags,
        window,
        payload,
    );
    let id = (sequence % 65536) as u16;
    net::law_tcp_round_trip(
        src_ip@,
        dst@,
        src_port,
        dest_port,
        sequence,
        acknowledgement,
        flags,
        window,
        payload,
    );
    net::law_ipv4_round_trip(id, 0x4000, 64, net::IP_PROTOCOL_TCP, src_ip@, dst@, segment);
    net::lemma_ipv4_frame_packet(
        src_mac@,
        n.mac@,
        src_ip@,
        dst@,
        net::IP_PROTOCOL_TCP,
        id,
        0x4000,
        64,
        segment,
    );
    network::lemma_ip_of(src_ip);
    network::lemma_ip_of(dst);
    network::lemma_mac_of(src_mac);
    reveal(network::on_frame);
    reveal(network::on_ipv4);
    network::tcp_header(segment)
}

/// A host after frames, one after the other.
pub open spec fn fed(n: NetView, frames: Seq<Seq<u8>>) -> NetView
    decreases frames.len(),
{
    if frames.len() == 0 {
        n
    } else {
        fed(network::on_frame(n, frames[0]), frames.skip(1))
    }
}

/// Whether two connections are the two ends of one, and the second waits for
/// just the byte that the first sends next.
pub open spec fn in_step(n: NetView, t: TcpView, peer: NetView, r: TcpView) -> bool {
    &&& t.remote_mac == Some(peer.mac)
    &&& t.remote_ip == peer.configuration.address
    &&& r.remote_ip == n.configuration.address
    &&& t.remote_port == r.local_port
    &&& t.local_port == r.remote_port
    &&& r.state is Established
    &&& r.ack_num == t.seq_num
}

/// Bytes that one end of a connection sends are what the other end reads, in
/// their order, behind what was there; it then waits for the byte after them.
#[verifier::rlimit(40)]
#[verifier::spinoff_prover]
pub proof fn law_bytes_arrive(
    n: NetView,
    t: TcpView,
    peer: NetView,
    h: u64,
    bytes: Seq<u8>,
)
    requires
        connected_alone(
            peer,
            h,
            t.remote_port,
            n.configuration.address,
            t.local_port,
        ),
        in_step(n, t, peer, peer.sockets[h]->Tcp_0),
    ensures
        ({
            let frames = stream::chunks(
                n.mac,
                n.configuration.address,
                peer.mac,
                t,
                t.seq_num,
                bytes,
            );
            let after = fed(peer, frames);
            &&& after.sockets.dom() == peer.sockets.dom()
            &&& after.sockets[h] matches SocketView::Tcp(r)
            &&& r.rx == peer.sockets[h]->Tcp_0.rx + bytes
            &&& r.ack_num == stream::advanced(t.seq_num, bytes.len())
            &&& r.state is Established
            &&& forall|k: u64|
                k != h && peer.sockets.dom().contains(k) ==> #[trigger] after.sockets[k]
                    == peer.sockets[k]
        }),
    decreases bytes.len(),
{
    let r = peer.sockets[h]->Tcp_0;
    let frames = stream::chunks(n.mac, n.configuration.address, peer.mac, t, t.seq_num, bytes);
    if bytes.len() == 0 {
        assert(r.rx + bytes =~= r.rx);
        assert((t.seq_num as int) % 0x1_0000_0000 == t.seq_num);
    } else {
        let size = if bytes.len() <= 1400 {
            bytes.len() as int
        } else {
            1400
        };
        let part = bytes.take(size);
        let rest = bytes.skip(size);
        reveal(stream::chunk_frame);
        let tcp = law_segment_arrives(
            peer,
            n.mac,
            n.configuration.address,
            t.local_port,
            t.remote_port,
            t.seq_num,
            t.ack_num,
            0x18,
            network::DEFAULT_WINDOW_SIZE,
            part,
        );
        assert(0x18u8 & 0x04 == 0 && 0x18u8 & 0x01 == 0 && 0x18u8 & 0x10 != 0) by (bit_vector);
        let next = network::on_frame(peer, frames[0]);
        law_segment_to_its_connection(
            peer,
            h,
            n.mac,
            n.configuration.address,
            tcp,
            part,
        );
        law_data_taken(r, n.mac, tcp, part);
        let t1 = TcpView { seq_num: t.seq_num.wrapping_add(size as u32), ..t };
        let rest_frames = stream::chunks(
            n.mac,
            n.configuration.address,
            peer.mac,
            t,
            t1.seq_num,
            rest,
        );
        lemma_chunks_same(n.mac, n.configuration.address, peer.mac, t, t1, t1.seq_num, rest);
        assert(frames.skip(1) =~= rest_frames);
        law_last_acknowledgement(r, n.mac, tcp, part);
        assert forall|k: u64|
            next.sockets.dom().contains(k) && network::is_connection(
                #[trigger] next.sockets[k],
                t.remote_port,
                n.configuration.address,
                t.local_port,
            ) implies k == h by {
            if k != h {
                assert(next.sockets[k] == peer.sockets[k]);
            }
        }
        assert(next.sockets.dom() =~= peer.sockets.dom());
        law_bytes_arrive(n, t1, next, h, rest);
        assert((r.rx + part) + rest =~= r.rx + bytes);
        assert(stream::advanced(t1.seq_num, rest.len()) == stream::advanced(
            t.seq_num,
            bytes.len(),
        )) by {
            lemma_advance(t.seq_num as int, size, rest.len() as int);
        }
        assert forall|k: u64| k != h && peer.sockets.dom().contains(k) implies #[trigger] fed(
            peer,
            frames,
        ).sockets[k] == peer.sockets[k] by {
            assert(next.sockets[k] == peer.sockets[k]);
        }
    }
}

proof fn lemma_advance(s: int, a: int, b: int)
    ensures
        ((s + a) % 0x1_0000_0000 + b) % 0x1_0000_0000 == (s + (a + b)) % 0x1_0000_0000,
{
    vstd::arithmetic::div_mod::lemma_add_mod_noop(s + a, b, 0x1_0000_0000);
    vstd::arithmetic::div_mod::lemma_add_mod_noop((s + a) % 0x1_0000_0000, b, 0x1_0000_0000);
    vstd::arithmetic::div_mod::lemma_mod_twice(s + a, 0x1_0000_0000);
}

/// The frames do not depend on the number that the socket has itself.
proof fn lemma_chunks_same(
    our_mac: MacAddress,
    our_ip: Ipv4Address,
    mac: MacAddress,
    a: TcpView,
    b: TcpView,
    sequence: u32,
    bytes: Seq<u8>,
)
    requires
        b == (TcpView { seq_num: b.seq_num, ..a }),
    ensures
        stream::chunks(our_mac, our_ip, mac, a, sequence, bytes) == stream::chunks(
            our_mac,
            our_ip,
            mac,
            b,
            sequence,
            bytes,
        ),
    decreases bytes.len(),
{
    reveal(stream::chunk_frame);
    if bytes.len() > 0 {
        let size = if bytes.len() <= 1400 {
            bytes.len() as int
        } else {
            1400
        };
        lemma_chunks_same(
            our_mac,
            our_ip,
            mac,
            a,
            b,
            sequence.wrapping_add(size as u32),
            bytes.skip(size),
        );
    }
}

/// What is sent over a connection goes out as frames, all of it, behind what
/// went out before; the number of the next byte is that of the first and the
/// length. It is sent only over an open connection.
pub proof fn law_all_is_sent(n: NetView, handle: u32, t: TcpView, bytes: Seq<u8>)
    requires
        n.fault is None,
        n.arrived.len() == 0,
        bytes.len() <= usize::MAX,
        n.sockets.dom().contains(handle as u64),
        n.sockets[handle as u64] == SocketView::Tcp(t),
    ensures
        ({
            let (r, after, _) = stream::send_step(n, handle, bytes, SendProgress::Start);
            match r {
                Ok(Some(sent)) => {
                    &&& t.state is Established || t.state is CloseWait
                    &&& t.remote_mac matches Some(mac)
                    &&& sent == bytes.len()
                    &&& after.sent == n.sent + stream::chunks(
                        n.mac,
                        n.configuration.address,
                        mac,
                        t,
                        t.seq_num,
                        bytes,
                    )
                    &&& after.sockets[handle as u64] == SocketView::Tcp(
                        TcpView { seq_num: stream::advanced(t.seq_num, bytes.len()), ..t },
                    )
                },
                Ok(None) => false,
                Err(_) => {
                    &&& after == n
                    &&& !(t.state is Established || t.state is CloseWait) || t.remote_mac is None
                },
            }
        }),
{
}

/// The bytes that are sent first over a connection that was just opened start
/// at the byte that the peer said it expects.
pub proof fn law_first_bytes_where_expected(
    n: NetView,
    handle: u32,
    s: TcpView,
    src_mac: MacAddress,
    tcp: TcpHeader,
    bytes: Seq<u8>,
)
    requires
        n.fault is None,
        n.arrived.len() == 0,
        0 < bytes.len() <= 1400,
        s.state is SynSent,
        tcp.flags & 0x12 == 0x12,
        tcp.flags & 0x04 == 0,
        tcp.acknowledgement == s.seq_num.wrapping_add(1),
        n.sockets.dom().contains(handle as u64),
        n.sockets[handle as u64] == SocketView::Tcp(
            network::on_segment(s, src_mac, tcp, Seq::empty()).0,
        ),
    ensures
        ({
            let (r, after, _) = stream::send_step(n, handle, bytes, SendProgress::Start);
            &&& r == Ok::<Option<usize>, NetworkError>(Some(bytes.len() as usize))
            &&& after.sent == n.sent.push(
                net::tcp_frame(
                    n.mac@,
                    src_mac@,
                    n.configuration.address@,
                    s.remote_ip@,
                    s.local_port,
                    s.remote_port,
                    tcp.acknowledgement,
                    tcp.sequence.wrapping_add(1),
                    0x18,
                    network::DEFAULT_WINDOW_SIZE,
                    bytes,
                ),
            )
        }),
{
    reveal(stream::chunk_frame);
    reveal_with_fuel(stream::chunks, 2);
    let after = stream::send_step(n, handle, bytes, SendProgress::Start).1;
    assert(bytes.take(bytes.len() as int) =~= bytes);
    assert(after.sent =~= n.sent.push(after.sent.last()));
}

// ---------------------------------------------------------------------------
// Opening a connection
// ---------------------------------------------------------------------------
/// A TCP socket that connects sends a request with a number of its own, from a
/// port of its own if it has none yet, and waits for the answer; the next
/// request has another number.
pub proof fn law_request_sent(
    n: NetView,
    handle: u32,
    mac: MacAddress,
    ip: Ipv4Address,
    port: u16,
    nonblocking: bool,
    t: TcpView,
)
    requires
        n.fault is None,
        n.sockets.dom().contains(handle as u64),
        n.sockets[handle as u64] == SocketView::Tcp(t),
        !(t.state is Established),
    ensures
        ({
            let (r, after, progress) = stream::connect_send(n, handle, mac, ip, port, nonblocking);
            &&& r == Ok::<bool, NetworkError>(nonblocking)
            &&& after.sockets[handle as u64] matches SocketView::Tcp(asking)
            &&& asking.state is SynSent
            &&& asking.remote_ip == ip
            &&& asking.remote_port == port
            &&& asking.remote_mac == Some(mac)
            &&& asking.local_port == (if t.local_port == 0 {
                n.counters.next_port
            } else {
                t.local_port
            })
            &&& t.local_port == 0 ==> after.counters.next_port != asking.local_port
            &&& after.sent == n.sent.push(
                net::tcp_frame(
                    n.mac@,
                    mac@,
                    n.configuration.address@,
                    ip@,
                    asking.local_port,
                    port,
                    asking.seq_num,
                    0,
                    0x02,
                    network::DEFAULT_WINDOW_SIZE,
                    Seq::empty(),
                ),
            )
            &&& after.counters.isn_counter != n.counters.isn_counter
            &&& after.sockets.remove(handle as u64) == n.sockets.remove(handle as u64)
            &&& progress is Handshake <==> !nonblocking
        }),
{
    let (r, after, progress) = stream::connect_send(n, handle, mac, ip, port, nonblocking);
    assert(after.sockets.remove(handle as u64) =~= n.sockets.remove(handle as u64));
    assert(after.sent =~= n.sent.push(after.sent.last()));
}

/// Connecting is done as soon as the socket is open, fails as soon as it is
/// reset or closed, and goes on otherwise until the looks are used up.
pub proof fn law_connecting_ends(n: NetView, handle: u32, attempts: usize, t: TcpView)
    requires
        n.fault is None,
        n.arrived.len() == 0,
        attempts > 0,
        n.sockets.dom().contains(handle as u64),
        n.sockets[handle as u64] == SocketView::Tcp(t),
    ensures
        ({
            let (r, after, progress) = stream::handshake_look(n, handle, attempts);
            &&& r == Ok::<bool, NetworkError>(true) <==> t.state is Established
            &&& r is Err <==> t.state is Reset || t.state is Closed
            &&& r == Ok::<bool, NetworkError>(false) ==> progress == (ConnectProgress::Handshake {
                attempts: (attempts - 1) as usize,
            })
            &&& after.sockets == n.sockets
            &&& after.sent == n.sent
        }),
        stream::handshake_look(n, handle, 0).0 == Err::<bool, NetworkError>(
            NetworkError::TcpHandshakeTimeout,
        ),
{
}

/// Two hosts open a connection: the request of one reaches the listening socket
/// of the other, whose answer opens the connection at the first.
pub proof fn law_request_is_answered(
    n: NetView,
    handle: u32,
    t: TcpView,
    peer: NetView,
    l: u64,
    port: u16,
)
    requires
        n.fault is None,
        peer.fault is None,
        n.sockets.dom().contains(handle as u64),
        n.sockets[handle as u64] == SocketView::Tcp(t),
        !(t.state is Established),
        t.local_port != 0,
        crate::network::laws::listens_alone(
            peer,
            l,
            port,
            n.configuration.address,
            t.local_port,
        ),
        forall|k: u64|
            k != handle && n.sockets.dom().contains(k) ==> !network::is_connection(
                #[trigger] n.sockets[k],
                t.local_port,
                peer.configuration.address,
                port,
            ),
    ensures
        ({
            let asked = stream::connect_send(
                n,
                handle,
                peer.mac,
                peer.configuration.address,
                port,
                true,
            ).1;
            let answering = network::on_frame(peer, asked.sent.last());
            let open = network::on_frame(asked, answering.sent.last());
            &&& asked.sockets[handle as u64] matches SocketView::Tcp(asking)
            &&& answering.sockets[l] matches SocketView::Tcp(listener)
            &&& open.sockets[handle as u64] matches SocketView::Tcp(c)
            &&& listener.pending.last().remote_ip == n.configuration.address
            &&& listener.pending.last().remote_port == t.local_port
            &&& c.state is Established
            &&& c.seq_num == asking.seq_num.wrapping_add(1)
            &&& c.ack_num == listener.pending.last().our_isn.wrapping_add(1)
            &&& c.remote_mac == Some(peer.mac)
        }),
{
    law_request_sent(n, handle, peer.mac, peer.configuration.address, port, true, t);
    let asked = stream::connect_send(
        n,
        handle,
        peer.mac,
        peer.configuration.address,
        port,
        true,
    ).1;
    let asking = asked.sockets[handle as u64]->Tcp_0;
    let request = law_segment_arrives(
        peer,
        n.mac,
        n.configuration.address,
        t.local_port,
        port,
        asking.seq_num,
        0,
        0x02,
        network::DEFAULT_WINDOW_SIZE,
        Seq::empty(),
    );
    assert(0x02u8 & 0x02 != 0 && 0x02u8 & 0x10 == 0 && 0x12u8 & 0x04 == 0 && 0x12u8 & 0x12 == 0x12)
        by (bit_vector);
    let answering = network::on_frame(peer, asked.sent.last());
    crate::network::laws::lemma_goes_to_listener(
        peer,
        l,
        n.mac,
        n.configuration.address,
        request,
        Seq::empty(),
    );
    let number = network::isn(peer.counters.isn_counter, port, t.local_port);
    let answer = law_segment_arrives(
        asked,
        peer.mac,
        peer.configuration.address,
        port,
        t.local_port,
        number,
        asking.seq_num.wrapping_add(1),
        0x12,
        network::DEFAULT_WINDOW_SIZE,
        Seq::empty(),
    );
    assert(asked.mac == n.mac && asked.configuration == n.configuration);
    assert(answering.sent.last() == net::tcp_frame(
        peer.mac@,
        n.mac@,
        peer.configuration.address@,
        n.configuration.address@,
        port,
        t.local_port,
        number,
        asking.seq_num.wrapping_add(1),
        0x12,
        network::DEFAULT_WINDOW_SIZE,
        Seq::empty(),
    ));
    assert forall|k: u64|
        asked.sockets.dom().contains(k) && network::is_connection(
            #[trigger] asked.sockets[k],
            t.local_port,
            peer.configuration.address,
            port,
        ) implies k == handle by {
        if k != handle {
            assert(asked.sockets[k] == n.sockets[k]);
        }
    }
    law_segment_to_its_connection(
        asked,
        handle as u64,
        peer.mac,
        peer.configuration.address,
        answer,
        Seq::empty(),
    );
    crate::network::laws::law_answer_opens(asking, peer.mac, answer, Seq::empty());
}

} // verus!
