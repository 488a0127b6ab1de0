//! What holds of connections over several segments.
use vstd::prelude::*;

use crate::net::{self, Ipv4Address, MacAddress, TcpHeader};
use crate::network::{self, NetView, PendingSyn, SocketView, TcpState, TcpView};

verus! {

/// A connection after segments, one after the other.
pub open spec fn on_segments(
    s: TcpView,
    src_mac: MacAddress,
    segments: Seq<(TcpHeader, Seq<u8>)>,
) -> TcpView
    decreases segments.len(),
{
    if segments.len() == 0 {
        s
    } else {
        let before = on_segments(s, src_mac, segments.drop_last());
        network::on_segment(before, src_mac, segments.last().0, segments.last().1).0
    }
}

/// What segments carry, put together.
pub open spec fn carried(segments: Seq<(TcpHeader, Seq<u8>)>) -> Seq<u8>
    decreases segments.len(),
{
    if segments.len() == 0 {
        Seq::empty()
    } else {
        carried(segments.drop_last()) + segments.last().1
    }
}

/// Whether each segment starts where the one before it ended, the first at
/// `start`, and none resets or ends the connection.
pub open spec fn follow_on(start: u32, segments: Seq<(TcpHeader, Seq<u8>)>) -> bool
    decreases segments.len(),
{
    segments.len() > 0 ==> {
        &&& follow_on(start, segments.drop_last())
        &&& segments.last().0.sequence == end_of(start, segments.drop_last())
        &&& segments.last().1.len() <= 65535
        &&& segments.last().0.flags & net::TCP_RST == 0
        &&& segments.last().0.flags & net::TCP_FIN == 0
    }
}

/// Where segments from `start` on end.
pub open spec fn end_of(start: u32, segments: Seq<(TcpHeader, Seq<u8>)>) -> u32
    decreases segments.len(),
{
    if segments.len() == 0 {
        start
    } else {
        end_of(start, segments.drop_last()).wrapping_add(segments.last().1.len() as u32)
    }
}

/// Segments that follow on give their bytes in order, and the connection waits
/// for the byte after them.
pub proof fn law_stream_keeps_order(
    s: TcpView,
    src_mac: MacAddress,
    segments: Seq<(TcpHeader, Seq<u8>)>,
)
    requires
        s.state is Established,
        follow_on(s.ack_num, segments),
    ensures
        ({
            let after = on_segments(s, src_mac, segments);
            &&& after.rx == s.rx + carried(segments)
            &&& after.ack_num == end_of(s.ack_num, segments)
            &&& after.state is Established
        }),
    decreases segments.len(),
{
    if segments.len() == 0 {
        assert(s.rx + carried(segments) =~= s.rx);
    } else {
        law_stream_keeps_order(s, src_mac, segments.drop_last());
        let before = on_segments(s, src_mac, segments.drop_last());
        let (tcp, payload) = segments.last();
        assert(s.rx + carried(segments) =~= before.rx + payload);
        if payload.len() == 0 {
            assert(before.rx + payload =~= before.rx);
        }
    }
}

/// A segment that does not start at the byte that is waited for adds nothing.
pub proof fn law_repeat_adds_nothing(
    s: TcpView,
    src_mac: MacAddress,
    tcp: TcpHeader,
    payload: Seq<u8>,
)
    requires
        s.state is Established,
        tcp.sequence != s.ack_num,
        tcp.flags & net::TCP_RST == 0,
        tcp.flags & net::TCP_FIN == 0,
    ensures
        ({
            let (after, acks) = network::on_segment(s, src_mac, tcp, payload);
            &&& after.rx == s.rx
            &&& after.ack_num == s.ack_num
            &&& forall|i: int| 0 <= i < acks.len() ==> acks[i] == s.ack_num
        }),
{
}

/// A reset ends a connection in every state, without an answer.
pub proof fn law_reset_ends(s: TcpView, src_mac: MacAddress, tcp: TcpHeader, payload: Seq<u8>)
    requires
        tcp.flags & net::TCP_RST != 0,
    ensures
        network::on_segment(s, src_mac, tcp, payload).0.state is Reset,
        network::on_segment(s, src_mac, tcp, payload).0.rx == s.rx,
        network::on_segment(s, src_mac, tcp, payload).1.len() == 0,
{
}

/// Both ends of a handshake meet: the answer to a connection request opens the
/// connection of the one who asked. What is sent next starts at the byte that
/// the peer acknowledged, what is waited for is the byte after the peer's
/// number, and just that is acknowledged.
pub proof fn law_answer_opens(s: TcpView, src_mac: MacAddress, tcp: TcpHeader, payload: Seq<u8>)
    requires
        s.state is SynSent,
        tcp.flags & 0x12 == 0x12,
        tcp.flags & 0x04 == 0,
        tcp.acknowledgement == s.seq_num.wrapping_add(1),
    ensures
        ({
            let (after, acks) = network::on_segment(s, src_mac, tcp, payload);
            &&& after.state is Established
            &&& after.seq_num == tcp.acknowledgement
            &&& after.ack_num == tcp.sequence.wrapping_add(1)
            &&& acks == seq![after.ack_num]
            &&& after.remote_mac == Some(src_mac)
            &&& after.snd_wnd == tcp.window_size
            &&& after.rx == s.rx
            &&& after.local_port == s.local_port
            &&& after.remote_port == s.remote_port
            &&& after.remote_ip == s.remote_ip
        }),
{
}

/// A request for a connection stays open until it is answered with the number
/// after its own: another answer changes nothing and is not acknowledged.
pub proof fn law_other_answers_ignored(
    s: TcpView,
    src_mac: MacAddress,
    tcp: TcpHeader,
    payload: Seq<u8>,
)
    requires
        s.state is SynSent,
        tcp.flags & 0x04 == 0,
        tcp.flags & 0x12 != 0x12 || tcp.acknowledgement != s.seq_num.wrapping_add(1),
    ensures
        network::on_segment(s, src_mac, tcp, payload) == (s, Seq::<u32>::empty()),
{
}

/// A peer that asks a listening socket for a connection and acknowledges the
/// answer gets one: it is open, holds what came with the acknowledgement, and
/// waits last in line to be accepted.
pub proof fn law_request_accepted(
    n: NetView,
    l: u64,
    src_mac: MacAddress,
    src_ip: Ipv4Address,
    request: TcpHeader,
    answer: TcpHeader,
    payload: Seq<u8>,
)
    requires
        n.sockets.dom().contains(l),
        n.sockets[l] is Tcp,
        n.counters.next_handle as u64 != l,
        request.flags & net::TCP_SYN != 0,
        request.flags & net::TCP_ACK == 0,
        answer.src_port == request.src_port,
        answer.dest_port == request.dest_port,
        answer.flags & net::TCP_ACK != 0,
        answer.acknowledgement == network::isn(
            n.counters.isn_counter,
            request.dest_port,
            request.src_port,
        ).wrapping_add(1),
    ensures
        ({
            let asked = network::on_listener(n, l, src_mac, src_ip, request, Seq::empty());
            let after = network::on_listener(asked, l, src_mac, src_ip, answer, payload);
            let handle = n.counters.next_handle;
            &&& after.sockets[handle as u64] matches SocketView::Tcp(c)
            &&& c.state is Established
            &&& c.remote_ip == src_ip
            &&& c.remote_port == request.src_port
            &&& c.local_port == request.dest_port
            &&& c.rx == payload
            &&& after.sockets[l] matches SocketView::Tcp(listener)
            &&& listener.accept_queue == n.sockets[l]->Tcp_0.accept_queue.push(handle)
        }),
{
    let asked = network::on_listener(n, l, src_mac, src_ip, request, Seq::empty());
    let kept = network::others(n.sockets[l]->Tcp_0.pending, src_ip, request.src_port);
    let pending = asked.sockets[l]->Tcp_0.pending;
    let keep = |p: PendingSyn| !network::is_from(p, src_ip, request.src_port);
    assert(pending.len() == kept.len() + 1);
    assert(network::is_from(pending.last(), src_ip, request.src_port));
    assert forall|k: int| 0 <= k < kept.len() implies !network::is_from(
        #[trigger] pending[k],
        src_ip,
        request.src_port,
    ) by {
        assert(pending[k] == kept[k]);
        n.sockets[l]->Tcp_0.pending.lemma_filter_pred(keep, k);
    }
    network::lemma_first_from(pending, src_ip, request.src_port, kept.len() as int);
}

/// Whether `l` is the only listening socket on a port, and no socket is a
/// connection with a peer.
pub open spec fn listens_alone(n: NetView, l: u64, port: u16, ip: Ipv4Address, peer: u16) -> bool {
    &&& n.sockets.dom().contains(l)
    &&& network::is_listener(n.sockets[l], port)
    &&& forall|h: u64|
        n.sockets.dom().contains(h) ==> !network::is_connection(
            #[trigger] n.sockets[h],
            port,
            ip,
            peer,
        )
    &&& forall|h: u64|
        n.sockets.dom().contains(h) && network::is_listener(#[trigger] n.sockets[h], port) ==> h
            == l
}

pub(crate) proof fn lemma_goes_to_listener(
    n: NetView,
    l: u64,
    src_mac: MacAddress,
    src_ip: Ipv4Address,
    tcp: TcpHeader,
    payload: Seq<u8>,
)
    requires
        listens_alone(n, l, tcp.dest_port, src_ip, tcp.src_port),
    ensures
        network::on_tcp(n, src_mac, src_ip, tcp, payload) == network::on_listener(
            n,
            l,
            src_mac,
            src_ip,
            tcp,
            payload,
        ),
{
    reveal(network::on_tcp);
    let connection = |s: SocketView|
        network::is_connection(s, tcp.dest_port, src_ip, tcp.src_port);
    let listener = |s: SocketView| network::is_listener(s, tcp.dest_port);
    assert forall|h: u64| !network::is_least(n.sockets, connection, h) by {
        if n.sockets.dom().contains(h) {
            assert(!network::is_connection(n.sockets[h], tcp.dest_port, src_ip, tcp.src_port));
        }
    }
    assert(network::least(n.sockets, connection) is None);
    assert(network::is_least(n.sockets, listener, l)) by {
        assert forall|k: u64| #![trigger n.sockets[k]]
            n.sockets.dom().contains(k) && listener(n.sockets[k]) implies l <= k by {
            assert(network::is_listener(n.sockets[k], tcp.dest_port));
        }
    }
    network::lemma_least(n.sockets, listener, l);
}

/// A handshake at the only listening socket of a port. The request leaves one
/// half-open connection with the peer and is answered with the number after
/// its own. An acknowledgement leaves none, and it opens a connection that
/// waits last in line to be accepted exactly if it is of the number after ours.
/// The number that the connection is given is not the listener's own.
#[verifier::spinoff_prover]
#[verifier::rlimit(100)]
pub proof fn law_handshake(
    n: NetView,
    l: u64,
    src_mac: MacAddress,
    src_ip: Ipv4Address,
    request: TcpHeader,
    data: Seq<u8>,
    answer: TcpHeader,
)
    requires
        listens_alone(n, l, request.dest_port, src_ip, request.src_port),
        n.counters.next_handle as u64 != l,
        request.flags & net::TCP_SYN != 0,
        request.flags & net::TCP_ACK == 0,
        answer.src_port == request.src_port,
        answer.dest_port == request.dest_port,
        answer.flags & net::TCP_ACK != 0,
    ensures
        ({
            let before = n.sockets[l]->Tcp_0;
            let kept = network::others(before.pending, src_ip, request.src_port);
            let number = network::isn(
                n.counters.isn_counter,
                request.dest_port,
                request.src_port,
            );
            let asked = network::on_tcp(n, src_mac, src_ip, request, data);
            let after = network::on_tcp(asked, src_mac, src_ip, answer, Seq::empty());
            let handle = n.counters.next_handle;
            &&& asked.sockets[l] matches SocketView::Tcp(waiting)
            &&& waiting.pending.len() == kept.len() + 1
            &&& waiting.pending.drop_last() == kept
            &&& waiting.pending.last().our_isn == number
            &&& network::is_from(waiting.pending.last(), src_ip, request.src_port)
            &&& asked.sent == n.sending(
                seq![
                    n.tcp_out(
                        src_mac,
                        src_ip,
                        request.dest_port,
                        request.src_port,
                        number,
                        request.sequence.wrapping_add(1),
                        0x12,
                        Seq::empty(),
                    ),
                ],
            ).sent
            &&& after.sockets[l] matches SocketView::Tcp(listener)
            &&& listener.pending == kept
            &&& forall|k: int|
                0 <= k < kept.len() ==> !network::is_from(
                    #[trigger] kept[k],
                    src_ip,
                    request.src_port,
                )
            &&& if answer.acknowledgement == number.wrapping_add(1) {
                &&& listener.accept_queue == before.accept_queue.push(handle)
                &&& after.sockets[handle as u64] matches SocketView::Tcp(c)
                &&& c.state is Established
                &&& c.seq_num == number.wrapping_add(1)
                &&& c.remote_ip == src_ip
                &&& c.remote_port == request.src_port
                &&& c.local_port == request.dest_port
            } else {
                &&& listener.accept_queue == before.accept_queue
                &&& after.sockets.dom() == n.sockets.dom()
            }
        }),
{
    let asked = network::on_tcp(n, src_mac, src_ip, request, data);
    let kept = network::others(n.sockets[l]->Tcp_0.pending, src_ip, request.src_port);
    lemma_goes_to_listener(n, l, src_mac, src_ip, request, data);
    let pending = asked.sockets[l]->Tcp_0.pending;
    let keep = |p: PendingSyn| !network::is_from(p, src_ip, request.src_port);
    assert(pending.drop_last() =~= kept);
    assert forall|h: u64| asked.sockets.dom().contains(h) implies {
        &&& !network::is_connection(
            #[trigger] asked.sockets[h],
            request.dest_port,
            src_ip,
            request.src_port,
        )
        &&& network::is_listener(asked.sockets[h], request.dest_port) ==> h == l
    } by {
        assert(!network::is_connection(
            n.sockets[h],
            request.dest_port,
            src_ip,
            request.src_port,
        ));
    }
    lemma_goes_to_listener(asked, l, src_mac, src_ip, answer, Seq::empty());
    assert forall|k: int| 0 <= k < kept.len() implies !network::is_from(
        #[trigger] kept[k],
        src_ip,
        request.src_port,
    ) by {
        n.sockets[l]->Tcp_0.pending.lemma_filter_pred(keep, k);
    }
    assert forall|k: int| 0 <= k < kept.len() implies !network::is_from(
        #[trigger] pending[k],
        src_ip,
        request.src_port,
    ) by {
        assert(pending[k] == kept[k]);
    }
    network::lemma_first_from(pending, src_ip, request.src_port, kept.len() as int);
    assert(pending.remove(kept.len() as int) =~= kept);
    let after = network::on_tcp(asked, src_mac, src_ip, answer, Seq::empty());
    assert(asked.sockets.dom() =~= n.sockets.dom());
    if answer.acknowledgement != pending.last().our_isn.wrapping_add(1) {
        assert(after.sockets.dom() =~= n.sockets.dom());
    }
}

} // verus!
