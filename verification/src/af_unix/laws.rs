//! What holds of local sockets over several calls.
use vstd::prelude::*;

use crate::af_unix::{self, KindView, SocketView, UnixAddressView, UnixView};
use crate::scheduler::{FileDescriptor, SchedulerView, TaskState};

verus! {

/// Whether two sockets are open streams and each is the other's peer.
pub open spec fn are_peers(u: UnixView, a: usize, b: usize) -> bool {
    &&& a != b
    &&& u.alive(a)
    &&& u.alive(b)
    &&& u.sockets[a as int].kind matches KindView::Stream {
        peer: p,
        closed: c,
        peer_closed: d,
        ..
    }
    &&& p == Some(b) && !c && !d
    &&& u.sockets[b as int].kind matches KindView::Stream {
        peer: q,
        closed: e,
        peer_closed: f,
        ..
    }
    &&& q == Some(a) && !e && !f
}

/// Two sockets that are made as a pair are each the other's peer; no other
/// socket changes.
pub proof fn law_pair_is_joined(u: UnixView, socket_type: u32)
    requires
        u.sockets.len() + 1 < usize::MAX,
        socket_type % 16 == 1 || socket_type % 16 == 2,
    ensures
        ({
            let (after, r) = af_unix::pair_created(u, socket_type);
            &&& r matches Ok((a, b))
            &&& a == u.sockets.len() && b == u.sockets.len() + 1
            &&& after.sockets.len() == u.sockets.len() + 2
            &&& after.sockets.take(u.sockets.len() as int) == u.sockets
            &&& after.registry == u.registry
            &&& socket_type % 16 == 1 ==> are_peers(after, a, b)
            &&& socket_type % 16 == 2 ==> {
                &&& after.sockets[a as int].kind matches KindView::Datagram { peer: p, .. }
                &&& after.sockets[b as int].kind matches KindView::Datagram { peer: q, .. }
                &&& p == Some(b) && q == Some(a)
            }
            &&& u.next_id < u64::MAX ==> after.sockets[a as int].id != after.sockets[b as int].id
        }),
{
    let after = af_unix::pair_created(u, socket_type).0;
    assert(after.sockets.take(u.sockets.len() as int) =~= u.sockets);
}

/// What one peer sends the other receives, behind what it has not yet received,
/// with the descriptors that went along; nothing comes back to the sender. A
/// reader that waits can go on.
pub proof fn law_peer_receives(
    u: UnixView,
    s: SchedulerView,
    a: usize,
    b: usize,
    data: Seq<u8>,
    fds: Seq<FileDescriptor>,
    waiter: int,
)
    requires
        are_peers(u, a, b),
        0 < data.len(),
        u.sockets[b as int].kind->rx_buf.len() + data.len() <= usize::MAX,
        0 <= waiter < s.tasks.len(),
        s.tasks[waiter].state == (TaskState::PipeWaiting { pipe_id: u.sockets[b as int].id }),
    ensures
        ({
            let (after, s1, r) = af_unix::sent(u, s, a, data, fds);
            let before = u.sockets[b as int].kind;
            let all = before->rx_buf + data;
            let (left, got) = af_unix::received(after.sockets[b as int].kind, usize::MAX);
            &&& r == Ok::<usize, ()>(data.len() as usize)
            &&& got == Ok::<(Seq<u8>, Seq<FileDescriptor>), ()>((all, before->rx_fds + fds))
            &&& left->rx_buf.len() == 0
            &&& left->rx_fds.len() == 0
            &&& after.sockets[a as int] == u.sockets[a as int]
            &&& are_peers(after, a, b)
            &&& s1.tasks[waiter].state is Runnable
        }),
{
    let all = u.sockets[b as int].kind->rx_buf + data;
    assert(all.take(all.len() as int) =~= all);
}

/// A stream is received in its order, each byte once, however many are asked
/// for at a time.
pub proof fn law_received_in_pieces(kind: KindView, first: usize, second: usize)
    requires
        kind matches KindView::Stream { rx_buf, .. } && first < rx_buf.len(),
        first > 0,
    ensures
        ({
            let all = kind->rx_buf;
            let n = af_unix::at_most(all.len() - first, second);
            let (mid, a) = af_unix::received(kind, first);
            let (end, b) = af_unix::received(mid, second);
            &&& a matches Ok((x, _))
            &&& b matches Ok((y, _))
            &&& x.len() == first
            &&& x + y == all.take(first + n)
            &&& end->rx_buf == all.skip(first + n)
        }),
{
    let all = kind->rx_buf;
    let n = af_unix::at_most(all.len() - first, second);
    assert(all.take(first as int) + all.skip(first as int).take(n) =~= all.take(first + n));
    assert(all.skip(first as int).skip(n) =~= all.skip(first + n));
}

/// A socket that was bound is found at its address, which nobody else can then
/// take; sockets at other addresses are found as before.
pub proof fn law_bound_is_found(
    u: UnixView,
    place: usize,
    address: UnixAddressView,
    other: UnixAddressView,
)
    requires
        u.alive(place),
        af_unix::bound(u, place, address).1 is Ok,
        other != address,
    ensures
        ({
            let after = af_unix::bound(u, place, address).0;
            &&& u.at(address) is None
            &&& after.at(address) == Some(place)
            &&& after.at(other) == u.at(other)
            &&& forall|p: usize| #[trigger] af_unix::bound(after, p, address).1 is Err
        }),
{
    af_unix::law_names_differ(address, other);
}

/// A bound socket that is closed gives its address up.
pub proof fn law_closed_frees_address(
    u: UnixView,
    s: SchedulerView,
    place: usize,
    address: UnixAddressView,
    other: UnixAddressView,
)
    requires
        u.alive(place),
        af_unix::bound(u, place, address).1 is Ok,
        other != address,
    ensures
        ({
            let named = af_unix::bound(u, place, address).0;
            let after = af_unix::closed(named, s, place).0;
            &&& after.at(address) is None
            &&& after.at(other) == u.at(other)
        }),
{
    af_unix::law_names_differ(address, other);
}

/// A stream that connects to a listening socket gets a peer, which waits last
/// in line to be accepted there; the two are then joined.
pub proof fn law_connected_is_accepted(
    u: UnixView,
    s: SchedulerView,
    place: usize,
    address: UnixAddressView,
    l: usize,
)
    requires
        u.sockets.len() < usize::MAX,
        u.alive(place),
        u.sockets[place as int].kind matches KindView::Stream { closed, peer_closed, .. } && !closed
            && !peer_closed,
        u.at(address) == Some(l),
        u.sockets[l as int].kind is Listener,
    ensures
        ({
            let (after, _, r) = af_unix::connected(u, s, place, address);
            let server = u.sockets.len() as usize;
            let queue = u.sockets[l as int].kind->accept_queue;
            &&& r is Ok
            &&& are_peers(after, place, server)
            &&& after.sockets[l as int].kind matches KindView::Listener { accept_queue, .. }
            &&& accept_queue == queue.push(server)
            &&& queue.len() == 0 ==> af_unix::accepted(after, l, false).1 == Ok::<usize, ()>(server)
            &&& forall|p: int|
                0 <= p < u.sockets.len() && p != place && p != l ==> #[trigger] after.sockets[p]
                    == u.sockets[p]
        }),
{
}

/// Connections are accepted in the order in which they came, each once; where
/// none waits, none is accepted.
pub proof fn law_accepted_in_order(u: UnixView, l: usize, nonblocking: bool)
    requires
        l < u.sockets.len(),
        u.sockets[l as int].kind matches KindView::Listener { accept_queue, .. } && (
        accept_queue.len() > 0 ==> accept_queue[0] != l && accept_queue[0] < u.sockets.len()),
    ensures
        ({
            let queue = u.sockets[l as int].kind->accept_queue;
            let (after, r) = af_unix::accepted(u, l, nonblocking);
            if queue.len() == 0 {
                r is Err && after == u
            } else {
                &&& r == Ok::<usize, ()>(queue[0])
                &&& after.sockets[l as int].kind matches KindView::Listener { accept_queue: left, .. }
                &&& seq![queue[0]] + left == queue
            }
        }),
{
    let queue = u.sockets[l as int].kind->accept_queue;
    if queue.len() > 0 {
        assert(seq![queue[0]] + queue.remove(0) =~= queue);
    }
}

/// A datagram socket that connects to the socket at an address sends to it.
pub proof fn law_connected_datagram(
    u: UnixView,
    s: SchedulerView,
    place: usize,
    address: UnixAddressView,
    target: usize,
    data: Seq<u8>,
)
    requires
        u.alive(place),
        u.sockets[place as int].kind is Datagram,
        u.at(address) == Some(target),
        u.sockets[target as int].kind is Datagram,
        target != place,
    ensures
        ({
            let (joined, s1, r) = af_unix::connected(u, s, place, address);
            let (after, _, n) = af_unix::sent(joined, s1, place, data, Seq::empty());
            &&& r is Ok
            &&& n == Ok::<usize, ()>(data.len() as usize)
            &&& after.sockets[target as int].kind matches KindView::Datagram { rx_queue, .. }
            &&& rx_queue.drop_last() == u.sockets[target as int].kind->rx_queue
            &&& rx_queue.last().data == data
        }),
{
    let (joined, s1, r) = af_unix::connected(u, s, place, address);
    let (after, _, n) = af_unix::sent(joined, s1, place, data, Seq::empty());
    assert(after.sockets[target as int].kind->rx_queue.drop_last()
        =~= u.sockets[target as int].kind->rx_queue);
}

/// A socket has something to read exactly if a read would give something.
pub proof fn law_pending_gives(socket: SocketView, limit: usize)
    requires
        !(socket.kind is Listener),
    ensures
        af_unix::pending(socket) <==> af_unix::received(socket.kind, limit).1 is Ok,
{
}

/// No more connections wait at a socket than 128.
pub proof fn law_backlog_bounded(u: UnixView, place: usize, backlog: usize)
    requires
        place < u.sockets.len(),
        u.sockets[place as int].kind is Listener,
    ensures
        ({
            let (after, r) = af_unix::listening(u, place, backlog);
            &&& r is Ok
            &&& after.sockets[place as int].kind matches KindView::Listener { backlog: b, .. }
            &&& 0 < b <= 128
            &&& 0 < backlog <= 128 ==> b == backlog
        }),
{
}

} // verus!
