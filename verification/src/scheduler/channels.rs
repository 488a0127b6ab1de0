//! Channels between programs, events, the terminal, and the memory of the
//! running program.
use vstd::prelude::*;

use crate::abi::Rights;
use crate::bytes::{bytes_equal, copy_range};
use crate::linux;
use crate::network::TcpConnection;
use crate::paging::Machine;
use crate::process::{self, ProcessView};
use crate::scheduler::{
    self, ChannelView, DescriptorResource, EpollItem, FileDescriptor, IPC_MESSAGE_LIMIT,
    IPC_QUEUE_LIMIT, IpcMessage, MessageView, ObjectsView, OpenSocket, Scheduler, SchedulerView,
    Shared, Task,
};
use crate::scheduler::descriptors::{self, current_descriptor};
use crate::scheduler::io;
use crate::scheduler::lifecycle;
use crate::scheduler::switch::wake_pipe_waiters;

verus! {

// ---------------------------------------------------------------------------
// Channels
// ---------------------------------------------------------------------------
pub open spec fn with_channel(s: SchedulerView, k: usize, c: ChannelView) -> SchedulerView {
    s.with_objects(ObjectsView { channels: s.objects.channels.update(k as int, c), ..s.objects })
}

/// What sending does: the message waits in the channel, and receivers can go
/// on. `None` where it cannot be sent.
pub open spec fn sent(s: Option<SchedulerView>, fd: u64, bytes: Seq<u8>) -> Option<SchedulerView> {
    match descriptors::descriptor_in(s, fd) {
        None => None,
        Some(d) => match d.resource {
            DescriptorResource::Ipc { channel, send } => {
                let c = s->0.objects.channels[channel as int];
                if !d.rights.has(Rights(2)) || bytes.len() > IPC_MESSAGE_LIMIT || !send
                    || c.revoked || c.queue.len() >= IPC_QUEUE_LIMIT {
                    None
                } else {
                    let m = MessageView { sender_pid: s->0.task().tgid, bytes };
                    Some(
                        io::woken(
                            with_channel(
                                s->0,
                                channel,
                                ChannelView { queue: c.queue.push(m), ..c },
                            ),
                            c.id,
                        ),
                    )
                }
            },
            _ => None,
        },
    }
}

pub fn ipc_send_current(scheduler: &mut Option<Scheduler>, fd: u64, bytes: &[u8]) -> (r: Result<(), ()>)
    requires
        scheduler::ready(*old(scheduler)),
    ensures
        scheduler::ready(*final(scheduler)),
        match sent(scheduler::seen(*old(scheduler)), fd, bytes@) {
            None => r is Err && scheduler::seen(*final(scheduler)) == scheduler::seen(*old(scheduler)),
            Some(s1) => r is Ok && scheduler::seen(*final(scheduler)) == Some(s1),
        },
{
    let d = match current_descriptor(scheduler, fd) {
        None => {
            return Err(());
        },
        Some(d) => d,
    };
    if !d.rights.contains(Rights::WRITE()) || bytes.len() > IPC_MESSAGE_LIMIT {
        return Err(());
    }
    match (d.resource, scheduler) {
        (DescriptorResource::Ipc { channel, send }, Some(s)) => {
            let ghost before = s@;
            if !send {
                return Err(());
            }
            let sender_pid: u64 = s.tasks[s.current].tgid;
            let c = s.objects.channels.get(channel);
            assert(c@ == s@.objects.channels[channel as int]);
            if c.revoked || c.queue.len() >= IPC_QUEUE_LIMIT {
                return Err(());
            }
            let id: u64 = c.id;
            let message = IpcMessage { sender_pid, bytes: copy_range(bytes, 0, bytes.len()) };
            assert(message.bytes@ =~= bytes@);
            let c = s.objects.channels.at_mut(channel);
            let _ = c.queue.push(message);
            proof {
                descriptors::lemma_objects(before, s@.objects);
            }
            wake_pipe_waiters(s, id);
            Ok(())
        },
        _ => Err(()),
    }
}

/// What receiving does and gives: the first message from another process, if
/// there is one.
pub open spec fn received(s: Option<SchedulerView>, fd: u64) -> Option<
    (SchedulerView, Option<Seq<u8>>),
> {
    match descriptors::descriptor_in(s, fd) {
        None => None,
        Some(d) => match d.resource {
            DescriptorResource::Ipc { channel, send } => {
                let c = s->0.objects.channels[channel as int];
                if !d.rights.has(Rights(1)) || send || c.revoked {
                    None
                } else {
                    match io::first_message(c.queue, s->0.task().tgid, 0) {
                        None => Some((s->0, None)),
                        Some(i) => Some(
                            (
                                with_channel(
                                    s->0,
                                    channel,
                                    ChannelView { queue: c.queue.remove(i), ..c },
                                ),
                                Some(c.queue[i].bytes),
                            ),
                        ),
                    }
                }
            },
            _ => None,
        },
    }
}

fn take_message(s: &mut Scheduler, k: usize) -> (r: Option<Vec<u8>>)
    requires
        old(s)@.wf(),
        k < old(s)@.objects.channels.len(),
    ensures
        final(s)@.wf(),
        ({
            let c = old(s)@.objects.channels[k as int];
            match io::first_message(c.queue, old(s)@.task().tgid, 0) {
                None => r is None && final(s)@ == old(s)@,
                Some(i) => r is Some && r->0@ == c.queue[i].bytes && final(s)@ == with_channel(
                    old(s)@,
                    k,
                    ChannelView { queue: c.queue.remove(i), ..c },
                ),
            }
        }),
{
    let ghost before = s@;
    let pid: u64 = s.tasks[s.current].tgid;
    let ghost c = s@.objects.channels[k as int];
    let channel = s.objects.channels.get(k);
    let count: usize = channel.queue.len();
    let mut i: usize = 0;
    while i < count && channel.queue.get(i).sender_pid == pid
        invariant
            i <= count,
            count == c.queue.len(),
            channel@ == c,
            io::first_message(c.queue, pid, 0) == io::first_message(c.queue, pid, i as int),
        decreases count - i,
    {
        assert(channel.queue@[i as int] == c.queue[i as int]);
        i += 1;
    }
    if i >= count {
        return None;
    }
    let channel = s.objects.channels.at_mut(k);
    let message = channel.queue.remove(i);
    proof {
        assert(before.objects.sound());
        assert(s@.objects.files == before.objects.files);
        assert(s@.objects.directories == before.objects.directories);
        descriptors::lemma_objects(before, s@.objects);
    }
    Some(message.bytes)
}

pub fn ipc_receive_current(scheduler: &mut Option<Scheduler>, fd: u64) -> (r: Result<
    Option<Vec<u8>>,
    (),
>)
    requires
        scheduler::ready(*old(scheduler)),
    ensures
        scheduler::ready(*final(scheduler)),
        match received(scheduler::seen(*old(scheduler)), fd) {
            None => r is Err && scheduler::seen(*final(scheduler)) == scheduler::seen(*old(scheduler)),
            Some((s1, message)) => {
                &&& r is Ok
                &&& scheduler::seen(*final(scheduler)) == Some(s1)
                &&& match message {
                    None => r->Ok_0 is None,
                    Some(bytes) => r->Ok_0 is Some && r->Ok_0->0@ == bytes,
                }
            },
        },
{
    let d = match current_descriptor(scheduler, fd) {
        None => {
            return Err(());
        },
        Some(d) => d,
    };
    if !d.rights.contains(Rights::READ()) {
        return Err(());
    }
    match (d.resource, scheduler) {
        (DescriptorResource::Ipc { channel, send }, Some(s)) => {
            if send {
                return Err(());
            }
            let c = s.objects.channels.get(channel);
            assert(c@ == s@.objects.channels[channel as int]);
            if c.revoked {
                return Err(());
            }
            Ok(take_message(s, channel))
        },
        _ => Err(()),
    }
}

/// What revoking a channel does: nothing can go through it any longer.
pub open spec fn revoked(s: Option<SchedulerView>, fd: u64) -> Option<SchedulerView> {
    match descriptors::descriptor_in(s, fd) {
        None => None,
        Some(d) => match d.resource {
            DescriptorResource::Ipc { channel, .. } => {
                let c = s->0.objects.channels[channel as int];
                if !d.rights.has(Rights(8)) {
                    None
                } else {
                    Some(
                        io::woken(
                            with_channel(s->0, channel, ChannelView { revoked: true, ..c }),
                            c.id,
                        ),
                    )
                }
            },
            _ => None,
        },
    }
}

pub fn ipc_revoke_current(scheduler: &mut Option<Scheduler>, fd: u64) -> (r: Result<(), ()>)
    requires
        scheduler::ready(*old(scheduler)),
    ensures
        scheduler::ready(*final(scheduler)),
        match revoked(scheduler::seen(*old(scheduler)), fd) {
            None => r is Err && scheduler::seen(*final(scheduler)) == scheduler::seen(*old(scheduler)),
            Some(s1) => r is Ok && scheduler::seen(*final(scheduler)) == Some(s1),
        },
{
    let d = match current_descriptor(scheduler, fd) {
        None => {
            return Err(());
        },
        Some(d) => d,
    };
    if !d.rights.contains(Rights::TRANSFER()) {
        return Err(());
    }
    match (d.resource, scheduler) {
        (DescriptorResource::Ipc { channel, .. }, Some(s)) => {
            let ghost before = s@;
            let c = s.objects.channels.at_mut(channel);
            c.revoked = true;
            let id: u64 = c.id;
            proof {
                descriptors::lemma_objects(before, s@.objects);
            }
            wake_pipe_waiters(s, id);
            Ok(())
        },
        _ => Err(()),
    }
}

/// After a channel was revoked, nothing can be sent through it.
pub proof fn law_revoked_channel_refuses(s: SchedulerView, fd: u64, bytes: Seq<u8>)
    requires
        revoked(Some(s), fd) is Some,
        descriptors::descriptor_at(s, fd) matches Some(d) && (d.resource matches DescriptorResource::Ipc {
            channel,
            ..
        } && channel < s.objects.channels.len()),
        0 <= s.current < s.tasks.len(),
    ensures
        sent(Some(revoked(Some(s), fd)->0), fd, bytes) is None,
        received(Some(revoked(Some(s), fd)->0), fd) is None,
{
    let s1 = revoked(Some(s), fd)->0;
    assert(s1.tasks[s1.current].descriptors == s.tasks[s.current].descriptors);
}

// ---------------------------------------------------------------------------
// Sockets
// ---------------------------------------------------------------------------
/// The socket that may be connected by a descriptor: it is not yet.
pub open spec fn unconnected(s: Option<SchedulerView>, fd: u64) -> Option<usize> {
    match descriptors::descriptor_in(s, fd) {
        None => None,
        Some(d) => match d.resource {
            DescriptorResource::Socket(k) => if d.rights.has(Rights(128))
                && s->0.objects.sockets[k as int].connection is None {
                Some(k)
            } else {
                None
            },
            _ => None,
        },
    }
}

/// Finds the socket that is to be connected.
pub fn socket_to_connect(scheduler: &Option<Scheduler>, fd: u64) -> (r: Option<usize>)
    requires
        scheduler::ready(*scheduler),
    ensures
        r == unconnected(scheduler::seen(*scheduler), fd),
{
    let d = match current_descriptor(scheduler, fd) {
        None => {
            return None;
        },
        Some(d) => d,
    };
    if !d.rights.contains(Rights::CONNECT()) {
        return None;
    }
    match (d.resource, scheduler) {
        (DescriptorResource::Socket(k), Some(s)) => {
            if s.objects.sockets.get(k).connection.is_some() {
                None
            } else {
                Some(k)
            }
        },
        _ => None,
    }
}

/// Connects a socket, if the connection was made.
pub fn connect_socket_current(
    scheduler: &mut Option<Scheduler>,
    fd: u64,
    connection: Option<TcpConnection>,
) -> (r: Result<(), ()>)
    requires
        scheduler::ready(*old(scheduler)),
    ensures
        scheduler::ready(*final(scheduler)),
        match (unconnected(scheduler::seen(*old(scheduler)), fd), connection) {
            (Some(k), Some(c)) => {
                let s = scheduler::seen(*old(scheduler))->0;
                r is Ok && scheduler::seen(*final(scheduler)) == Some(
                    s.with_objects(
                        ObjectsView {
                            sockets: s.objects.sockets.update(
                                k as int,
                                OpenSocket { connection: Some(c) },
                            ),
                            ..s.objects
                        },
                    ),
                )
            },
            _ => r is Err && scheduler::seen(*final(scheduler)) == scheduler::seen(*old(scheduler)),
        },
{
    let place = socket_to_connect(scheduler, fd);
    proof {
        if scheduler::seen(*scheduler) is Some {
            descriptors::lemma_table(scheduler::seen(*scheduler)->0);
        }
    }
    match (place, connection, scheduler) {
        (Some(k), Some(c), Some(s)) => {
            let ghost before = s@;
            let socket = s.objects.sockets.at_mut(k);
            socket.connection = Some(c);
            proof {
                descriptors::lemma_objects(before, s@.objects);
            }
            Ok(())
        },
        _ => Err(()),
    }
}

// ---------------------------------------------------------------------------
// Events
// ---------------------------------------------------------------------------
pub open spec fn item_of(items: Seq<EpollItem>, fd: u64, i: int) -> Option<int>
    decreases items.len() - i,
{
    if i < 0 || i >= items.len() {
        None
    } else if items[i].fd == fd {
        Some(i)
    } else {
        item_of(items, fd, i + 1)
    }
}

/// What changing the descriptors that are waited for does.
pub open spec fn controlled(items: Seq<EpollItem>, op: u32, fd: u64, events: u32, data: u64) -> Option<
    Seq<EpollItem>,
> {
    let place = item_of(items, fd, 0);
    if op == linux::EPOLL_CTL_ADD {
        if place is Some {
            None
        } else {
            Some(items.push(EpollItem { fd, events, data }))
        }
    } else if op == linux::EPOLL_CTL_MOD {
        match place {
            None => None,
            Some(i) => Some(items.update(i, EpollItem { fd, events, data })),
        }
    } else if op == linux::EPOLL_CTL_DEL {
        match place {
            None => None,
            Some(i) => Some(items.remove(i)),
        }
    } else {
        None
    }
}

pub open spec fn epoll_of(s: Option<SchedulerView>, fd: u64) -> Option<usize> {
    match descriptors::descriptor_in(s, fd) {
        Some(FileDescriptor { resource: DescriptorResource::Epoll(k), .. }) => Some(k),
        _ => None,
    }
}

fn find_item(items: &Vec<EpollItem>, fd: u64) -> (r: Option<usize>)
    ensures
        match r {
            Some(i) => item_of(items@, fd, 0) == Some(i as int) && i < items.len()
                && items@[i as int].fd == fd,
            None => item_of(items@, fd, 0) is None,
        },
{
    let mut i: usize = 0;
    while i < items.len()
        invariant
            i <= items.len(),
            item_of(items@, fd, 0) == item_of(items@, fd, i as int),
        decreases items.len() - i,
    {
        if items[i].fd == fd {
            return Some(i);
        }
        i += 1;
    }
    None
}

fn control(items: &mut Vec<EpollItem>, op: u32, fd: u64, events: u32, data: u64) -> (r: bool)
    ensures
        match controlled(old(items)@, op, fd, events, data) {
            None => !r && final(items)@ == old(items)@,
            Some(after) => r && final(items)@ == after,
        },
{
    let place = find_item(items, fd);
    match (op, place) {
        (linux::EPOLL_CTL_ADD, None) => {
            items.push(EpollItem { fd, events, data });
            true
        },
        (linux::EPOLL_CTL_MOD, Some(i)) => {
            items[i] = EpollItem { fd, events, data };
            true
        },
        (linux::EPOLL_CTL_DEL, Some(i)) => {
            let _ = items.remove(i);
            true
        },
        _ => false,
    }
}

pub fn epoll_ctl_current(
    scheduler: &mut Option<Scheduler>,
    epfd: u64,
    op: u32,
    fd: u64,
    events: u32,
    data: u64,
) -> (r: Result<(), ()>)
    requires
        scheduler::ready(*old(scheduler)),
    ensures
        scheduler::ready(*final(scheduler)),
        match epoll_of(scheduler::seen(*old(scheduler)), epfd) {
            None => r is Err && scheduler::seen(*final(scheduler)) == scheduler::seen(*old(scheduler)),
            Some(k) => {
                let s = scheduler::seen(*old(scheduler))->0;
                match controlled(s.objects.epolls[k as int], op, fd, events, data) {
                    None => r is Err && scheduler::seen(*final(scheduler)) == Some(s),
                    Some(items) => r is Ok && scheduler::seen(*final(scheduler)) == Some(
                        s.with_objects(
                            ObjectsView {
                                epolls: s.objects.epolls.update(k as int, items),
                                ..s.objects
                            },
                        ),
                    ),
                }
            },
        },
{
    let d = match current_descriptor(scheduler, epfd) {
        None => {
            return Err(());
        },
        Some(d) => d,
    };
    match (d.resource, scheduler) {
        (DescriptorResource::Epoll(k), Some(s)) => {
            let ghost before = s@;
            let done: bool = control(&mut s.objects.epolls.at_mut(k).items, op, fd, events, data);
            proof {
                descriptors::lemma_objects(before, s@.objects);
                if !done {
                    assert(s@.objects.epolls =~= before.objects.epolls);
                }
            }
            if done {
                Ok(())
            } else {
                Err(())
            }
        },
        _ => Err(()),
    }
}

/// What a resource can do now.
pub open spec fn ready_events(o: ObjectsView, resource: DescriptorResource) -> u32 {
    match resource {
        DescriptorResource::PipeRead(k) => {
            let p = o.pipes[k as int];
            ((if p.bytes.len() > 0 {
                1int
            } else {
                0
            }) + (if !p.writer_open {
                0x10
            } else {
                0int
            })) as u32
        },
        DescriptorResource::PipeWrite(k) => if o.pipes[k as int].bytes.len() < 4096 {
            4
        } else {
            0
        },
        DescriptorResource::Socket(k) => if o.sockets[k as int].connection is Some {
            5
        } else {
            0
        },
        DescriptorResource::EventFd(k) => if o.event_fds[k as int].counter > 0 {
            5
        } else {
            4
        },
        DescriptorResource::File(_) => 5,
        DescriptorResource::Serial => 5,
        DescriptorResource::Tty => 5,
        _ => 0,
    }
}

fn events_now(s: &Scheduler, resource: DescriptorResource) -> (r: u32)
    requires
        s@.objects.holds(resource),
    ensures
        r == ready_events(s@.objects, resource),
{
    match resource {
        DescriptorResource::PipeRead(k) => {
            let pipe = s.objects.pipes.get(k);
            assert(pipe@ == s@.objects.pipes[k as int]);
            let mut events: u32 = 0;
            if pipe.bytes.len() > 0 {
                events = linux::EPOLLIN;
            }
            if !pipe.writer_open {
                events = events + linux::EPOLLHUP;
            }
            events
        },
        DescriptorResource::PipeWrite(k) => {
            let pipe = s.objects.pipes.get(k);
            assert(pipe@ == s@.objects.pipes[k as int]);
            if pipe.bytes.len() < 4096 {
                linux::EPOLLOUT
            } else {
                0
            }
        },
        DescriptorResource::Socket(k) => {
            if s.objects.sockets.get(k).connection.is_some() {
                linux::EPOLLIN + linux::EPOLLOUT
            } else {
                0
            }
        },
        DescriptorResource::EventFd(k) => {
            if s.objects.event_fds.get(k).counter > 0 {
                linux::EPOLLIN + linux::EPOLLOUT
            } else {
                linux::EPOLLOUT
            }
        },
        DescriptorResource::File(_) => linux::EPOLLIN + linux::EPOLLOUT,
        DescriptorResource::Serial => linux::EPOLLIN + linux::EPOLLOUT,
        DescriptorResource::Tty => linux::EPOLLIN + linux::EPOLLOUT,
        _ => 0,
    }
}

/// Which of the events that an item asks for have come.
pub open spec fn events_of(s: SchedulerView, item: EpollItem) -> u32 {
    match descriptors::descriptor_at(s, item.fd) {
        None => 0,
        Some(d) => ready_events(s.objects, d.resource) & item.events,
    }
}

/// The items from the `i`-th on for which something has come, `limit` at most.
pub open spec fn ready_items(s: SchedulerView, items: Seq<EpollItem>, i: int, limit: int) -> Seq<
    (u32, u64),
>
    decreases items.len() - i,
{
    if i < 0 || i >= items.len() || limit <= 0 {
        Seq::empty()
    } else {
        let events = events_of(s, items[i]);
        if events != 0 {
            seq![(events, items[i].data)] + ready_items(s, items, i + 1, limit - 1)
        } else {
            ready_items(s, items, i + 1, limit)
        }
    }
}

/// Which of the descriptors that are waited for are ready.
pub fn epoll_wait_current(scheduler: &Option<Scheduler>, epfd: u64, maxevents: usize) -> (r: Result<
    Vec<(u32, u64)>,
    (),
>)
    requires
        scheduler::ready(*scheduler),
    ensures
        match epoll_of(scheduler::seen(*scheduler), epfd) {
            None => r is Err,
            Some(k) => {
                let s = scheduler::seen(*scheduler)->0;
                r is Ok && r->Ok_0@ == ready_items(
                    s,
                    s.objects.epolls[k as int],
                    0,
                    maxevents as int,
                )
            },
        },
{
    let d = match current_descriptor(scheduler, epfd) {
        None => {
            return Err(());
        },
        Some(d) => d,
    };
    match (d.resource, scheduler) {
        (DescriptorResource::Epoll(k), Some(s)) => {
            let mut found: Vec<(u32, u64)> = Vec::new();
            let epoll = s.objects.epolls.get(k);
            let items = &epoll.items;
            let ghost goal = ready_items(s@, items@, 0, maxevents as int);
            let mut i: usize = 0;
            assert(found@ + goal =~= goal);
            while i < items.len() && found.len() < maxevents
                invariant
                    i <= items.len(),
                    found.len() <= maxevents,
                    scheduler::ready(*scheduler),
                    *scheduler == Some(*s),
                    goal == found@ + ready_items(s@, items@, i as int, maxevents - found.len()),
                decreases items.len() - i,
            {
                let item = items[i];
                let ghost rest = ready_items(s@, items@, i as int, maxevents - found.len());
                let ghost before = found@;
                if let Some(x) = current_descriptor(scheduler, item.fd) {
                    let events: u32 = events_now(s, x.resource) & item.events;
                    if events != 0 {
                        found.push((events, item.data));
                        proof {
                            let left = ready_items(
                                s@,
                                items@,
                                i + 1,
                                maxevents - found.len(),
                            );
                            assert(rest == seq![(events, item.data)] + left);
                            assert(before + rest =~= found@ + left);
                        }
                    }
                }
                i += 1;
            }
            assert(found@ + Seq::<(u32, u64)>::empty() =~= found@);
            Ok(found)
        },
        _ => Err(()),
    }
}

// ---------------------------------------------------------------------------
// The terminal
// ---------------------------------------------------------------------------
/// The byte of a key that is pressed; none of one that is let go.
pub open spec fn key_byte(scancode: u8) -> Option<u8> {
    if scancode >= 0x80 {
        None
    } else if 0x02 <= scancode <= 0x0a {
        Some((scancode - 0x02 + 49) as u8)
    } else if scancode == 0x0b {
        Some(48)
    } else if scancode == 0x0e {
        Some(8)
    } else if 0x10 <= scancode <= 0x19 {
        Some(seq![113u8, 119, 101, 114, 116, 121, 117, 105, 111, 112][scancode - 0x10])
    } else if scancode == 0x1c {
        Some(10)
    } else if 0x1e <= scancode <= 0x26 {
        Some(seq![97u8, 115, 100, 102, 103, 104, 106, 107, 108][scancode - 0x1e])
    } else if scancode == 0x27 {
        Some(59)
    } else if 0x2c <= scancode <= 0x32 {
        Some(seq![122u8, 120, 99, 118, 98, 110, 109][scancode - 0x2c])
    } else if scancode == 0x33 {
        Some(44)
    } else if scancode == 0x34 {
        Some(46)
    } else if scancode == 0x35 {
        Some(47)
    } else if scancode == 0x39 {
        Some(32)
    } else {
        None
    }
}

pub fn decode_tty_scancode(scancode: u8) -> (r: Option<u8>)
    ensures
        r == key_byte(scancode),
{
    if scancode >= 0x80 {
        return None;
    }
    let upper: [u8; 10] = [113, 119, 101, 114, 116, 121, 117, 105, 111, 112];
    let middle: [u8; 9] = [97, 115, 100, 102, 103, 104, 106, 107, 108];
    let lower: [u8; 7] = [122, 120, 99, 118, 98, 110, 109];
    if scancode >= 0x02 && scancode <= 0x0a {
        Some(scancode - 0x02 + 49)
    } else if scancode == 0x0b {
        Some(48)
    } else if scancode == 0x0e {
        Some(8)
    } else if scancode >= 0x10 && scancode <= 0x19 {
        Some(upper[(scancode - 0x10) as usize])
    } else if scancode == 0x1c {
        Some(10)
    } else if scancode >= 0x1e && scancode <= 0x26 {
        Some(middle[(scancode - 0x1e) as usize])
    } else if scancode == 0x27 {
        Some(59)
    } else if scancode >= 0x2c && scancode <= 0x32 {
        Some(lower[(scancode - 0x2c) as usize])
    } else if scancode == 0x33 {
        Some(44)
    } else if scancode == 0x34 {
        Some(46)
    } else if scancode == 0x35 {
        Some(47)
    } else if scancode == 0x39 {
        Some(32)
    } else {
        None
    }
}

/// What a key does: whether the control key is held then, and the byte that it
/// gives. Control and `c` give the byte that interrupts a program.
pub open spec fn key_pressed(held: bool, scancode: u8) -> (bool, Option<u8>) {
    if scancode == 0x1d {
        (true, None)
    } else if scancode == 0x9d {
        (false, None)
    } else if held && scancode == 0x2e {
        (held, Some(3))
    } else {
        (held, key_byte(scancode))
    }
}

/// The bytes of keys, `length` at most, and how many keys that took.
pub open spec fn keys_typed(held: bool, scancodes: Seq<u8>, length: int) -> (bool, Seq<u8>, int)
    decreases scancodes.len(),
{
    if scancodes.len() == 0 || length <= 0 {
        (held, Seq::empty(), 0)
    } else {
        let (held1, byte) = key_pressed(held, scancodes[0]);
        match byte {
            None => {
                let (h, bytes, n) = keys_typed(held1, scancodes.skip(1), length);
                (h, bytes, n + 1)
            },
            Some(b) => {
                let (h, bytes, n) = keys_typed(held1, scancodes.skip(1), length - 1);
                (h, seq![b] + bytes, n + 1)
            },
        }
    }
}

/// Reads from the terminal: first what has come over the serial line, then the
/// keys that were pressed. Returns the bytes, and how many of each were used.
pub fn read_tty(shared: &mut Shared, serial: &[u8], scancodes: &[u8], length: usize) -> (r: (
    Vec<u8>,
    usize,
    usize,
))
    ensures
        ({
            let first = if serial@.len() <= length {
                serial@.len() as int
            } else {
                length as int
            };
            let (held, keys, used) = keys_typed(
                old(shared).tty_ctrl_held,
                scancodes@,
                length - first,
            );
            let (bytes, a, b) = r;
            &&& bytes@ == serial@.take(first) + keys
            &&& a == first
            &&& b == used
            &&& *final(shared) == (Shared { tty_ctrl_held: held, ..*old(shared) })
        }),
{
    assert(serial@.len() == serial.len());
    let first: usize = if serial.len() <= length {
        serial.len()
    } else {
        length
    };
    let mut bytes = copy_range(serial, 0, first);
    assert(bytes@ =~= serial@.take(first as int));
    let ghost start = bytes@;
    let ghost goal = keys_typed(shared.tty_ctrl_held, scancodes@, length - first);
    let mut i: usize = 0;
    let mut left: usize = length - first;
    let ghost mut typed: Seq<u8> = Seq::empty();
    proof {
        assert(scancodes@.skip(0) =~= scancodes@);
        let (h, b, n) = goal;
        assert(typed + b =~= b);
        assert(start + typed =~= start);
    }
    while i < scancodes.len() && left > 0
        invariant
            i <= scancodes.len(),
            left <= length,
            bytes@ == start + typed,
            *shared == (Shared { tty_ctrl_held: shared.tty_ctrl_held, ..*old(shared) }),
            ({
                let (h, b, n) = keys_typed(
                    shared.tty_ctrl_held,
                    scancodes@.skip(i as int),
                    left as int,
                );
                goal == (h, typed + b, n + i)
            }),
        decreases scancodes.len() - i,
    {
        let scancode: u8 = scancodes[i];
        let ghost rest = keys_typed(shared.tty_ctrl_held, scancodes@.skip(i as int), left as int);
        assert(scancodes@.skip(i as int).skip(1) =~= scancodes@.skip(i + 1));
        assert(scancodes@.skip(i as int)[0] == scancode);
        let mut byte: Option<u8> = None;
        if scancode == 0x1d {
            shared.tty_ctrl_held = true;
        } else if scancode == 0x9d {
            shared.tty_ctrl_held = false;
        } else if shared.tty_ctrl_held && scancode == 0x2e {
            byte = Some(3);
        } else {
            byte = decode_tty_scancode(scancode);
        }
        if let Some(b) = byte {
            bytes.push(b);
            left -= 1;
            proof {
                let (h, after, n) = keys_typed(
                    shared.tty_ctrl_held,
                    scancodes@.skip(i + 1),
                    left as int,
                );
                let before = typed;
                typed = typed.push(b);
                assert(before + (seq![b] + after) =~= typed + after);
                assert(bytes@ =~= start + typed);
            }
        }
        i += 1;
    }
    proof {
        assert(typed + Seq::<u8>::empty() =~= typed);
    }
    (bytes, first, i)
}

// ---------------------------------------------------------------------------
// Paths
// ---------------------------------------------------------------------------
/// `/tmp`.
pub open spec fn tmp_path() -> Seq<u8> {
    seq![47u8, 116, 109, 112]
}

/// `/home/vanta`.
pub open spec fn home_path() -> Seq<u8> {
    seq![47u8, 104, 111, 109, 101, 47, 118, 97, 110, 116, 97]
}

/// Whether a path is that of a directory, or below it.
pub open spec fn within(path: Seq<u8>, root: Seq<u8>) -> bool {
    path == root || (path.len() > root.len() && path.take(root.len() as int) == root
        && path[root.len() as int] == 47)
}

/// Whether the running program may change what is at a path.
pub open spec fn may_mutate(s: Option<SchedulerView>, path: Seq<u8>) -> bool {
    match s {
        None => false,
        Some(x) => x.task().credentials.uid == 0 || within(path, tmp_path()) || within(
            path,
            home_path(),
        ),
    }
}

fn is_within(path: &[u8], root: &[u8]) -> (r: bool)
    ensures
        r == within(path@, root@),
{
    assert(path@.len() == path.len() && root@.len() == root.len());
    if path.len() < root.len() {
        return false;
    }
    let start = copy_range(path, 0, root.len());
    assert(start@ =~= path@.take(root@.len() as int));
    if path.len() == root.len() {
        assert(path@.take(root@.len() as int) =~= path@);
    }
    bytes_equal(start.as_slice(), root) && (path.len() == root.len() || path[root.len()] == 47)
}

pub fn can_mutate_path(scheduler: &Option<Scheduler>, path: &[u8]) -> (r: bool)
    requires
        scheduler::ready(*scheduler),
    ensures
        r == may_mutate(scheduler::seen(*scheduler), path@),
{
    match scheduler {
        None => false,
        Some(s) => {
            let tmp: [u8; 4] = [47, 116, 109, 112];
            let home: [u8; 11] = [47, 104, 111, 109, 101, 47, 118, 97, 110, 116, 97];
            assert(tmp@ =~= tmp_path());
            assert(home@ =~= home_path());
            s.tasks[s.current].credentials.is_root() || is_within(path, tmp.as_slice())
                || is_within(path, home.as_slice())
        },
    }
}

// ---------------------------------------------------------------------------
// The memory of the running program
// ---------------------------------------------------------------------------
/// Sets the word that the running task is to clear when it ends; returns its
/// number.
pub fn set_current_clear_child_tid(scheduler: &mut Option<Scheduler>, addr: u64) -> (r: u64)
    requires
        scheduler::ready(*old(scheduler)),
    ensures
        scheduler::ready(*final(scheduler)),
        match scheduler::seen(*old(scheduler)) {
            None => r == 0 && *final(scheduler) is None,
            Some(s) => r == s.task().tid && scheduler::seen(*final(scheduler)) == Some(
                s.with_current(Task { clear_child_tid: addr, ..s.task() }),
            ),
        },
{
    match scheduler {
        None => 0,
        Some(s) => {
            let current: usize = s.current;
            let task = s.tasks[current];
            assert(scheduler::task_ok(s@.tasks[s@.current], s@));
            s.tasks[current] = Task { clear_child_tid: addr, ..task };
            task.tid
        },
    }
}

pub open spec fn with_process(s: SchedulerView, v: ProcessView) -> SchedulerView {
    SchedulerView { processes: s.processes.update(s.task().process->0 as int, v), ..s }
}

/// Moves the end of the running program's data.
pub fn brk_current(machine: &mut Machine, scheduler: &mut Option<Scheduler>, new_brk: u64) -> (r: u64)
    requires
        old(machine).wf(),
        scheduler::ready(*old(scheduler)),
    ensures
        final(machine).wf(),
        final(machine).same_place(old(machine)),
        scheduler::ready(*final(scheduler)),
        match scheduler::seen(*old(scheduler)) {
            Some(s) => match s.task().process {
                Some(p) => {
                    let (m, v) = process::brk_moved(old(machine)@, s.processes[p as int], new_brk);
                    &&& r == v.brk_current
                    &&& final(machine)@ == m
                    &&& scheduler::seen(*final(scheduler)) == Some(with_process(s, v))
                },
                None => r == 0 && final(machine)@ == old(machine)@ && scheduler::seen(*final(scheduler))
                    == Some(s),
            },
            None => r == 0 && final(machine)@ == old(machine)@ && *final(scheduler) is None,
        },
{
    match scheduler {
        None => 0,
        Some(s) => {
            assert(scheduler::task_ok(s@.tasks[s@.current], s@));
            match s.tasks[s.current].process {
                None => 0,
                Some(p) => {
                    let ghost before = s@;
                    let end: u64 = s.processes.at_mut(p).brk(machine, new_brk);
                    proof {
                        lifecycle::lemma_still_ok(before, s@);
                    }
                    end
                },
            }
        },
    }
}

/// Maps memory for the running program.
pub fn mmap_current(
    machine: &mut Machine,
    scheduler: &mut Option<Scheduler>,
    addr: u64,
    length: u64,
    prot: u64,
    flags: u64,
) -> (r: Result<u64, ()>)
    requires
        old(machine).wf(),
        scheduler::ready(*old(scheduler)),
    ensures
        final(machine).wf(),
        final(machine).same_place(old(machine)),
        scheduler::ready(*final(scheduler)),
        match scheduler::seen(*old(scheduler)) {
            Some(s) => match s.task().process {
                Some(p) => {
                    let (m, v, result) = process::mmapped(
                        old(machine)@,
                        s.processes[p as int],
                        addr,
                        length,
                        prot,
                        flags,
                    );
                    &&& r == result
                    &&& final(machine)@ == m
                    &&& scheduler::seen(*final(scheduler)) == Some(with_process(s, v))
                },
                None => r is Err && final(machine)@ == old(machine)@ && scheduler::seen(*final(scheduler))
                    == Some(s),
            },
            None => r is Err && final(machine)@ == old(machine)@ && *final(scheduler) is None,
        },
{
    match scheduler {
        None => Err(()),
        Some(s) => {
            assert(scheduler::task_ok(s@.tasks[s@.current], s@));
            match s.tasks[s.current].process {
                None => Err(()),
                Some(p) => {
                    let ghost before = s@;
                    let r = s.processes.at_mut(p).mmap_anonymous(
                        machine,
                        addr,
                        length,
                        prot,
                        flags,
                    );
                    proof {
                        lifecycle::lemma_still_ok(before, s@);
                    }
                    r
                },
            }
        },
    }
}

/// Whether a range of addresses can be unmapped: it starts at a page and does
/// not go round the end of memory.
pub open spec fn unmappable(addr: u64, length: u64) -> bool {
    addr % 4096 == 0 && length > 0 && length + 4095 <= u64::MAX
}

/// Unmaps memory of the running program.
pub fn munmap_current(machine: &mut Machine, scheduler: &mut Option<Scheduler>, addr: u64, length: u64) -> (r:
    Result<(), ()>)
    requires
        old(machine).wf(),
        scheduler::ready(*old(scheduler)),
        unmappable(addr, length) ==> addr + (length + 4095) / 4096 * 4096 <= u64::MAX,
    ensures
        final(machine).wf(),
        final(machine).same_place(old(machine)),
        scheduler::ready(*final(scheduler)),
        match scheduler::seen(*old(scheduler)) {
            Some(s) => match s.task().process {
                Some(p) => {
                    let v = s.processes[p as int];
                    if unmappable(addr, length) {
                        let (m, kept) = process::pages_dropped(
                            old(machine)@,
                            v.space,
                            addr as int,
                            addr + (length + 4095) / 4096 * 4096,
                            v.mappings,
                        );
                        &&& r is Ok
                        &&& final(machine)@ == m
                        &&& scheduler::seen(*final(scheduler)) == Some(
                            with_process(s, ProcessView { mappings: kept, ..v }),
                        )
                    } else {
                        r is Err && final(machine)@ == old(machine)@ && scheduler::seen(*final(scheduler))
                            == Some(s)
                    }
                },
                None => r is Err && final(machine)@ == old(machine)@ && scheduler::seen(*final(scheduler))
                    == Some(s),
            },
            None => r is Err && final(machine)@ == old(machine)@ && *final(scheduler) is None,
        },
{
    match scheduler {
        None => Err(()),
        Some(s) => {
            assert(scheduler::task_ok(s@.tasks[s@.current], s@));
            match s.tasks[s.current].process {
                None => Err(()),
                Some(p) => {
                    let ghost before = s@;
                    let r = s.processes.at_mut(p).munmap(machine, addr, length);
                    proof {
                        lifecycle::lemma_still_ok(before, s@);
                        if r is Err {
                            assert(s@.processes =~= before.processes);
                        }
                    }
                    r
                },
            }
        },
    }
}

proof fn lemma_first_message(queue: Seq<MessageView>, pid: u64, m: MessageView, i: int)
    requires
        0 <= i <= queue.len(),
    ensures
        io::first_message(queue.push(m), pid, i) == match io::first_message(queue, pid, i) {
            Some(k) => Some(k),
            None => if m.sender_pid != pid {
                Some(queue.len() as int)
            } else {
                None
            },
        },
    decreases queue.len() - i,
{
    if i < queue.len() {
        lemma_first_message(queue, pid, m, i + 1);
        assert(queue.push(m)[i] == queue[i]);
    } else {
        assert(queue.push(m)[i] == m);
        assert(io::first_message(queue.push(m), pid, i + 1) is None);
    }
}

/// A message reaches the others in the order in which it was sent: it does not
/// overtake one that is there, and where none is there it is the next one.
pub proof fn law_messages_in_order(queue: Seq<MessageView>, receiver: u64, m: MessageView)
    requires
        m.sender_pid != receiver,
    ensures
        io::first_message(queue.push(m), receiver, 0) == match io::first_message(
            queue,
            receiver,
            0,
        ) {
            Some(i) => Some(i),
            None => Some(queue.len() as int),
        },
        queue.push(m)[queue.len() as int].bytes == m.bytes,
{
    lemma_first_message(queue, receiver, m, 0);
}

} // verus!
