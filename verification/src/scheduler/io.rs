//! The bytes that go through descriptors.
use vstd::prelude::*;

use crate::abi::Rights;
use crate::bytes::{self, copy_range, drain_front, get_le64, push_all, push_le64, put_vec};
use crate::network::TcpConnection;
use crate::scheduler::{
    self, DescriptorResource, EventFdInstance, FileDescriptor, FileView, MessageView, ObjectsView,
    OpenSocket, PipeState, PipeView, PtyView, Scheduler, SchedulerView, Shared,
};
use crate::scheduler::descriptors::{self, current_descriptor};
use crate::scheduler::switch::{self, block_on_pipe, current_target, wake_pipe_waiters, Target};
use crate::scheduler::transfer;
use crate::syscall::UserContext;

verus! {

// ---------------------------------------------------------------------------
// Pipes
// ---------------------------------------------------------------------------
pub open spec fn at_most(a: int, b: int) -> int {
    if a <= b {
        a
    } else {
        b
    }
}

impl PipeState {
    pub fn new(id: u64) -> (r: Self)
        ensures
            r@ == (PipeView { id, bytes: Seq::empty(), writer_open: true }),
    {
        let bytes: Vec<u8> = Vec::new();
        assert(bytes@ =~= Seq::<u8>::empty());
        PipeState { id, bytes, writer_open: true }
    }

    /// Takes the oldest bytes, `length` at most.
    pub fn read(&mut self, length: usize) -> (r: Vec<u8>)
        ensures
            ({
                let n = at_most(length as int, old(self)@.bytes.len() as int);
                &&& r@ == old(self)@.bytes.take(n)
                &&& final(self)@ == (PipeView { bytes: old(self)@.bytes.skip(n), ..old(self)@ })
            }),
    {
        let n: usize = if length <= self.bytes.len() {
            length
        } else {
            self.bytes.len()
        };
        drain_front(&mut self.bytes, n)
    }

    /// Adds bytes, unless the pipe was closed; returns the pipe's number.
    pub fn write(&mut self, bytes: &[u8]) -> (r: u64)
        ensures
            r == old(self).id,
            final(self)@ == pipe_written(old(self)@, bytes@),
    {
        if self.writer_open {
            push_all(&mut self.bytes, bytes);
        }
        self.id
    }

    /// Ends the writing; returns the pipe's number.
    pub fn close(&mut self) -> (r: u64)
        ensures
            r == old(self).id,
            final(self)@ == (PipeView { writer_open: false, ..old(self)@ }),
    {
        self.writer_open = false;
        self.id
    }
}

pub open spec fn pipe_written(p: PipeView, bytes: Seq<u8>) -> PipeView {
    if p.writer_open {
        PipeView { bytes: p.bytes + bytes, ..p }
    } else {
        p
    }
}

/// What is written to an open pipe comes out of it behind what was there
/// before, in order.
pub proof fn law_pipe_keeps_order(p: PipeView, bytes: Seq<u8>)
    requires
        p.writer_open,
    ensures
        pipe_written(p, bytes).bytes.take(p.bytes.len() as int) == p.bytes,
        pipe_written(p, bytes).bytes.skip(p.bytes.len() as int) == bytes,
{
    assert((p.bytes + bytes).take(p.bytes.len() as int) =~= p.bytes);
    assert((p.bytes + bytes).skip(p.bytes.len() as int) =~= bytes);
}

pub open spec fn with_pipe(s: SchedulerView, k: usize, p: PipeView) -> SchedulerView {
    s.with_objects(ObjectsView { pipes: s.objects.pipes.update(k as int, p), ..s.objects })
}

pub open spec fn woken(s: SchedulerView, id: u64) -> SchedulerView {
    SchedulerView { tasks: switch::pipe_woken(s.tasks, id), ..s }
}

// ---------------------------------------------------------------------------
// Files
// ---------------------------------------------------------------------------
pub open spec fn with_file(s: SchedulerView, k: usize, f: FileView) -> SchedulerView {
    s.with_objects(ObjectsView { files: s.objects.files.update(k as int, f), ..s.objects })
}

/// Where a file is read next after it was moved; `None` if that is before its
/// start or past its end.
pub open spec fn sought(f: FileView, offset: i64, whence: u64) -> Option<int> {
    if whence > 2 {
        None
    } else {
        let base = if whence == 0 {
            0
        } else if whence == 1 {
            f.offset
        } else {
            f.contents.len() as int
        };
        if 0 <= base + offset <= f.contents.len() {
            Some(base + offset)
        } else {
            None
        }
    }
}

fn file_seek(s: &mut Scheduler, k: usize, offset: i64, whence: u64) -> (r: Result<u64, ()>)
    requires
        old(s)@.wf(),
        k < old(s)@.objects.files.len(),
    ensures
        final(s)@.wf(),
        ({
            let f = old(s)@.objects.files[k as int];
            match sought(f, offset, whence) {
                None => r is Err && final(s)@ == old(s)@,
                Some(position) => r == Ok::<u64, ()>(position as u64) && final(s)@ == with_file(
                    old(s)@,
                    k,
                    FileView { offset: position, ..f },
                ),
            }
        }),
{
    let ghost f = s@.objects.files[k as int];
    let file = s.objects.files.get(k);
    assert(file@ == f);
    assert(file.contents@.len() == file.contents.len());
    let length: i128 = file.contents.len() as i128;
    let base: i128 = if whence == 0 {
        0
    } else if whence == 1 {
        file.offset as i128
    } else if whence == 2 {
        length
    } else {
        return Err(());
    };
    let position: i128 = base + offset as i128;
    if position < 0 || position > length {
        return Err(());
    }
    proof {
        let o = with_file(s@, k, FileView { offset: position as int, ..f }).objects;
        assert forall|i: int| 0 <= i < o.files.len() implies 0 <= (#[trigger] o.files[i]).offset
            <= o.files[i].contents.len() by {
            if i != k {
                assert(s@.objects.files[i].offset <= s@.objects.files[i].contents.len());
            }
        }
        descriptors::lemma_objects(s@, o);
    }
    let file = s.objects.files.at_mut(k);
    file.offset = position as usize;
    Ok(position as u64)
}

/// Moves the place at which a file is read and written.
pub fn seek_current(scheduler: &mut Option<Scheduler>, fd: u64, offset: i64, whence: u64) -> (r: Result<
    u64,
    (),
>)
    requires
        scheduler::ready(*old(scheduler)),
    ensures
        scheduler::ready(*final(scheduler)),
        match readable_file(scheduler::seen(*old(scheduler)), fd) {
            None => r is Err && scheduler::seen(*final(scheduler)) == scheduler::seen(*old(scheduler)),
            Some(k) => {
                let s = scheduler::seen(*old(scheduler))->0;
                let f = s.objects.files[k as int];
                match sought(f, offset, whence) {
                    None => r is Err && scheduler::seen(*final(scheduler)) == Some(s),
                    Some(position) => r == Ok::<u64, ()>(position as u64) && scheduler::seen(
                        *final(scheduler),
                    ) == Some(with_file(s, k, FileView { offset: position, ..f })),
                }
            },
        },
{
    let d = match current_descriptor(scheduler, fd) {
        None => {
            return Err(());
        },
        Some(d) => d,
    };
    if !d.rights.contains(Rights::READ()) {
        return Err(());
    }
    match (d.resource, scheduler) {
        (DescriptorResource::File(k), Some(s)) => file_seek(s, k, offset, whence),
        _ => Err(()),
    }
}

/// The file of a descriptor that may be read.
pub open spec fn readable_file(s: Option<SchedulerView>, fd: u64) -> Option<usize> {
    match descriptors::descriptor_in(s, fd) {
        None => None,
        Some(d) => if d.rights.has(Rights(1)) {
            match d.resource {
                DescriptorResource::File(k) => Some(k),
                _ => None,
            }
        } else {
            None
        },
    }
}

// ---------------------------------------------------------------------------
// Reading
// ---------------------------------------------------------------------------
/// What a read gives: bytes, or where they have to be asked for.
pub enum Reading {
    Bytes(Vec<u8>),
    Tty,
    Socket(usize),
}

pub enum ReadingView {
    Bytes(Seq<u8>),
    Tty,
    Socket(usize),
}

impl View for Reading {
    type V = ReadingView;

    open spec fn view(&self) -> ReadingView {
        match self {
            Reading::Bytes(b) => ReadingView::Bytes(b@),
            Reading::Tty => ReadingView::Tty,
            Reading::Socket(k) => ReadingView::Socket(*k),
        }
    }
}

/// Names from the `i`-th on, one on each line, as long as they fit; the first
/// is given out even if it does not. Where this ends.
pub open spec fn names_from(entries: Seq<Seq<u8>>, i: int, bytes: Seq<u8>, limit: int) -> (
    Seq<u8>,
    int,
)
    decreases entries.len() - i,
{
    if i < 0 || i >= entries.len() || bytes.len() >= limit || (bytes.len() + entries[i].len() + 1
        > limit && bytes.len() > 0) {
        (bytes, i)
    } else {
        names_from(entries, i + 1, bytes + entries[i] + seq![10u8], limit)
    }
}

/// What an event counter gives when it is read, and what is left: one, or all.
pub open spec fn event_taken(e: EventFdInstance) -> (u64, EventFdInstance) {
    if e.flags % 2 == 1 {
        (1, EventFdInstance { counter: (e.counter - 1) as u64, ..e })
    } else {
        (e.counter, EventFdInstance { counter: 0, ..e })
    }
}

pub open spec fn with_pty(s: SchedulerView, k: usize, p: PtyView) -> SchedulerView {
    s.with_objects(ObjectsView { ptys: s.objects.ptys.update(k as int, p), ..s.objects })
}

pub open spec fn with_event(s: SchedulerView, k: usize, e: EventFdInstance) -> SchedulerView {
    s.with_objects(ObjectsView { event_fds: s.objects.event_fds.update(k as int, e), ..s.objects })
}

/// What reading from a resource does and gives; `None` where it cannot be read.
pub open spec fn resource_read(s: SchedulerView, resource: DescriptorResource, length: int) -> Option<
    (SchedulerView, ReadingView),
> {
    let o = s.objects;
    match resource {
        DescriptorResource::File(k) => {
            let f = o.files[k as int];
            let end = at_most(f.offset + length, f.contents.len() as int);
            Some(
                (
                    with_file(s, k, FileView { offset: end, ..f }),
                    ReadingView::Bytes(f.contents.subrange(f.offset, end)),
                ),
            )
        },
        DescriptorResource::Directory(k) => {
            let d = o.directories[k as int];
            let (bytes, end) = names_from(d.entries, d.offset, Seq::empty(), length);
            Some((transfer::with_directory(s, k, end), ReadingView::Bytes(bytes)))
        },
        DescriptorResource::Socket(k) => if o.sockets[k as int].connection is Some {
            Some((s, ReadingView::Socket(k)))
        } else {
            None
        },
        DescriptorResource::Tty => Some((s, ReadingView::Tty)),
        DescriptorResource::PipeRead(k) => {
            let p = o.pipes[k as int];
            let n = at_most(length, p.bytes.len() as int);
            Some(
                (
                    with_pipe(s, k, PipeView { bytes: p.bytes.skip(n), ..p }),
                    ReadingView::Bytes(p.bytes.take(n)),
                ),
            )
        },
        DescriptorResource::EventFd(k) => {
            let e = o.event_fds[k as int];
            if e.counter == 0 {
                None
            } else {
                let (value, left) = event_taken(e);
                Some((with_event(s, k, left), ReadingView::Bytes(bytes::le64_bytes(value))))
            }
        },
        DescriptorResource::PtyMaster(k) => {
            let p = o.ptys[k as int];
            let n = at_most(p.slave_to_master.len() as int, length);
            Some(
                (
                    with_pty(s, k, PtyView { slave_to_master: p.slave_to_master.skip(n), ..p }),
                    ReadingView::Bytes(p.slave_to_master.take(n)),
                ),
            )
        },
        DescriptorResource::PtySlave(k) => {
            let p = o.ptys[k as int];
            let n = at_most(p.master_to_slave.len() as int, length);
            Some(
                (
                    with_pty(s, k, PtyView { master_to_slave: p.master_to_slave.skip(n), ..p }),
                    ReadingView::Bytes(p.master_to_slave.take(n)),
                ),
            )
        },
        _ => None,
    }
}

fn file_read(s: &mut Scheduler, k: usize, length: usize) -> (r: Vec<u8>)
    requires
        old(s)@.wf(),
        k < old(s)@.objects.files.len(),
    ensures
        final(s)@.wf(),
        resource_read(old(s)@, DescriptorResource::File(k), length as int) == Some(
            (final(s)@, ReadingView::Bytes(r@)),
        ),
{
    let ghost f = s@.objects.files[k as int];
    let file = s.objects.files.get(k);
    assert(file@ == f);
    assert(file.contents@.len() == file.contents.len());
    let start: usize = file.offset;
    let end: usize = if length <= file.contents.len() - start {
        start + length
    } else {
        file.contents.len()
    };
    let bytes = copy_range(file.contents.as_slice(), start, end);
    proof {
        let o = with_file(s@, k, FileView { offset: end as int, ..f }).objects;
        assert forall|i: int| 0 <= i < o.files.len() implies 0 <= (#[trigger] o.files[i]).offset
            <= o.files[i].contents.len() by {
            if i != k {
                assert(s@.objects.files[i].offset <= s@.objects.files[i].contents.len());
            }
        }
        descriptors::lemma_objects(s@, o);
    }
    let file = s.objects.files.at_mut(k);
    file.offset = end;
    bytes
}

fn directory_read(s: &mut Scheduler, k: usize, length: usize) -> (r: Vec<u8>)
    requires
        old(s)@.wf(),
        k < old(s)@.objects.directories.len(),
    ensures
        final(s)@.wf(),
        resource_read(old(s)@, DescriptorResource::Directory(k), length as int) == Some(
            (final(s)@, ReadingView::Bytes(r@)),
        ),
{
    let ghost d = s@.objects.directories[k as int];
    let mut bytes: Vec<u8> = Vec::new();
    assert(bytes@ =~= Seq::<u8>::empty());
    let directory = s.objects.directories.get(k);
    let mut i: usize = directory.offset;
    let count: usize = directory.entries.len();
    while i < count && bytes.len() < length
        invariant_except_break
            names_from(d.entries, d.offset, Seq::empty(), length as int) == names_from(
                d.entries,
                i as int,
                bytes@,
                length as int,
            ),
        invariant
            d.offset <= i <= count,
            count == d.entries.len(),
            directory@ == d,
        ensures
            names_from(d.entries, d.offset, Seq::empty(), length as int) == (bytes@, i as int),
        decreases count - i,
    {
        let name = directory.entries.get(i);
        assert(name@ == d.entries[i as int]);
        assert(name@.len() == name.len());
        assert(bytes@.len() == bytes.len());
        if bytes.len() as u128 + name.len() as u128 + 1 > length as u128 && bytes.len() > 0 {
            break;
        }
        let ghost before = bytes@;
        push_all(&mut bytes, name.as_slice());
        bytes.push(10);
        assert(bytes@ =~= before + d.entries[i as int] + seq![10u8]);
        i += 1;
    }
    proof {
        descriptors::lemma_objects(s@, transfer::with_directory(s@, k, i as int).objects);
    }
    let directory = s.objects.directories.at_mut(k);
    directory.offset = i;
    bytes
}

fn simple_read(s: &mut Scheduler, resource: DescriptorResource, length: usize) -> (r: Option<Reading>)
    requires
        old(s)@.wf(),
        old(s)@.objects.holds(resource),
        !(resource is File),
        !(resource is Directory),
    ensures
        final(s)@.wf(),
        match resource_read(old(s)@, resource, length as int) {
            None => r is None && final(s)@ == old(s)@,
            Some((s1, v)) => r is Some && r->0@ == v && final(s)@ == s1,
        },
{
    let ghost before = s@;
    match resource {
        DescriptorResource::Socket(k) => {
            if s.objects.sockets.get(k).connection.is_some() {
                Some(Reading::Socket(k))
            } else {
                None
            }
        },
        DescriptorResource::Tty => Some(Reading::Tty),
        DescriptorResource::PipeRead(k) => {
            let bytes = s.objects.pipes.at_mut(k).read(length);
            proof {
                descriptors::lemma_objects(before, s@.objects);
            }
            Some(Reading::Bytes(bytes))
        },
        DescriptorResource::EventFd(k) => {
            let event = *s.objects.event_fds.get(k);
            if event.counter == 0 {
                return None;
            }
            let mut value: u64 = event.counter;
            let mut left: u64 = 0;
            if event.flags % 2 == 1 {
                value = 1;
                left = event.counter - 1;
            }
            let slot = s.objects.event_fds.at_mut(k);
            slot.counter = left;
            let mut bytes: Vec<u8> = Vec::new();
            push_le64(&mut bytes, value);
            assert(bytes@ =~= bytes::le64_bytes(value));
            proof {
                descriptors::lemma_objects(before, s@.objects);
            }
            Some(Reading::Bytes(bytes))
        },
        DescriptorResource::PtyMaster(k) => {
            let pty = s.objects.ptys.at_mut(k);
            let n: usize = if pty.slave_to_master.len() <= length {
                pty.slave_to_master.len()
            } else {
                length
            };
            let bytes = drain_front(&mut pty.slave_to_master, n);
            proof {
                descriptors::lemma_objects(before, s@.objects);
            }
            Some(Reading::Bytes(bytes))
        },
        DescriptorResource::PtySlave(k) => {
            let pty = s.objects.ptys.at_mut(k);
            let n: usize = if pty.master_to_slave.len() <= length {
                pty.master_to_slave.len()
            } else {
                length
            };
            let bytes = drain_front(&mut pty.master_to_slave, n);
            proof {
                descriptors::lemma_objects(before, s@.objects);
            }
            Some(Reading::Bytes(bytes))
        },
        _ => None,
    }
}

/// What reading from a descriptor does and gives.
pub open spec fn descriptor_read(s: Option<SchedulerView>, fd: u64, length: int) -> Option<
    (SchedulerView, ReadingView),
> {
    match descriptors::descriptor_in(s, fd) {
        None => None,
        Some(d) => if d.rights.has(Rights(1)) {
            resource_read(s->0, d.resource, length)
        } else {
            None
        },
    }
}

/// Reads from a descriptor. The terminal and sockets are asked outside.
pub fn read_current(scheduler: &mut Option<Scheduler>, fd: u64, length: usize) -> (r: Result<
    Reading,
    (),
>)
    requires
        scheduler::ready(*old(scheduler)),
    ensures
        scheduler::ready(*final(scheduler)),
        match descriptor_read(scheduler::seen(*old(scheduler)), fd, length as int) {
            None => r is Err && scheduler::seen(*final(scheduler)) == scheduler::seen(*old(scheduler)),
            Some((s1, v)) => r is Ok && r->Ok_0@ == v && scheduler::seen(*final(scheduler)) == Some(s1),
        },
{
    let d = match current_descriptor(scheduler, fd) {
        None => {
            return Err(());
        },
        Some(d) => d,
    };
    if !d.rights.contains(Rights::READ()) {
        return Err(());
    }
    match scheduler {
        None => Err(()),
        Some(s) => match d.resource {
            DescriptorResource::File(k) => Ok(Reading::Bytes(file_read(s, k, length))),
            DescriptorResource::Directory(k) => Ok(Reading::Bytes(directory_read(s, k, length))),
            other => match simple_read(s, other, length) {
                Some(reading) => Ok(reading),
                None => Err(()),
            },
        },
    }
}

/// The first message from another process, from the `i`-th on.
pub open spec fn first_message(queue: Seq<MessageView>, pid: u64, i: int) -> Option<int>
    decreases queue.len() - i,
{
    if i < 0 || i >= queue.len() {
        None
    } else if queue[i].sender_pid != pid {
        Some(i)
    } else {
        first_message(queue, pid, i + 1)
    }
}

fn find_message(s: &Scheduler, k: usize, pid: u64) -> (r: Option<usize>)
    requires
        k < s@.objects.channels.len(),
    ensures
        ({
            let queue = s@.objects.channels[k as int].queue;
            match r {
                Some(i) => first_message(queue, pid, 0) == Some(i as int) && i < queue.len(),
                None => first_message(queue, pid, 0) is None,
            }
        }),
{
    let channel = s.objects.channels.get(k);
    let mut i: usize = 0;
    let count: usize = channel.queue.len();
    while i < count
        invariant
            i <= count,
            count == channel@.queue.len(),
            channel@ == s@.objects.channels[k as int],
            first_message(channel@.queue, pid, 0) == first_message(channel@.queue, pid, i as int),
        decreases count - i,
    {
        let message = channel.queue.get(i);
        assert(message@ == channel@.queue[i as int]);
        if message.sender_pid != pid {
            return Some(i);
        }
        i += 1;
    }
    None
}

/// Whether a read of nothing means that more may come.
pub open spec fn would_block(s: Option<SchedulerView>, fd: u64) -> bool {
    match descriptors::descriptor_in(s, fd) {
        None => false,
        Some(d) => match d.resource {
            DescriptorResource::PipeRead(k) => {
                let p = s->0.objects.pipes[k as int];
                p.bytes.len() == 0 && p.writer_open
            },
            DescriptorResource::Ipc { channel, .. } => {
                let c = s->0.objects.channels[channel as int];
                !c.revoked && first_message(c.queue, s->0.task().tgid, 0) is None
            },
            _ => false,
        },
    }
}

pub fn read_would_block(scheduler: &Option<Scheduler>, fd: u64) -> (r: bool)
    requires
        scheduler::ready(*scheduler),
    ensures
        r == would_block(scheduler::seen(*scheduler), fd),
{
    let d = match current_descriptor(scheduler, fd) {
        None => {
            return false;
        },
        Some(d) => d,
    };
    match scheduler {
        None => false,
        Some(s) => match d.resource {
            DescriptorResource::PipeRead(k) => {
                let pipe = s.objects.pipes.get(k);
                assert(pipe@ == s@.objects.pipes[k as int]);
                pipe.bytes.len() == 0 && pipe.writer_open
            },
            DescriptorResource::Ipc { channel, .. } => {
                let pid: u64 = s.tasks[s.current].tgid;
                let c = s.objects.channels.get(channel);
                assert(c@ == s@.objects.channels[channel as int]);
                !c.revoked && find_message(s, channel, pid).is_none()
            },
            _ => false,
        },
    }
}

/// What a read of a descriptor can wait for: the number of its pipe or channel.
pub open spec fn wait_key(s: Option<SchedulerView>, fd: u64) -> Option<u64> {
    match descriptors::descriptor_in(s, fd) {
        None => None,
        Some(d) => match d.resource {
            DescriptorResource::PipeRead(k) => Some(s->0.objects.pipes[k as int].id),
            DescriptorResource::Ipc { channel, .. } => Some(
                s->0.objects.channels[channel as int].id,
            ),
            _ => None,
        },
    }
}

pub fn pipe_wait_key(scheduler: &Option<Scheduler>, fd: u64) -> (r: Option<u64>)
    requires
        scheduler::ready(*scheduler),
    ensures
        r == wait_key(scheduler::seen(*scheduler), fd),
{
    let d = match current_descriptor(scheduler, fd) {
        None => {
            return None;
        },
        Some(d) => d,
    };
    match scheduler {
        None => None,
        Some(s) => match d.resource {
            DescriptorResource::PipeRead(k) => Some(s.objects.pipes.get(k).id),
            DescriptorResource::Ipc { channel, .. } => Some(s.objects.channels.get(channel).id),
            _ => None,
        },
    }
}

/// The running task waits until it can read from a descriptor. One that
/// cannot be waited for goes on at once.
pub fn block_pipe_current(scheduler: &mut Option<Scheduler>, fd: u64, context: UserContext) -> (r: Target)
    requires
        scheduler::ready(*old(scheduler)),
        *old(scheduler) is Some,
        scheduler::seen(*old(scheduler))->0.task().process is Some,
    ensures
        scheduler::ready(*final(scheduler)),
        ({
            let s = scheduler::seen(*old(scheduler))->0;
            match wait_key(Some(s), fd) {
                None => scheduler::seen(*final(scheduler)) == Some(s) && r == (Target {
                    context,
                    ..switch::target(s, s.current)
                }),
                Some(id) => {
                    let s1 = switch::pipe_blocked(s, id, context);
                    scheduler::seen(*final(scheduler)) == Some(s1) && r == switch::target(s1, s1.current)
                },
            }
        }),
{
    let key = pipe_wait_key(scheduler, fd);
    match scheduler {
        None => Target {
            context,
            space: crate::paging::AddressSpace { pml4_phys: 0 },
            fs_base: 0,
        },
        Some(s) => match key {
            None => {
                let t = current_target(s);
                Target { context, space: t.space, fs_base: t.fs_base }
            },
            Some(id) => block_on_pipe(s, id, context),
        },
    }
}

// ---------------------------------------------------------------------------
// Writing
// ---------------------------------------------------------------------------
/// What is left to do after a write: nothing, or to hand the bytes to a device
/// or a connection, or to store the contents of a file.
pub enum Writing {
    Done,
    Device,
    Socket(usize),
    Store { path: Vec<u8>, contents: Vec<u8> },
}

pub enum WritingView {
    Done,
    Device,
    Socket(usize),
    Store { path: Seq<u8>, contents: Seq<u8> },
}

impl View for Writing {
    type V = WritingView;

    open spec fn view(&self) -> WritingView {
        match self {
            Writing::Done => WritingView::Done,
            Writing::Device => WritingView::Device,
            Writing::Socket(k) => WritingView::Socket(*k),
            Writing::Store { path, contents } => WritingView::Store {
                path: path@,
                contents: contents@,
            },
        }
    }
}

/// A file with bytes written where it is; it grows if they go past its end.
pub open spec fn file_written(f: FileView, bytes: Seq<u8>) -> FileView {
    let end = f.offset + bytes.len();
    let longer = if end > f.contents.len() {
        f.contents + bytes::zeros((end - f.contents.len()) as nat)
    } else {
        f.contents
    };
    FileView { contents: bytes::splice(longer, f.offset, bytes), offset: end, ..f }
}

/// What is read from a file where bytes were written to it are those bytes.
pub proof fn law_file_write_then_read(f: FileView, bytes: Seq<u8>)
    requires
        0 <= f.offset <= f.contents.len(),
    ensures
        ({
            let g = file_written(f, bytes);
            &&& g.contents.subrange(f.offset, g.offset) == bytes
            &&& g.contents.take(f.offset) == f.contents.take(f.offset)
            &&& g.offset <= g.contents.len()
        }),
{
    let g = file_written(f, bytes);
    assert(g.contents.subrange(f.offset, g.offset) =~= bytes);
    assert(g.contents.take(f.offset) =~= f.contents.take(f.offset));
}

pub open spec fn sum_at_most(a: u64, b: u64) -> u64 {
    if a + b > u64::MAX {
        u64::MAX
    } else {
        (a + b) as u64
    }
}

/// What writing to a resource does, and what is left to do; `None` where it
/// cannot be written.
pub open spec fn resource_written(s: SchedulerView, resource: DescriptorResource, bytes: Seq<u8>) -> Option<
    (SchedulerView, WritingView),
> {
    let o = s.objects;
    match resource {
        DescriptorResource::Socket(k) => if o.sockets[k as int].connection is Some {
            Some((s, WritingView::Socket(k)))
        } else {
            None
        },
        DescriptorResource::PipeWrite(k) => {
            let p = o.pipes[k as int];
            Some((woken(with_pipe(s, k, pipe_written(p, bytes)), p.id), WritingView::Done))
        },
        DescriptorResource::Serial => Some((s, WritingView::Device)),
        DescriptorResource::Tty => Some((s, WritingView::Device)),
        DescriptorResource::File(k) => {
            let f = o.files[k as int];
            if !f.writable || f.offset + bytes.len() > usize::MAX {
                None
            } else {
                let g = file_written(f, bytes);
                Some(
                    (
                        with_file(s, k, g),
                        WritingView::Store { path: g.path, contents: g.contents },
                    ),
                )
            }
        },
        DescriptorResource::EventFd(k) => {
            let e = o.event_fds[k as int];
            if bytes.len() < 8 {
                None
            } else {
                let counter = sum_at_most(e.counter, bytes::le64_at(bytes, 0) as u64);
                Some((with_event(s, k, EventFdInstance { counter, ..e }), WritingView::Done))
            }
        },
        DescriptorResource::PtyMaster(k) => {
            let p = o.ptys[k as int];
            Some(
                (
                    with_pty(s, k, PtyView { master_to_slave: p.master_to_slave + bytes, ..p }),
                    WritingView::Done,
                ),
            )
        },
        DescriptorResource::PtySlave(k) => {
            let p = o.ptys[k as int];
            Some(
                (
                    with_pty(s, k, PtyView { slave_to_master: p.slave_to_master + bytes, ..p }),
                    WritingView::Done,
                ),
            )
        },
        _ => None,
    }
}

fn write_file(s: &mut Scheduler, k: usize, bytes: &[u8]) -> (r: Option<Writing>)
    requires
        old(s)@.wf(),
        k < old(s)@.objects.files.len(),
    ensures
        final(s)@.wf(),
        match resource_written(old(s)@, DescriptorResource::File(k), bytes@) {
            None => r is None && final(s)@ == old(s)@,
            Some((s1, v)) => r is Some && r->0@ == v && final(s)@ == s1,
        },
{
    let ghost f = s@.objects.files[k as int];
    let ghost before = s@;
    let file = s.objects.files.get(k);
    assert(file@ == f);
    assert(file.contents@.len() == file.contents.len());
    assert(bytes@.len() == bytes.len());
    if !file.writable || bytes.len() > usize::MAX - file.offset {
        return None;
    }
    let start: usize = file.offset;
    let end: usize = start + bytes.len();
    let missing: usize = if end > file.contents.len() {
        end - file.contents.len()
    } else {
        0
    };
    proof {
        let o = with_file(s@, k, file_written(f, bytes@)).objects;
        law_file_write_then_read(f, bytes@);
        assert forall|i: int| 0 <= i < o.files.len() implies 0 <= (#[trigger] o.files[i]).offset
            <= o.files[i].contents.len() by {
            if i != k {
                assert(s@.objects.files[i].offset <= s@.objects.files[i].contents.len());
            }
        }
        descriptors::lemma_objects(s@, o);
    }
    let file = s.objects.files.at_mut(k);
    crate::bytes::push_zeros(&mut file.contents, missing);
    assert(f.contents + bytes::zeros(0) =~= f.contents);
    put_vec(&mut file.contents, start, bytes);
    file.offset = end;
    let file = s.objects.files.get(k);
    let path = copy_range(file.path.as_slice(), 0, file.path.len());
    let contents = copy_range(file.contents.as_slice(), 0, file.contents.len());
    assert(file@ == file_written(f, bytes@));
    assert(path@ =~= file.path@);
    assert(contents@ =~= file.contents@);
    Some(Writing::Store { path, contents })
}

fn simple_write(s: &mut Scheduler, resource: DescriptorResource, bytes: &[u8]) -> (r: Option<Writing>)
    requires
        old(s)@.wf(),
        old(s)@.objects.holds(resource),
        !(resource is File),
    ensures
        final(s)@.wf(),
        match resource_written(old(s)@, resource, bytes@) {
            None => r is None && final(s)@ == old(s)@,
            Some((s1, v)) => r is Some && r->0@ == v && final(s)@ == s1,
        },
{
    let ghost before = s@;
    match resource {
        DescriptorResource::Socket(k) => {
            if s.objects.sockets.get(k).connection.is_some() {
                Some(Writing::Socket(k))
            } else {
                None
            }
        },
        DescriptorResource::PipeWrite(k) => {
            let id: u64 = s.objects.pipes.at_mut(k).write(bytes);
            proof {
                descriptors::lemma_objects(before, s@.objects);
            }
            wake_pipe_waiters(s, id);
            Some(Writing::Done)
        },
        DescriptorResource::Serial => Some(Writing::Device),
        DescriptorResource::Tty => Some(Writing::Device),
        DescriptorResource::EventFd(k) => {
            if bytes.len() < 8 {
                return None;
            }
            let value: u64 = get_le64(bytes, 0);
            let event = s.objects.event_fds.at_mut(k);
            event.counter = event.counter.saturating_add(value);
            proof {
                descriptors::lemma_objects(before, s@.objects);
            }
            Some(Writing::Done)
        },
        DescriptorResource::PtyMaster(k) => {
            let pty = s.objects.ptys.at_mut(k);
            push_all(&mut pty.master_to_slave, bytes);
            proof {
                descriptors::lemma_objects(before, s@.objects);
            }
            Some(Writing::Done)
        },
        DescriptorResource::PtySlave(k) => {
            let pty = s.objects.ptys.at_mut(k);
            push_all(&mut pty.slave_to_master, bytes);
            proof {
                descriptors::lemma_objects(before, s@.objects);
            }
            Some(Writing::Done)
        },
        _ => None,
    }
}

/// What writing to a descriptor does, and what is left to do.
pub open spec fn descriptor_written(s: Option<SchedulerView>, fd: u64, bytes: Seq<u8>) -> Option<
    (SchedulerView, WritingView),
> {
    match descriptors::descriptor_in(s, fd) {
        None => None,
        Some(d) => if d.rights.has(Rights(2)) {
            resource_written(s->0, d.resource, bytes)
        } else {
            None
        },
    }
}

/// Writes to a descriptor.
pub fn write_current(scheduler: &mut Option<Scheduler>, fd: u64, bytes: &[u8]) -> (r: Result<
    Writing,
    (),
>)
    requires
        scheduler::ready(*old(scheduler)),
    ensures
        scheduler::ready(*final(scheduler)),
        match descriptor_written(scheduler::seen(*old(scheduler)), fd, bytes@) {
            None => r is Err && scheduler::seen(*final(scheduler)) == scheduler::seen(*old(scheduler)),
            Some((s1, v)) => r is Ok && r->Ok_0@ == v && scheduler::seen(*final(scheduler)) == Some(s1),
        },
{
    let d = match current_descriptor(scheduler, fd) {
        None => {
            return Err(());
        },
        Some(d) => d,
    };
    if !d.rights.contains(Rights::WRITE()) {
        return Err(());
    }
    match scheduler {
        None => Err(()),
        Some(s) => {
            let done = match d.resource {
                DescriptorResource::File(k) => write_file(s, k, bytes),
                other => simple_write(s, other, bytes),
            };
            match done {
                Some(w) => Ok(w),
                None => Err(()),
            }
        },
    }
}

// ---------------------------------------------------------------------------
// Closing
// ---------------------------------------------------------------------------
/// Whether a descriptor of a task stands for a resource.
pub open spec fn in_use(s: SchedulerView, resource: DescriptorResource) -> bool {
    exists|i: int, j: int|
        0 <= i < s.tasks.len() && 0 <= j < s.tables[s.tasks[i].descriptors as int].len() && (
        #[trigger] s.tables[(#[trigger] s.tasks[i]).descriptors as int][j]) is Some
            && s.tables[s.tasks[i].descriptors as int][j]->0.resource == resource
}

fn table_uses(table: &Vec<Option<FileDescriptor>>, resource: DescriptorResource) -> (r: bool)
    ensures
        r == (exists|j: int|
            0 <= j < table@.len() && (#[trigger] table@[j]) is Some && table@[j]->0.resource
                == resource),
{
    let mut j: usize = 0;
    while j < table.len()
        invariant
            j <= table.len(),
            forall|x: int|
                0 <= x < j ==> !((#[trigger] table@[x]) is Some && table@[x]->0.resource
                    == resource),
        decreases table.len() - j,
    {
        if let Some(d) = table[j] {
            if d.resource == resource {
                assert(table@[j as int] is Some);
                return true;
            }
        }
        j += 1;
    }
    false
}

fn is_in_use(s: &Scheduler, resource: DescriptorResource) -> (r: bool)
    requires
        s@.wf(),
    ensures
        r == in_use(s@, resource),
{
    let mut i: usize = 0;
    while i < s.tasks.len()
        invariant
            i <= s.tasks.len(),
            s@.wf(),
            forall|x: int, j: int|
                0 <= x < i && 0 <= j < s@.tables[s@.tasks[x].descriptors as int].len() ==> !((
                #[trigger] s@.tables[(#[trigger] s@.tasks[x]).descriptors as int][j]) is Some
                    && s@.tables[s@.tasks[x].descriptors as int][j]->0.resource == resource),
        decreases s.tasks.len() - i,
    {
        assert(scheduler::task_ok(s@.tasks[i as int], s@));
        let table = s.tables.get(s.tasks[i].descriptors);
        assert(table@ == s@.tables[s@.tasks[i as int].descriptors as int]);
        if table_uses(table, resource) {
            proof {
                let j = choose|j: int|
                    0 <= j < table@.len() && (#[trigger] table@[j]) is Some
                        && table@[j]->0.resource == resource;
                assert(s@.tables[s@.tasks[i as int].descriptors as int][j] is Some);
            }
            return true;
        }
        i += 1;
    }
    false
}

/// What closing a descriptor does, and the connection that ends with it, if it
/// was the last. A pipe whose last writer is closed has no writer left.
pub open spec fn closed(s: SchedulerView, fd: u64) -> Option<(SchedulerView, Option<TcpConnection>)> {
    match descriptors::descriptor_at(s, fd) {
        None => None,
        Some(d) => {
            let s1 = s.with_table(s.table().update(fd as int, None));
            match d.resource {
                DescriptorResource::Socket(k) => if in_use(s1, d.resource) {
                    Some((s1, None))
                } else {
                    Some(
                        (
                            s1.with_objects(
                                ObjectsView {
                                    sockets: s1.objects.sockets.update(
                                        k as int,
                                        OpenSocket { connection: None },
                                    ),
                                    ..s1.objects
                                },
                            ),
                            s.objects.sockets[k as int].connection,
                        ),
                    )
                },
                DescriptorResource::PipeWrite(k) => if in_use(s1, d.resource) {
                    Some((s1, None))
                } else {
                    let p = s.objects.pipes[k as int];
                    Some(
                        (
                            woken(with_pipe(s1, k, PipeView { writer_open: false, ..p }), p.id),
                            None,
                        ),
                    )
                },
                _ => Some((s1, None)),
            }
        },
    }
}

/// A pipe is open for writing as long as a descriptor for that is.
pub proof fn law_pipe_open_until_last_writer(s: SchedulerView, fd: u64, k: usize)
    requires
        descriptors::descriptor_at(s, fd) matches Some(d) && d.resource == DescriptorResource::PipeWrite(k),
        k < s.objects.pipes.len(),
        s.objects.pipes[k as int].writer_open,
    ensures
        ({
            let s1 = s.with_table(s.table().update(fd as int, None));
            let (after, _) = closed(s, fd)->0;
            after.objects.pipes[k as int].writer_open == in_use(
                s1,
                DescriptorResource::PipeWrite(k),
            )
        }),
{
}

/// What one descriptor of a pipe is given, another gives back: behind what
/// was there before, in order, none of it lost or given twice.
pub proof fn law_pipe_through_descriptors(
    s: SchedulerView,
    writer: u64,
    reader: u64,
    k: usize,
    bytes: Seq<u8>,
    length: int,
)
    requires
        s.wf(),
        descriptors::descriptor_at(s, writer) matches Some(d) && d.rights.has(Rights(2))
            && d.resource == DescriptorResource::PipeWrite(k),
        descriptors::descriptor_at(s, reader) matches Some(d) && d.rights.has(Rights(1))
            && d.resource == DescriptorResource::PipeRead(k),
        s.objects.pipes[k as int].writer_open,
        length >= 0,
    ensures
        ({
            let all = s.objects.pipes[k as int].bytes + bytes;
            let n = at_most(length, all.len() as int);
            &&& descriptor_written(Some(s), writer, bytes) matches Some((s1, done))
            &&& done == WritingView::Done
            &&& descriptor_read(Some(s1), reader, length) matches Some((s2, got))
            &&& got == ReadingView::Bytes(all.take(n))
            &&& s2.objects.pipes[k as int].bytes == all.skip(n)
        }),
{
    descriptors::lemma_table(s);
    let p = s.objects.pipes[k as int];
    let s1 = woken(with_pipe(s, k, pipe_written(p, bytes)), p.id);
    assert(s1.task().descriptors == s.task().descriptors);
    assert(descriptors::descriptor_at(s1, reader) == descriptors::descriptor_at(s, reader));
}

/// Once its last writer has closed it, a pipe gives what is left in it; with
/// nothing left it gives no bytes, and no reader waits for more.
pub proof fn law_closed_pipe_ends(s: SchedulerView, reader: u64, k: usize, length: int)
    requires
        s.wf(),
        descriptors::descriptor_at(s, reader) matches Some(d) && d.rights.has(Rights(1))
            && d.resource == DescriptorResource::PipeRead(k),
        !s.objects.pipes[k as int].writer_open,
        length >= 0,
    ensures
        !would_block(Some(s), reader),
        ({
            let left = s.objects.pipes[k as int].bytes;
            let n = at_most(length, left.len() as int);
            &&& descriptor_read(Some(s), reader, length) matches Some((s1, got))
            &&& got == ReadingView::Bytes(left.take(n))
            &&& s1.objects.pipes[k as int].bytes == left.skip(n)
            &&& !s1.objects.pipes[k as int].writer_open
            &&& left.len() == 0 ==> got == ReadingView::Bytes(Seq::empty())
        }),
{
    descriptors::lemma_table(s);
    let left = s.objects.pipes[k as int].bytes;
    if left.len() == 0 {
        assert(left.take(0) =~= Seq::<u8>::empty());
    }
}

proof fn lemma_slot(table: Seq<Option<FileDescriptor>>, i: int)
    requires
        0 <= i <= table.len(),
    ensures
        descriptors::slot_from(table, i) matches Some(j) ==> i <= j <= table.len() && (j < table.len()
            ==> table[j] is None) && (j == table.len() ==> j != 256),
    decreases table.len() - i,
{
    if i < table.len() && table[i] is Some {
        lemma_slot(table, i + 1);
    }
}

/// What a new pipe and its two ends are.
proof fn lemma_pipe_opened(s: SchedulerView, shared: Shared, reader: u64, writer: u64)
    requires
        s.wf(),
        s.objects.pipes.len() <= usize::MAX,
        descriptors::pipe_opened(s, shared).1 == Ok::<(u64, u64), ()>((reader, writer)),
    ensures
        ({
            let s1 = descriptors::pipe_opened(s, shared).0;
            let k = s.objects.pipes.len() as usize;
            &&& s1.wf()
            &&& reader != writer
            &&& s1.objects.pipes.len() == s.objects.pipes.len() + 1
            &&& s1.objects.pipes[k as int].bytes == Seq::<u8>::empty()
            &&& s1.objects.pipes[k as int].writer_open
            &&& descriptors::descriptor_at(s1, reader) matches Some(d) && d.rights.has(Rights(1))
                && d.resource == DescriptorResource::PipeRead(k)
            &&& descriptors::descriptor_at(s1, writer) matches Some(d) && d.rights.has(Rights(2))
                && d.resource == DescriptorResource::PipeWrite(k)
            &&& !in_use(
                s1.with_table(s1.table().update(writer as int, None)),
                DescriptorResource::PipeWrite(k),
            )
        }),
{
    let o = s.objects;
    let k = o.pipes.len() as usize;
    let pipe = PipeView { id: shared.next_pipe_id, bytes: Seq::empty(), writer_open: true };
    let objects = ObjectsView { pipes: o.pipes.push(pipe), ..o };
    let slot1 = shared.next_capability_slot;
    let first = FileDescriptor {
        capability: scheduler::capability(slot1),
        rights: Rights(1u32 | 8u32),
        resource: DescriptorResource::PipeRead(k),
    };
    let second = FileDescriptor {
        capability: scheduler::capability(scheduler::after(slot1)),
        rights: Rights(2u32 | 8u32),
        resource: DescriptorResource::PipeWrite(k),
    };
    assert((1u32 | 8u32) & 1u32 == 1u32 && (2u32 | 8u32) & 2u32 == 2u32) by (bit_vector);
    descriptors::lemma_table(s);
    descriptors::lemma_objects(s, objects);
    let t0 = s.table();
    lemma_slot(t0, 0);
    let i = descriptors::slot(t0)->0;
    let t1 = descriptors::installed(t0, i, first);
    let with = s.with_objects(objects);
    assert(scheduler::table_ok(t1, objects)) by {
        assert forall|j: int| 0 <= j < t1.len() && (#[trigger] t1[j]) is Some implies objects.holds(
            t1[j]->0.resource,
        ) by {
            if j != i {
                assert(t0[j] is Some);
            }
        }
    }
    descriptors::lemma_with_table(with, t1);
    let a = with.with_table(t1);
    assert(a.table() == t1);
    assert(a.with_objects(objects) == a);
    lemma_slot(t1, 0);
    let j = descriptors::slot(t1)->0;
    let t2 = descriptors::installed(t1, j, second);
    assert(scheduler::table_ok(t2, objects)) by {
        assert forall|x: int| 0 <= x < t2.len() && (#[trigger] t2[x]) is Some implies objects.holds(
            t2[x]->0.resource,
        ) by {
            if x != j {
                assert(t1[x] is Some);
            }
        }
    }
    descriptors::lemma_with_table(a, t2);
    let s1 = a.with_table(t2);
    assert(s1 == descriptors::pipe_opened(s, shared).0);
    assert(i != j && reader == i && writer == j);
    let t3 = t2.update(j, None);
    let bare = s1.with_table(t3);
    let resource = DescriptorResource::PipeWrite(k);
    let home = s.task().descriptors as int;
    assert forall|x: int, y: int|
        0 <= x < bare.tasks.len() && 0 <= y < bare.tables[bare.tasks[x].descriptors as int].len() && (
        #[trigger] bare.tables[(#[trigger] bare.tasks[x]).descriptors as int][y]) is Some implies bare.tables[bare.tasks[x].descriptors as int][y]->0.resource
        != resource by {
        let n = bare.tasks[x].descriptors as int;
        assert(scheduler::task_ok(s.tasks[x], s));
        assert(scheduler::table_ok(s.tables[n], o));
        if n == home {
            assert(bare.tables[n] == t3);
            if y != i && y != j {
                assert(t0[y] is Some && t0[y] == t3[y]);
                assert(o.holds(t0[y]->0.resource));
            }
        } else {
            assert(bare.tables[n] == s.tables[n]);
            assert(s.tables[n][y] is Some);
            assert(o.holds(s.tables[n][y]->0.resource));
        }
    }
}

/// What is written to a new pipe is read in order, in as many parts as one
/// likes; once its writer is closed, a read gives what is left, and the next
/// one no bytes: that is the end, and no reader waits for more.
pub proof fn law_pipe_from_open_to_end(
    s: SchedulerView,
    shared: Shared,
    reader: u64,
    writer: u64,
    bytes: Seq<u8>,
    first: int,
    second: int,
    third: int,
)
    requires
        s.wf(),
        s.objects.pipes.len() <= usize::MAX,
        descriptors::pipe_opened(s, shared).1 == Ok::<(u64, u64), ()>((reader, writer)),
        0 <= first <= bytes.len(),
        bytes.len() - first <= second,
        0 <= third,
    ensures
        ({
            let s1 = descriptors::pipe_opened(s, shared).0;
            &&& descriptor_written(Some(s1), writer, bytes) matches Some((s2, done))
            &&& done == WritingView::Done
            &&& descriptor_read(Some(s2), reader, first) matches Some((s3, got))
            &&& got == ReadingView::Bytes(bytes.take(first))
            &&& closed(s3, writer) matches Some((s4, connection))
            &&& connection is None
            &&& descriptor_read(Some(s4), reader, second) matches Some((s5, rest))
            &&& rest == ReadingView::Bytes(bytes.skip(first))
            &&& descriptor_read(Some(s5), reader, third) matches Some((s6, end))
            &&& end == ReadingView::Bytes(Seq::empty())
            &&& !would_block(Some(s5), reader)
        }),
{
    lemma_pipe_opened(s, shared, reader, writer);
    let k = s.objects.pipes.len() as usize;
    let resource = DescriptorResource::PipeWrite(k);
    let s1 = descriptors::pipe_opened(s, shared).0;
    descriptors::lemma_table(s1);
    let p1 = s1.objects.pipes[k as int];
    assert(p1.bytes + bytes =~= bytes);
    let s2 = woken(with_pipe(s1, k, pipe_written(p1, bytes)), p1.id);
    assert(s2.task().descriptors == s1.task().descriptors);
    assert(s2.table() == s1.table());
    let p2 = s2.objects.pipes[k as int];
    let s3 = with_pipe(s2, k, PipeView { bytes: p2.bytes.skip(first), ..p2 });
    let p3 = s3.objects.pipes[k as int];
    assert(s3.table() == s1.table());
    let table = s1.table().update(writer as int, None);
    let bare = s1.with_table(table);
    let gone = s3.with_table(table);
    assert(!in_use(gone, resource)) by {
        assert forall|x: int, y: int|
            0 <= x < gone.tasks.len() && 0 <= y < gone.tables[gone.tasks[x].descriptors as int].len()
                && (#[trigger] gone.tables[(#[trigger] gone.tasks[x]).descriptors as int][y]) is Some implies gone.tables[gone.tasks[x].descriptors as int][y]->0.resource
            != resource by {
            assert(gone.tasks[x].descriptors == bare.tasks[x].descriptors);
            assert(bare.tables[bare.tasks[x].descriptors as int][y] is Some);
        }
    }
    let s4 = woken(with_pipe(gone, k, PipeView { writer_open: false, ..p3 }), p3.id);
    assert(s4.task().descriptors == s1.task().descriptors);
    assert(s4.table() == table);
    assert(closed(s3, writer) == Some((s4, None::<TcpConnection>)));
    let left = bytes.skip(first);
    let n = at_most(second, left.len() as int);
    assert(left.take(n) =~= left && left.skip(n) =~= Seq::<u8>::empty());
    let s5 = with_pipe(
        s4,
        k,
        PipeView { bytes: left.skip(n), ..s4.objects.pipes[k as int] },
    );
    assert(descriptor_read(Some(s4), reader, second) == Some((s5, ReadingView::Bytes(left))));
    let none = Seq::<u8>::empty();
    assert(none.take(0) =~= none);
}

fn take_descriptor(s: &mut Scheduler, i: usize)
    requires
        old(s)@.wf(),
        i < old(s)@.table().len(),
    ensures
        final(s)@.wf(),
        final(s)@ == old(s)@.with_table(old(s)@.table().update(i as int, None)),
{
    proof {
        descriptors::lemma_table(s@);
        descriptors::lemma_with_table(s@, s@.table().update(i as int, None));
    }
    let place: usize = s.tasks[s.current].descriptors;
    let table = s.tables.at_mut(place);
    table[i] = None;
}

fn close_resource(s: &mut Scheduler, fd: u64, resource: DescriptorResource) -> (r: Option<TcpConnection>)
    requires
        old(s)@.wf(),
        descriptors::descriptor_at(old(s)@, fd) matches Some(d) && d.resource == resource,
        old(s)@.objects.holds(resource),
    ensures
        final(s)@.wf(),
        closed(old(s)@, fd) == Some((final(s)@, r)),
{
    take_descriptor(s, fd as usize);
    let ghost before = s@;
    match resource {
        DescriptorResource::Socket(k) => {
            if is_in_use(s, resource) {
                None
            } else {
                let connection = s.objects.sockets.get(k).connection;
                let socket = s.objects.sockets.at_mut(k);
                socket.connection = None;
                proof {
                    descriptors::lemma_objects(before, s@.objects);
                }
                connection
            }
        },
        DescriptorResource::PipeWrite(k) => {
            if !is_in_use(s, resource) {
                let id: u64 = s.objects.pipes.at_mut(k).close();
                proof {
                    descriptors::lemma_objects(before, s@.objects);
                }
                wake_pipe_waiters(s, id);
            }
            None
        },
        _ => None,
    }
}

/// Closes a descriptor; returns the connection that ends with it.
pub fn close_current(scheduler: &mut Option<Scheduler>, fd: u64) -> (r: Result<
    Option<TcpConnection>,
    (),
>)
    requires
        scheduler::ready(*old(scheduler)),
    ensures
        scheduler::ready(*final(scheduler)),
        match scheduler::seen(*old(scheduler)) {
            None => r is Err && *final(scheduler) is None,
            Some(s) => match closed(s, fd) {
                None => r is Err && scheduler::seen(*final(scheduler)) == Some(s),
                Some((s1, connection)) => r == Ok::<Option<TcpConnection>, ()>(connection) && scheduler::seen(
                    *final(scheduler),
                ) == Some(s1),
            },
        },
{
    let d = match current_descriptor(scheduler, fd) {
        None => {
            return Err(());
        },
        Some(d) => d,
    };
    match scheduler {
        None => Err(()),
        Some(s) => Ok(close_resource(s, fd, d.resource)),
    }
}

} // verus!
