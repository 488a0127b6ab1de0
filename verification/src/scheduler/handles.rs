//! What holds of descriptors, and of what they stand for, over several calls.
use vstd::prelude::*;

use crate::abi::Rights;
use crate::bytes;
use crate::scheduler::{
    self, DescriptorResource, EpollItem, FileDescriptor, FileView, MessageView, ObjectsView,
    SchedulerView,
};
use crate::scheduler::channels;
use crate::scheduler::descriptors;
use crate::scheduler::io::{self, ReadingView};
use crate::scheduler::transfer;

verus! {

// ---------------------------------------------------------------------------
// Numbers
// ---------------------------------------------------------------------------
proof fn lemma_slot(table: Seq<Option<FileDescriptor>>, i: int)
    requires
        0 <= i <= table.len() <= 256,
    ensures
        match descriptors::slot_from(table, i) {
            Some(k) => i <= k <= table.len() && k < 256 && (k < table.len() ==> table[k] is None)
                && forall|j: int| i <= j < k ==> #[trigger] table[j] is Some,
            None => table.len() == 256 && forall|j: int| i <= j < 256 ==> #[trigger] table[j] is Some,
        },
    decreases table.len() - i,
{
    if i < table.len() {
        lemma_slot(table, i + 1);
    }
}

/// What is opened gets the lowest number that is free; all other numbers stand
/// for what they did. Nothing can be opened only when all 256 are taken.
pub proof fn law_opened_at_lowest(s: SchedulerView, objects: ObjectsView, d: FileDescriptor)
    requires
        s.wf(),
    ensures
        match descriptors::opened(s, objects, d) {
            Some((after, fd)) => {
                &&& descriptors::descriptor_at(s, fd) is None
                &&& forall|lower: u64|
                    lower < fd ==> #[trigger] descriptors::descriptor_at(s, lower) is Some
                &&& descriptors::descriptor_at(after, fd) == Some(d)
                &&& forall|other: u64|
                    other != fd ==> #[trigger] descriptors::descriptor_at(after, other)
                        == descriptors::descriptor_at(s, other)
                &&& after.objects == objects
                &&& after.tasks == s.tasks
                &&& fd < 256
            },
            None => forall|fd: u64|
                fd < 256 ==> #[trigger] descriptors::descriptor_at(s, fd) is Some,
        },
{
    descriptors::lemma_table(s);
    lemma_slot(s.table(), 0);
}

/// A descriptor under a given number is the same there, whatever stood there
/// before; all other numbers stand for what they did.
pub proof fn law_duplicate_to_same(s: SchedulerView, from: u64, to: u64)
    requires
        s.wf(),
        to < 256,
        descriptors::descriptor_at(s, from) is Some,
    ensures
        ({
            &&& transfer::duplicated_to(s, from, to) matches Some(after)
            &&& descriptors::descriptor_at(after, to) == descriptors::descriptor_at(s, from)
            &&& forall|other: u64|
                other != to ==> #[trigger] descriptors::descriptor_at(after, other)
                    == descriptors::descriptor_at(s, other)
            &&& after.objects == s.objects
            &&& after.tasks == s.tasks
        }),
{
    descriptors::lemma_table(s);
    let after = transfer::duplicated_to(s, from, to)->0;
    if from != to {
        assert(after.table() == transfer::extended(s.table(), to + 1).update(
            to as int,
            descriptors::descriptor_at(s, from),
        ));
    }
}

/// A number that is closed stands for nothing; all others stand for what they
/// did. What is in files, pipes and counters stays.
pub proof fn law_closed_is_gone(s: SchedulerView, fd: u64)
    requires
        s.wf(),
    ensures
        match io::closed(s, fd) {
            Some((after, _)) => {
                &&& descriptors::descriptor_at(s, fd) is Some
                &&& descriptors::descriptor_at(after, fd) is None
                &&& forall|other: u64|
                    other != fd ==> #[trigger] descriptors::descriptor_at(after, other)
                        == descriptors::descriptor_at(s, other)
                &&& after.objects.files == s.objects.files
                &&& after.objects.event_fds == s.objects.event_fds
                &&& after.objects.channels == s.objects.channels
                &&& after.objects.pipes.len() == s.objects.pipes.len()
                &&& forall|k: int|
                    0 <= k < s.objects.pipes.len() ==> (#[trigger] after.objects.pipes[k]).bytes
                        == s.objects.pipes[k].bytes
                &&& io::closed(after, fd) is None
            },
            None => descriptors::descriptor_at(s, fd) is None,
        },
{
    descriptors::lemma_table(s);
    if let Some((after, _)) = io::closed(s, fd) {
        assert(after.tasks[after.current].descriptors == s.tasks[s.current].descriptors);
        assert(after.table() == s.table().update(fd as int, None));
    }
}

// ---------------------------------------------------------------------------
// Files
// ---------------------------------------------------------------------------
/// Whether a descriptor is of a file and may read it.
pub open spec fn reads(s: SchedulerView, fd: u64, f: usize) -> bool {
    &&& io::readable_file(Some(s), fd) == Some(f)
    &&& f < s.objects.files.len()
}

/// What is read from a file are its bytes from where it is on, as many as were
/// asked for or are left; the next read goes on behind them.
pub proof fn law_reads_follow_on(s: SchedulerView, fd: u64, f: usize, first: nat, second: nat)
    requires
        s.wf(),
        reads(s, fd, f),
    ensures
        ({
            let file = s.objects.files[f as int];
            let all = io::at_most(file.offset + first + second, file.contents.len() as int);
            &&& io::descriptor_read(Some(s), fd, first as int) matches Some(
                (after, ReadingView::Bytes(a)),
            )
            &&& io::descriptor_read(Some(after), fd, second as int) matches Some(
                (end, ReadingView::Bytes(b)),
            )
            &&& a + b == file.contents.subrange(file.offset, all)
            &&& a.len() == io::at_most(first as int, file.contents.len() - file.offset)
            &&& end.objects.files[f as int].offset == all
            &&& end.objects.files[f as int].contents == file.contents
            &&& end.table() == s.table()
        }),
{
    let file = s.objects.files[f as int];
    assert(0 <= file.offset <= file.contents.len());
    let (after, a) = io::descriptor_read(Some(s), fd, first as int)->0;
    let (end, b) = io::descriptor_read(Some(after), fd, second as int)->0;
    let all = io::at_most(file.offset + first + second, file.contents.len() as int);
    assert(a->Bytes_0 + b->Bytes_0 =~= file.contents.subrange(file.offset, all));
}

/// A file is moved to where was asked: from its start, from where it is, or
/// from its end. A place before its start or past its end is refused.
pub proof fn law_seek_moves(f: FileView, offset: i64)
    requires
        0 <= f.offset <= f.contents.len(),
    ensures
        forall|whence: u64|
            whence <= 2 ==> match #[trigger] io::sought(f, offset, whence) {
                Some(p) => 0 <= p <= f.contents.len() && p - offset == (if whence == 0 {
                    0
                } else if whence == 1 {
                    f.offset
                } else {
                    f.contents.len() as int
                }),
                None => whence == 0 ==> offset < 0 || offset > f.contents.len(),
            },
        forall|whence: u64| whence > 2 ==> #[trigger] io::sought(f, offset, whence) is None,
        0 <= offset <= f.contents.len() ==> io::sought(f, offset, 0) == Some(offset as int),
        io::sought(f, 0, 1) == Some(f.offset),
        io::sought(f, 0, 2) == Some(f.contents.len() as int),
{
}

/// What is written to a file is read when it is moved back to where that was;
/// what was before and behind it stays.
pub proof fn law_written_then_read(s: SchedulerView, fd: u64, f: usize, bytes: Seq<u8>)
    requires
        s.wf(),
        reads(s, fd, f),
        s.objects.files[f as int].writable,
        descriptors::descriptor_at(s, fd) matches Some(d) && d.rights.has(Rights(2)),
        s.objects.files[f as int].offset + bytes.len() <= usize::MAX,
        s.objects.files[f as int].offset <= i64::MAX,
    ensures
        ({
            let file = s.objects.files[f as int];
            &&& io::descriptor_written(Some(s), fd, bytes) matches Some((after, _))
            &&& ({
                let g = after.objects.files[f as int];
                let back = io::with_file(after, f, FileView { offset: file.offset, ..g });
                &&& g.offset == file.offset + bytes.len()
                &&& io::sought(g, file.offset as i64, 0) == Some(file.offset)
                &&& io::descriptor_read(Some(back), fd, bytes.len() as int) matches Some(
                    (_, ReadingView::Bytes(again)),
                )
                &&& again == bytes
                &&& g.contents.take(file.offset) == file.contents.take(file.offset)
                &&& g.contents.skip(g.offset) == file.contents.skip(
                    io::at_most(g.offset, file.contents.len() as int),
                )
                &&& g.path == file.path
            })
        }),
{
    let file = s.objects.files[f as int];
    assert(0 <= file.offset <= file.contents.len());
    io::law_file_write_then_read(file, bytes);
    let after = (io::descriptor_written(Some(s), fd, bytes)->0).0;
    let g = after.objects.files[f as int];
    assert(g == io::file_written(file, bytes));
    let back = io::with_file(after, f, FileView { offset: file.offset, ..g });
    assert(back.objects.files[f as int].contents == g.contents);
    assert(g.contents.skip(g.offset) =~= file.contents.skip(
        io::at_most(g.offset, file.contents.len() as int),
    ));
}

/// A file that is opened is read from its start, or to append from its end; it
/// holds what it was given. It may be read, and written only if that was asked.
pub proof fn law_fresh_file(path: Seq<u8>, contents: Seq<u8>, writable: bool, append: bool)
    ensures
        ({
            let f = descriptors::fresh_file(path, contents, writable, append);
            let rights = descriptors::file_rights(writable);
            &&& f.path == path
            &&& f.contents == contents
            &&& f.offset == (if append {
                contents.len()
            } else {
                0
            })
            &&& f.writable == writable
            &&& rights.has(Rights(1))
            &&& rights.has(Rights(8))
            &&& rights.has(Rights(2)) <==> writable
        }),
{
    assert(((1u32 | 8u32) | 2u32) & 1 == 1 && ((1u32 | 8u32) | 2u32) & 8 == 8 && ((1u32 | 8u32)
        | 2u32) & 2 == 2 && (1u32 | 8u32) & 1 == 1 && (1u32 | 8u32) & 8 == 8 && (1u32 | 8u32) & 2
        == 0) by (bit_vector);
}

// ---------------------------------------------------------------------------
// Counters, terminals
// ---------------------------------------------------------------------------
/// Whether two descriptors are of one counter, the first to read it and the
/// second to write it.
pub open spec fn counts(s: SchedulerView, reader: u64, writer: u64, k: usize) -> bool {
    &&& descriptors::descriptor_at(s, reader) matches Some(r)
    &&& descriptors::descriptor_at(s, writer) matches Some(w)
    &&& r.resource == DescriptorResource::EventFd(k)
    &&& w.resource == DescriptorResource::EventFd(k)
    &&& r.rights.has(Rights(1))
    &&& w.rights.has(Rights(2))
    &&& k < s.objects.event_fds.len()
}

/// A number that is written to a counter is added to it. A read gives all of it
/// and leaves nothing, or gives one and leaves the rest. A counter that is at
/// zero gives nothing.
pub proof fn law_event_counts(s: SchedulerView, reader: u64, writer: u64, k: usize, value: u64)
    requires
        s.wf(),
        counts(s, reader, writer, k),
        s.objects.event_fds[k as int].counter + value <= u64::MAX,
    ensures
        ({
            let e = s.objects.event_fds[k as int];
            let sum = (e.counter + value) as u64;
            &&& io::descriptor_written(Some(s), writer, bytes::le64_bytes(value)) matches Some(
                (after, _),
            )
            &&& after.objects.event_fds[k as int].counter == sum
            &&& if sum == 0 {
                io::descriptor_read(Some(after), reader, 8) is None
            } else {
                &&& io::descriptor_read(Some(after), reader, 8) matches Some(
                    (end, ReadingView::Bytes(given)),
                )
                &&& given.len() == 8
                &&& bytes::le64_at(given, 0) == (if e.flags % 2 == 1 {
                    1
                } else {
                    sum as int
                })
                &&& end.objects.event_fds[k as int].counter == sum - bytes::le64_at(given, 0)
            }
        }),
{
    let none = Seq::<u8>::empty();
    bytes::le_round_trip(none, none, 0, 0, value);
    assert(none + bytes::le64_bytes(value) + none =~= bytes::le64_bytes(value));
    let e = s.objects.event_fds[k as int];
    let sum = (e.counter + value) as u64;
    bytes::le_round_trip(none, none, 0, 0, sum);
    assert(none + bytes::le64_bytes(sum) + none =~= bytes::le64_bytes(sum));
    bytes::le_round_trip(none, none, 0, 0, 1);
    assert(none + bytes::le64_bytes(1) + none =~= bytes::le64_bytes(1));
}

/// Whether two descriptors are the two ends of one terminal, and both may be
/// read and written.
pub open spec fn joined(s: SchedulerView, master: u64, slave: u64, k: usize) -> bool {
    &&& descriptors::descriptor_at(s, master) matches Some(a)
    &&& descriptors::descriptor_at(s, slave) matches Some(b)
    &&& a.resource == DescriptorResource::PtyMaster(k)
    &&& b.resource == DescriptorResource::PtySlave(k)
    &&& a.rights.has(Rights(1)) && a.rights.has(Rights(2))
    &&& b.rights.has(Rights(1)) && b.rights.has(Rights(2))
    &&& k < s.objects.ptys.len()
}

/// What is written at one end of a terminal is read at the other, behind what
/// was written there before, and not at the same end.
pub proof fn law_terminal_crosses(s: SchedulerView, master: u64, slave: u64, k: usize, bytes: Seq<u8>)
    requires
        s.wf(),
        joined(s, master, slave, k),
    ensures
        ({
            let p = s.objects.ptys[k as int];
            let there = p.master_to_slave + bytes;
            let back = p.slave_to_master + bytes;
            &&& io::descriptor_written(Some(s), master, bytes) matches Some((a, _))
            &&& io::descriptor_read(Some(a), slave, there.len() as int) matches Some(
                (a1, ReadingView::Bytes(x)),
            )
            &&& x == there
            &&& a1.objects.ptys[k as int].master_to_slave.len() == 0
            &&& a1.objects.ptys[k as int].slave_to_master == p.slave_to_master
            &&& io::descriptor_written(Some(s), slave, bytes) matches Some((b, _))
            &&& io::descriptor_read(Some(b), master, back.len() as int) matches Some(
                (b1, ReadingView::Bytes(y)),
            )
            &&& y == back
            &&& b1.objects.ptys[k as int].slave_to_master.len() == 0
            &&& b1.objects.ptys[k as int].master_to_slave == p.master_to_slave
        }),
{
    let p = s.objects.ptys[k as int];
    let there = p.master_to_slave + bytes;
    let back = p.slave_to_master + bytes;
    assert(there.take(there.len() as int) =~= there);
    assert(back.take(back.len() as int) =~= back);
}

// ---------------------------------------------------------------------------
// Messages
// ---------------------------------------------------------------------------
/// Whether a descriptor of the running program is an end of a channel that it
/// may use.
pub open spec fn is_end(s: SchedulerView, fd: u64, channel: usize, send: bool) -> bool {
    &&& descriptors::descriptor_at(s, fd) matches Some(d)
    &&& d.resource == DescriptorResource::Ipc { channel, send }
    &&& d.rights.has(
        Rights(
            if send {
                2
            } else {
                1
            },
        ),
    )
    &&& channel < s.objects.channels.len()
}

/// A message that was sent is what another process receives, if none was there
/// before; it is there no longer. The sender does not receive it.
pub proof fn law_message_received(
    s: SchedulerView,
    sender: u64,
    channel: usize,
    bytes: Seq<u8>,
    later: SchedulerView,
    receiver: u64,
)
    requires
        s.wf(),
        later.wf(),
        is_end(s, sender, channel, true),
        s.objects.channels[channel as int].queue.len() == 0,
        !s.objects.channels[channel as int].revoked,
        bytes.len() <= 256,
        is_end(later, receiver, channel, false),
        channels::sent(Some(s), sender, bytes) matches Some(after) && later.objects
            == after.objects,
    ensures
        channels::received(Some(later), receiver) matches Some((end, message)) && if later.task().tgid
            != s.task().tgid {
            message == Some(bytes) && end.objects.channels[channel as int].queue.len() == 0
        } else {
            message is None && end == later
        },
{
    let after = channels::sent(Some(s), sender, bytes)->0;
    let queue = later.objects.channels[channel as int].queue;
    assert(queue == Seq::<MessageView>::empty().push(
        MessageView { sender_pid: s.task().tgid, bytes },
    ));
    reveal_with_fuel(io::first_message, 2);
}

/// Sending succeeds exactly if the end is for sending, the message is no longer
/// than can be sent and there is room in a channel that is not revoked; a
/// receiver that waits can go on.
pub proof fn law_sent_if_room(s: SchedulerView, sender: u64, channel: usize, bytes: Seq<u8>, waiter: int)
    requires
        s.wf(),
        is_end(s, sender, channel, true),
        0 <= waiter < s.tasks.len(),
        s.tasks[waiter].state == (scheduler::TaskState::PipeWaiting {
            pipe_id: s.objects.channels[channel as int].id,
        }),
    ensures
        ({
            let c = s.objects.channels[channel as int];
            match channels::sent(Some(s), sender, bytes) {
                Some(after) => {
                    &&& !c.revoked
                    &&& bytes.len() <= 256
                    &&& after.objects.channels[channel as int].queue.drop_last() == c.queue
                    &&& after.objects.channels[channel as int].queue.last().bytes == bytes
                    &&& after.objects.channels[channel as int].queue.last().sender_pid
                        == s.task().tgid
                    &&& after.tasks[waiter].state is Runnable
                },
                None => {
                    ||| c.revoked
                    ||| bytes.len() > 256
                    ||| c.queue.len() >= 8
                },
            }
        }),
{
    let c = s.objects.channels[channel as int];
    if let Some(after) = channels::sent(Some(s), sender, bytes) {
        assert(after.objects.channels[channel as int].queue.drop_last() =~= c.queue);
    }
}

// ---------------------------------------------------------------------------
// Waiting for several
// ---------------------------------------------------------------------------
proof fn lemma_item_of(items: Seq<EpollItem>, fd: u64, i: int)
    requires
        0 <= i,
    ensures
        match channels::item_of(items, fd, i) {
            Some(k) => i <= k < items.len() && items[k].fd == fd,
            None => forall|j: int| i <= j < items.len() ==> (#[trigger] items[j]).fd != fd,
        },
    decreases items.len() - i,
{
    if i < items.len() {
        lemma_item_of(items, fd, i + 1);
    }
}

/// Whether no descriptor is waited for twice.
pub open spec fn once_each(items: Seq<EpollItem>) -> bool {
    forall|i: int, j: int|
        0 <= i < j < items.len() ==> (#[trigger] items[i]).fd != (#[trigger] items[j]).fd
}

/// Whether a descriptor is waited for, with these events and this mark.
pub open spec fn has_item(items: Seq<EpollItem>, fd: u64, events: u32, data: u64) -> bool {
    items.contains(EpollItem { fd, events, data })
}

/// A descriptor that is added is waited for, with what was asked; one that is
/// changed, with the new; one that is removed, no longer. None is waited for
/// twice: adding one that is there, or changing or removing one that is not, is
/// refused. All others stay.
pub proof fn law_waited_for(items: Seq<EpollItem>, op: u32, fd: u64, events: u32, data: u64)
    requires
        once_each(items),
    ensures
        ({
            let present = exists|i: int| 0 <= i < items.len() && (#[trigger] items[i]).fd == fd;
            match channels::controlled(items, op, fd, events, data) {
                Some(after) => {
                    &&& 1 <= op <= 3
                    &&& op == 1 <==> !present
                    &&& once_each(after)
                    &&& op != 2 ==> has_item(after, fd, events, data)
                    &&& op == 2 ==> forall|j: int|
                        0 <= j < after.len() ==> (#[trigger] after[j]).fd != fd
                    &&& forall|item: EpollItem|
                        item.fd != fd ==> (#[trigger] after.contains(item) <==> items.contains(item))
                },
                None => op == 0 || op > 3 || (op == 1 && present) || (op != 1 && !present),
            }
        }),
{
    lemma_item_of(items, fd, 0);
    if let Some(after) = channels::controlled(items, op, fd, events, data) {
        let new = EpollItem { fd, events, data };
        match channels::item_of(items, fd, 0) {
            None => {
                assert(after[items.len() as int] == new);
                assert forall|item: EpollItem| item.fd != fd implies (#[trigger] after.contains(item)
                    <==> items.contains(item)) by {
                    if items.contains(item) {
                        let j = items.index_of(item);
                        assert(after[j] == item);
                    }
                    if after.contains(item) {
                        let j = after.index_of(item);
                        assert(items[j] == item);
                    }
                }
            },
            Some(p) => {
                if op == 3 {
                    assert(after[p] == new);
                    assert forall|item: EpollItem| item.fd != fd implies (#[trigger] after.contains(
                        item,
                    ) <==> items.contains(item)) by {
                        if items.contains(item) {
                            let j = items.index_of(item);
                            assert(after[j] == item);
                        }
                        if after.contains(item) {
                            let j = after.index_of(item);
                            assert(items[j] == item);
                        }
                    }
                } else {
                    assert forall|j: int| 0 <= j < after.len() implies (#[trigger] after[j]).fd
                        != fd by {
                        if j < p {
                            assert(after[j] == items[j]);
                        } else {
                            assert(after[j] == items[j + 1]);
                        }
                    }
                    assert forall|item: EpollItem| item.fd != fd implies (#[trigger] after.contains(
                        item,
                    ) <==> items.contains(item)) by {
                        if items.contains(item) {
                            let j = items.index_of(item);
                            if j < p {
                                assert(after[j] == item);
                            } else {
                                assert(after[j - 1] == item);
                            }
                        }
                        if after.contains(item) {
                            let j = after.index_of(item);
                            if j < p {
                                assert(items[j] == item);
                            } else {
                                assert(items[j + 1] == item);
                            }
                        }
                    }
                    assert forall|i: int, j: int| 0 <= i < j < after.len() implies (
                    #[trigger] after[i]).fd != (#[trigger] after[j]).fd by {
                        let a = if i < p {
                            i
                        } else {
                            i + 1
                        };
                        let b = if j < p {
                            j
                        } else {
                            j + 1
                        };
                        assert(after[i] == items[a] && after[j] == items[b]);
                    }
                }
            },
        }
    }
}

/// What is told of the descriptors that are waited for: only such for which an
/// event has come that was asked for, each with its mark; no more than there is
/// room for; and none is left out while there is.
pub proof fn law_ready_told(s: SchedulerView, items: Seq<EpollItem>, from: int, limit: int)
    requires
        0 <= from,
        0 <= limit,
    ensures
        ({
            let told = channels::ready_items(s, items, from, limit);
            &&& told.len() <= limit
            &&& forall|n: int|
                0 <= n < told.len() ==> exists|i: int|
                    from <= i < items.len() && (#[trigger] told[n]) == (
                        channels::events_of(s, #[trigger] items[i]),
                        items[i].data,
                    ) && told[n].0 != 0
            &&& told.len() < limit ==> forall|i: int|
                from <= i < items.len() && channels::events_of(s, #[trigger] items[i]) != 0
                    ==> told.contains((channels::events_of(s, items[i]), items[i].data))
        }),
    decreases items.len() - from,
{
    if from < items.len() && limit > 0 {
        let events = channels::events_of(s, items[from]);
        let told = channels::ready_items(s, items, from, limit);
        if events != 0 {
            law_ready_told(s, items, from + 1, limit - 1);
            let rest = channels::ready_items(s, items, from + 1, limit - 1);
            assert(told[0] == (events, items[from].data));
            assert forall|n: int| 0 <= n < told.len() implies exists|i: int|
                from <= i < items.len() && (#[trigger] told[n]) == (
                    channels::events_of(s, #[trigger] items[i]),
                    items[i].data,
                ) && told[n].0 != 0 by {
                if n > 0 {
                    assert(told[n] == rest[n - 1]);
                    let i = choose|i: int|
                        from + 1 <= i < items.len() && rest[n - 1] == (
                            channels::events_of(s, #[trigger] items[i]),
                            items[i].data,
                        ) && rest[n - 1].0 != 0;
                    assert(told[n] == (channels::events_of(s, items[i]), items[i].data));
                }
            }
            if told.len() < limit {
                assert forall|i: int|
                    from <= i < items.len() && channels::events_of(s, #[trigger] items[i])
                        != 0 implies told.contains(
                    (channels::events_of(s, items[i]), items[i].data),
                ) by {
                    if i > from {
                        let pair = (channels::events_of(s, items[i]), items[i].data);
                        assert(rest.contains(pair));
                        let n = rest.index_of(pair);
                        assert(told[n + 1] == pair);
                    }
                }
            }
        } else {
            law_ready_told(s, items, from + 1, limit);
        }
    }
}

/// A pipe can be read when something is in it, and has ended when no writer is
/// left; a counter can be read when it is above zero. Events are bits: one for
/// reading, four for writing, sixteen for the end.
pub proof fn law_ready_means_readable(o: ObjectsView, k: usize)
    ensures
        channels::ready_events(o, DescriptorResource::PipeRead(k)) % 2 == 1 <==> o.pipes[k as int].bytes.len()
            > 0,
        channels::ready_events(o, DescriptorResource::PipeRead(k)) / 16 % 2 == 1
            <==> !o.pipes[k as int].writer_open,
        channels::ready_events(o, DescriptorResource::EventFd(k)) % 2 == 1
            <==> o.event_fds[k as int].counter > 0,
        channels::ready_events(o, DescriptorResource::EventFd(k)) / 4 % 2 == 1,
        channels::ready_events(o, DescriptorResource::PipeWrite(k)) / 4 % 2 == 1
            <==> o.pipes[k as int].bytes.len() < 4096,
        channels::ready_events(o, DescriptorResource::Socket(k)) % 2 == 1
            <==> o.sockets[k as int].connection is Some,
        channels::ready_events(o, DescriptorResource::File(k)) == 5,
        channels::ready_events(o, DescriptorResource::Tty) == 5,
{
}

// ---------------------------------------------------------------------------
// Directories
// ---------------------------------------------------------------------------
/// Names, one on each line.
pub open spec fn lines_of(entries: Seq<Seq<u8>>, from: int, to: int) -> Seq<u8>
    decreases to - from,
{
    if from >= to {
        Seq::empty()
    } else {
        lines_of(entries, from, to - 1) + entries[to - 1] + seq![10u8]
    }
}

proof fn lemma_names(entries: Seq<Seq<u8>>, start: int, i: int, bytes: Seq<u8>, limit: int)
    requires
        0 <= start <= i <= entries.len(),
        bytes == lines_of(entries, start, i),
    ensures
        ({
            let (read, end) = io::names_from(entries, i, bytes, limit);
            i <= end <= entries.len() && read == lines_of(entries, start, end)
        }),
    decreases entries.len() - i,
{
    if i < entries.len() {
        let more = bytes + entries[i] + seq![10u8];
        assert(more == lines_of(entries, start, i + 1));
        lemma_names(entries, start, i + 1, more, limit);
    }
}

/// What is read from a directory are its names in order, one on each line, none
/// twice and none left out: the next read goes on with the next name. Some name
/// is read as long as one is left.
pub proof fn law_names_in_order(entries: Seq<Seq<u8>>, from: int, limit: int)
    requires
        0 <= from <= entries.len(),
        limit > 0,
    ensures
        ({
            let (read, end) = io::names_from(entries, from, Seq::empty(), limit);
            &&& from <= end <= entries.len()
            &&& read == lines_of(entries, from, end)
            &&& from < entries.len() ==> end > from
        }),
{
    lemma_names(entries, from, from, Seq::empty(), limit);
    if from < entries.len() {
        let one = Seq::<u8>::empty() + entries[from] + seq![10u8];
        assert(one == lines_of(entries, from, from + 1)) by {
            reveal_with_fuel(lines_of, 2);
        }
        lemma_names(entries, from, from + 1, one, limit);
    }
}

// ---------------------------------------------------------------------------
// Keys
// ---------------------------------------------------------------------------
/// What keys give does not depend on how many are asked for at once: those that
/// one read leaves are given by the next.
pub proof fn law_keys_in_pieces(held: bool, scancodes: Seq<u8>, first: nat, second: nat)
    ensures
        ({
            let (h1, a, n1) = channels::keys_typed(held, scancodes, first as int);
            let (h2, b, n2) = channels::keys_typed(h1, scancodes.skip(n1), second as int);
            let (h, all, n) = channels::keys_typed(held, scancodes, (first + second) as int);
            &&& 0 <= n1 <= scancodes.len()
            &&& a.len() <= first
            &&& second > 0 ==> a + b == all && h2 == h && n1 + n2 == n
        }),
    decreases scancodes.len(),
{
    let (h1, a, n1) = channels::keys_typed(held, scancodes, first as int);
    if scancodes.len() == 0 || first == 0 {
        assert(scancodes.skip(0) =~= scancodes);
        assert(a =~= Seq::<u8>::empty());
        let b = channels::keys_typed(h1, scancodes.skip(n1), second as int).1;
        assert(a + b =~= b);
    } else {
        let (held1, byte) = channels::key_pressed(held, scancodes[0]);
        let rest = scancodes.skip(1);
        match byte {
            None => {
                law_keys_in_pieces(held1, rest, first, second);
                let m1 = channels::keys_typed(held1, rest, first as int).2;
                assert(rest.skip(m1) =~= scancodes.skip(m1 + 1));
            },
            Some(c) => {
                law_keys_in_pieces(held1, rest, (first - 1) as nat, second);
                let (g1, a1, m1) = channels::keys_typed(held1, rest, first - 1);
                assert(rest.skip(m1) =~= scancodes.skip(m1 + 1));
                let b = channels::keys_typed(g1, rest.skip(m1), second as int).1;
                assert(seq![c] + (a1 + b) =~= (seq![c] + a1) + b);
            },
        }
    }
}

/// A key that is let go gives nothing. Control is held from when it is pressed
/// until it is let go; with it, the key of `c` gives the byte that interrupts.
pub proof fn law_control_held(held: bool, scancode: u8)
    ensures
        ({
            let (after, byte) = channels::key_pressed(held, scancode);
            &&& scancode >= 0x80 ==> byte is None
            &&& scancode == 0x1d ==> after
            &&& scancode == 0x9d ==> !after
            &&& scancode != 0x1d && scancode != 0x9d ==> after == held
            &&& held && scancode == 0x2e ==> byte == Some(3u8)
            &&& !held && scancode == 0x2e ==> byte == Some(99u8)
            &&& byte == Some(3u8) ==> held && scancode == 0x2e
        }),
{
}

/// No two keys give the same byte.
pub proof fn law_keys_differ(a: u8, b: u8)
    requires
        channels::key_byte(a) is Some,
        channels::key_byte(a) == channels::key_byte(b),
    ensures
        a == b,
{
}

} // verus!
