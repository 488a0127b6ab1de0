//! Descriptors: opening, sharing and closing what programs read and write.
use vstd::prelude::*;

use crate::abi::Rights;
use crate::scheduler::{
    self, ChannelView, DescriptorResource, DirectoryView, EpollInstance, EventFdInstance,
    FileDescriptor, FileView, IpcState, MAX_DESCRIPTORS, ObjectsView, OpenDirectory, OpenFile,
    OpenSocket, PipeState, PipeView, Scheduler, SchedulerView, Shared,
};
use crate::store::Store;

verus! {

// ---------------------------------------------------------------------------
// The table of descriptors
// ---------------------------------------------------------------------------
/// The first free number from `i` on; a new one at the end, if there is room.
pub open spec fn slot_from(table: Seq<Option<FileDescriptor>>, i: int) -> Option<int>
    decreases table.len() - i,
{
    if i < 0 || i >= table.len() {
        if table.len() == MAX_DESCRIPTORS {
            None
        } else {
            Some(table.len() as int)
        }
    } else if table[i] is None {
        Some(i)
    } else {
        slot_from(table, i + 1)
    }
}

pub open spec fn slot(table: Seq<Option<FileDescriptor>>) -> Option<int> {
    slot_from(table, 0)
}

pub open spec fn installed(table: Seq<Option<FileDescriptor>>, i: int, d: FileDescriptor) -> Seq<
    Option<FileDescriptor>,
> {
    if i < table.len() {
        table.update(i, Some(d))
    } else {
        table.push(Some(d))
    }
}

/// The descriptor of a number, if it is open.
pub open spec fn descriptor_at(s: SchedulerView, fd: u64) -> Option<FileDescriptor> {
    if fd < s.table().len() {
        s.table()[fd as int]
    } else {
        None
    }
}

/// The descriptor of a number on a processor.
pub open spec fn descriptor_in(s: Option<SchedulerView>, fd: u64) -> Option<FileDescriptor> {
    match s {
        Some(x) => descriptor_at(x, fd),
        None => None,
    }
}

pub proof fn lemma_table(s: SchedulerView)
    requires
        s.wf(),
    ensures
        s.task().descriptors < s.tables.len(),
        scheduler::table_ok(s.table(), s.objects),
{
    assert(scheduler::task_ok(s.tasks[s.current], s));
    assert(scheduler::table_ok(s.tables[s.task().descriptors as int], s.objects));
}

/// More objects do not put a scheduler out of order.
pub proof fn lemma_objects(s: SchedulerView, objects: ObjectsView)
    requires
        s.wf(),
        objects.keeps(s.objects),
        objects.sound(),
    ensures
        s.with_objects(objects).wf(),
{
    let t = s.with_objects(objects);
    assert forall|i: int| 0 <= i < t.tasks.len() implies scheduler::task_ok(#[trigger] t.tasks[i], t) by {
        assert(scheduler::task_ok(s.tasks[i], s));
    }
    assert forall|i: int| 0 <= i < t.tables.len() implies scheduler::table_ok(
        #[trigger] t.tables[i],
        t.objects,
    ) by {
        assert(scheduler::table_ok(s.tables[i], s.objects));
    }
}

pub proof fn lemma_with_table(s: SchedulerView, table: Seq<Option<FileDescriptor>>)
    requires
        s.wf(),
        scheduler::table_ok(table, s.objects),
    ensures
        s.with_table(table).wf(),
{
    lemma_table(s);
    let t = s.with_table(table);
    assert forall|i: int| 0 <= i < t.tasks.len() implies scheduler::task_ok(#[trigger] t.tasks[i], t) by {
        assert(scheduler::task_ok(s.tasks[i], s));
    }
    assert forall|i: int| 0 <= i < t.tables.len() implies scheduler::table_ok(
        #[trigger] t.tables[i],
        t.objects,
    ) by {
        assert(scheduler::table_ok(s.tables[i], s.objects));
    }
}

pub(crate) fn find_slot(s: &Scheduler) -> (r: Option<usize>)
    requires
        s@.wf(),
    ensures
        match r {
            Some(i) => slot(s@.table()) == Some(i as int) && i <= s@.table().len() && i < 256,
            None => slot(s@.table()) is None,
        },
{
    proof {
        lemma_table(s@);
    }
    let table = s.tables.get(s.tasks[s.current].descriptors);
    let mut i: usize = 0;
    while i < table.len()
        invariant
            i <= table.len(),
            table@.len() <= 256,
            table@ == s@.table(),
            slot(table@) == slot_from(table@, i as int),
        decreases table.len() - i,
    {
        if table[i].is_none() {
            return Some(i);
        }
        i += 1;
    }
    if i == MAX_DESCRIPTORS {
        None
    } else {
        Some(i)
    }
}

pub(crate) fn put_descriptor(s: &mut Scheduler, i: usize, d: FileDescriptor)
    requires
        old(s)@.wf(),
        i <= old(s)@.table().len(),
        i < 256,
        old(s)@.objects.holds(d.resource),
    ensures
        final(s)@.wf(),
        final(s)@ == old(s)@.with_table(installed(old(s)@.table(), i as int, d)),
{
    let ghost before = s@;
    proof {
        lemma_table(s@);
        lemma_with_table(s@, installed(s@.table(), i as int, d));
    }
    let place: usize = s.tasks[s.current].descriptors;
    let table = s.tables.at_mut(place);
    if i < table.len() {
        table[i] = Some(d);
    } else {
        table.push(Some(d));
    }
}

/// The descriptor of a number, if it is open.
pub(crate) fn current_descriptor(scheduler: &Option<Scheduler>, fd: u64) -> (r: Option<
    FileDescriptor,
>)
    requires
        scheduler::ready(*scheduler),
    ensures
        r == descriptor_in(scheduler::seen(*scheduler), fd),
        r matches Some(d) ==> scheduler::seen(*scheduler)->0.objects.holds(d.resource),
{
    match scheduler {
        None => None,
        Some(s) => {
            proof {
                lemma_table(s@);
            }
            let table = s.tables.get(s.tasks[s.current].descriptors);
            if fd < table.len() as u64 {
                table[fd as usize]
            } else {
                None
            }
        },
    }
}

// ---------------------------------------------------------------------------
// Opening
// ---------------------------------------------------------------------------
/// One more descriptor, for an object that may be new; its number.
pub open spec fn opened(s: SchedulerView, objects: ObjectsView, d: FileDescriptor) -> Option<
    (SchedulerView, u64),
> {
    match slot(s.table()) {
        None => None,
        Some(i) => Some(
            (s.with_objects(objects).with_table(installed(s.table(), i, d)), i as u64),
        ),
    }
}

/// What opening does to a processor and the counters: `object` is the state of
/// the objects with the new one.
pub open spec fn opens(
    before: Option<SchedulerView>,
    after_it: Option<SchedulerView>,
    objects: ObjectsView,
    d: FileDescriptor,
    r: Result<u64, ()>,
) -> bool {
    match before {
        None => r is Err && after_it is None,
        Some(s) => match opened(s, objects, d) {
            None => r is Err && after_it == Some(s),
            Some((s1, fd)) => r == Ok::<u64, ()>(fd) && after_it == Some(s1),
        },
    }
}

/// The objects of a processor; none where there is no scheduler.
pub open spec fn objects_of(s: Option<SchedulerView>) -> ObjectsView {
    match s {
        Some(x) => x.objects,
        None => crate::scheduler::birth::no_objects(),
    }
}

pub open spec fn took_capability(a: Shared, b: Shared, s: Option<SchedulerView>) -> bool {
    b == if s is Some {
        Shared { next_capability_slot: scheduler::after(a.next_capability_slot), ..a }
    } else {
        a
    }
}

/// The rights of a file that may be read, and written if that was asked for.
pub open spec fn file_rights(writable: bool) -> Rights {
    if writable {
        Rights((1u32 | 8u32) | 2u32)
    } else {
        Rights(1u32 | 8u32)
    }
}

/// A file as it is opened: at its start, or at its end to append.
pub open spec fn fresh_file(path: Seq<u8>, contents: Seq<u8>, writable: bool, append: bool) -> FileView {
    FileView {
        path,
        contents,
        offset: if append {
            contents.len() as int
        } else {
            0
        },
        writable,
    }
}

pub fn open_native_current(
    scheduler: &mut Option<Scheduler>,
    shared: &mut Shared,
    path: Vec<u8>,
    contents: Vec<u8>,
    writable: bool,
    append: bool,
) -> (r: Result<u64, ()>)
    requires
        scheduler::ready(*old(scheduler)),
    ensures
        scheduler::ready(*final(scheduler)),
        took_capability(*old(shared), *final(shared), scheduler::seen(*old(scheduler))),
        ({
            let o = objects_of(scheduler::seen(*old(scheduler)));
            opens(
                scheduler::seen(*old(scheduler)),
                scheduler::seen(*final(scheduler)),
                ObjectsView {
                    files: o.files.push(fresh_file(path@, contents@, writable, append)),
                    ..o
                },
                FileDescriptor {
                    capability: scheduler::capability(old(shared).next_capability_slot),
                    rights: file_rights(writable),
                    resource: DescriptorResource::File(o.files.len() as usize),
                },
                r,
            )
        }),
{
    match scheduler {
        None => Err(()),
        Some(s) => {
            let offset: usize = if append {
                contents.len()
            } else {
                0
            };
            let mut rights = Rights::READ() | Rights::TRANSFER();
            if writable {
                rights.bitor_assign(Rights::WRITE());
            }
            let capability = shared.allocate_capability();
            match find_slot(s) {
                None => Err(()),
                Some(i) => {
                    let ghost before = s@;
                    let ghost file = fresh_file(path@, contents@, writable, append);
                    let k: usize = s.objects.files.push(
                        OpenFile { path, contents, offset, writable },
                    );
                    proof {
                        assert(s@.objects.files == before.objects.files.push(file));
                        assert forall|i: int| 0 <= i < s@.objects.files.len() implies 0 <= (
                        #[trigger] s@.objects.files[i]).offset
                            <= s@.objects.files[i].contents.len() by {
                            if i < before.objects.files.len() {
                                assert(before.objects.files[i].offset
                                    <= before.objects.files[i].contents.len());
                            }
                        }
                        lemma_objects(before, s@.objects);
                    }
                    put_descriptor(
                        s,
                        i,
                        FileDescriptor { capability, rights, resource: DescriptorResource::File(k) },
                    );
                    Ok(i as u64)
                },
            }
        },
    }
}

/// Opens contents that have no path, to be read.
pub fn open_current(scheduler: &mut Option<Scheduler>, shared: &mut Shared, contents: Vec<u8>) -> (r:
    Result<u64, ()>)
    requires
        scheduler::ready(*old(scheduler)),
    ensures
        scheduler::ready(*final(scheduler)),
        took_capability(*old(shared), *final(shared), scheduler::seen(*old(scheduler))),
        ({
            let o = objects_of(scheduler::seen(*old(scheduler)));
            opens(
                scheduler::seen(*old(scheduler)),
                scheduler::seen(*final(scheduler)),
                ObjectsView {
                    files: o.files.push(fresh_file(Seq::empty(), contents@, false, false)),
                    ..o
                },
                FileDescriptor {
                    capability: scheduler::capability(old(shared).next_capability_slot),
                    rights: file_rights(false),
                    resource: DescriptorResource::File(o.files.len() as usize),
                },
                r,
            )
        }),
{
    let path: Vec<u8> = Vec::new();
    assert(path@ =~= Seq::<u8>::empty());
    open_native_current(scheduler, shared, path, contents, false, false)
}

pub fn open_directory_current(
    scheduler: &mut Option<Scheduler>,
    shared: &mut Shared,
    entries: Store<Vec<u8>>,
) -> (r: Result<u64, ()>)
    requires
        scheduler::ready(*old(scheduler)),
    ensures
        scheduler::ready(*final(scheduler)),
        took_capability(*old(shared), *final(shared), scheduler::seen(*old(scheduler))),
        ({
            let o = objects_of(scheduler::seen(*old(scheduler)));
            opens(
                scheduler::seen(*old(scheduler)),
                scheduler::seen(*final(scheduler)),
                ObjectsView {
                    directories: o.directories.push(
                        DirectoryView { entries: entries@, offset: 0 },
                    ),
                    ..o
                },
                FileDescriptor {
                    capability: scheduler::capability(old(shared).next_capability_slot),
                    rights: Rights(1u32 | 8u32),
                    resource: DescriptorResource::Directory(o.directories.len() as usize),
                },
                r,
            )
        }),
{
    match scheduler {
        None => Err(()),
        Some(s) => {
            let capability = shared.allocate_capability();
            match find_slot(s) {
                None => Err(()),
                Some(i) => {
                    let ghost before = s@;
                    let k: usize = s.objects.directories.push(
                        OpenDirectory { entries, offset: 0 },
                    );
                    proof {
                        lemma_objects(before, s@.objects);
                    }
                    put_descriptor(
                        s,
                        i,
                        FileDescriptor {
                            capability,
                            rights: Rights::READ() | Rights::TRANSFER(),
                            resource: DescriptorResource::Directory(k),
                        },
                    );
                    Ok(i as u64)
                },
            }
        },
    }
}

pub fn open_socket_current(scheduler: &mut Option<Scheduler>, shared: &mut Shared) -> (r: Result<
    u64,
    (),
>)
    requires
        scheduler::ready(*old(scheduler)),
    ensures
        scheduler::ready(*final(scheduler)),
        took_capability(*old(shared), *final(shared), scheduler::seen(*old(scheduler))),
        ({
            let o = objects_of(scheduler::seen(*old(scheduler)));
            opens(
                scheduler::seen(*old(scheduler)),
                scheduler::seen(*final(scheduler)),
                ObjectsView { sockets: o.sockets.push(OpenSocket { connection: None }), ..o },
                FileDescriptor {
                    capability: scheduler::capability(old(shared).next_capability_slot),
                    rights: Rights(((1u32 | 2u32) | 8u32) | 128u32),
                    resource: DescriptorResource::Socket(o.sockets.len() as usize),
                },
                r,
            )
        }),
{
    match scheduler {
        None => Err(()),
        Some(s) => {
            let capability = shared.allocate_capability();
            match find_slot(s) {
                None => Err(()),
                Some(i) => {
                    let ghost before = s@;
                    let k: usize = s.objects.sockets.push(OpenSocket { connection: None });
                    proof {
                        lemma_objects(before, s@.objects);
                    }
                    put_descriptor(
                        s,
                        i,
                        FileDescriptor {
                            capability,
                            rights: Rights::READ() | Rights::WRITE() | Rights::TRANSFER()
                                | Rights::CONNECT(),
                            resource: DescriptorResource::Socket(k),
                        },
                    );
                    Ok(i as u64)
                },
            }
        },
    }
}

pub fn epoll_create1_current(scheduler: &mut Option<Scheduler>, shared: &mut Shared, flags: u32) -> (r:
    Result<u64, ()>)
    requires
        scheduler::ready(*old(scheduler)),
    ensures
        scheduler::ready(*final(scheduler)),
        *final(shared) == (Shared {
            next_capability_slot: scheduler::after(old(shared).next_capability_slot),
            ..*old(shared)
        }),
        ({
            let o = objects_of(scheduler::seen(*old(scheduler)));
            opens(
                scheduler::seen(*old(scheduler)),
                scheduler::seen(*final(scheduler)),
                ObjectsView { epolls: o.epolls.push(Seq::empty()), ..o },
                FileDescriptor {
                    capability: scheduler::capability(old(shared).next_capability_slot),
                    rights: Rights(1u32 | 2u32),
                    resource: DescriptorResource::Epoll(o.epolls.len() as usize),
                },
                r,
            )
        }),
{
    let capability = shared.allocate_capability();
    match scheduler {
        None => Err(()),
        Some(s) => {
            match find_slot(s) {
                None => Err(()),
                Some(i) => {
                    let ghost before = s@;
                    let k: usize = s.objects.epolls.push(EpollInstance { items: Vec::new() });
                    proof {
                        lemma_objects(before, s@.objects);
                    }
                    put_descriptor(
                        s,
                        i,
                        FileDescriptor {
                            capability,
                            rights: Rights::READ() | Rights::WRITE(),
                            resource: DescriptorResource::Epoll(k),
                        },
                    );
                    Ok(i as u64)
                },
            }
        },
    }
}

pub fn eventfd_current(
    scheduler: &mut Option<Scheduler>,
    shared: &mut Shared,
    initval: u64,
    flags: u32,
) -> (r: Result<u64, ()>)
    requires
        scheduler::ready(*old(scheduler)),
    ensures
        scheduler::ready(*final(scheduler)),
        *final(shared) == (Shared {
            next_capability_slot: scheduler::after(old(shared).next_capability_slot),
            ..*old(shared)
        }),
        ({
            let o = objects_of(scheduler::seen(*old(scheduler)));
            opens(
                scheduler::seen(*old(scheduler)),
                scheduler::seen(*final(scheduler)),
                ObjectsView {
                    event_fds: o.event_fds.push(EventFdInstance { counter: initval, flags }),
                    ..o
                },
                FileDescriptor {
                    capability: scheduler::capability(old(shared).next_capability_slot),
                    rights: Rights(1u32 | 2u32),
                    resource: DescriptorResource::EventFd(o.event_fds.len() as usize),
                },
                r,
            )
        }),
{
    let capability = shared.allocate_capability();
    match scheduler {
        None => Err(()),
        Some(s) => {
            match find_slot(s) {
                None => Err(()),
                Some(i) => {
                    let ghost before = s@;
                    let k: usize = s.objects.event_fds.push(
                        EventFdInstance { counter: initval, flags },
                    );
                    proof {
                        lemma_objects(before, s@.objects);
                    }
                    put_descriptor(
                        s,
                        i,
                        FileDescriptor {
                            capability,
                            rights: Rights::READ() | Rights::WRITE(),
                            resource: DescriptorResource::EventFd(k),
                        },
                    );
                    Ok(i as u64)
                },
            }
        },
    }
}

/// Two descriptors for one object, one after the other. The first stays open
/// where there is no room for the second.
pub open spec fn pair_opened(
    s: SchedulerView,
    objects: ObjectsView,
    first: FileDescriptor,
    second: FileDescriptor,
) -> (SchedulerView, Result<(u64, u64), ()>) {
    match opened(s, objects, first) {
        None => (s, Err(())),
        Some((s1, a)) => match opened(s1, objects, second) {
            None => (s1, Err(())),
            Some((s2, b)) => (s2, Ok((a, b))),
        },
    }
}

/// How many capabilities a pair takes.
pub open spec fn capabilities_taken(shared: Shared, s: Option<SchedulerView>) -> Shared {
    match s {
        None => shared,
        Some(x) => {
            let once = scheduler::after(shared.next_capability_slot);
            Shared {
                next_capability_slot: if slot(x.table()) is None {
                    once
                } else {
                    scheduler::after(once)
                },
                ..shared
            }
        },
    }
}

/// A new empty pipe opened, with an end for reading and one for writing.
pub open spec fn pipe_opened(s: SchedulerView, shared: Shared) -> (
    SchedulerView,
    Result<(u64, u64), ()>,
) {
    let o = s.objects;
    let k = o.pipes.len() as usize;
    let slot1 = shared.next_capability_slot;
    pair_opened(
        s,
        ObjectsView {
            pipes: o.pipes.push(
                PipeView { id: shared.next_pipe_id, bytes: Seq::empty(), writer_open: true },
            ),
            ..o
        },
        FileDescriptor {
            capability: scheduler::capability(slot1),
            rights: Rights(1u32 | 8u32),
            resource: DescriptorResource::PipeRead(k),
        },
        FileDescriptor {
            capability: scheduler::capability(scheduler::after(slot1)),
            rights: Rights(2u32 | 8u32),
            resource: DescriptorResource::PipeWrite(k),
        },
    )
}

/// Opens a pipe; the numbers of its ends for reading and for writing.
pub fn open_pipe_current(scheduler: &mut Option<Scheduler>, shared: &mut Shared) -> (r: Result<
    (u64, u64),
    (),
>)
    requires
        scheduler::ready(*old(scheduler)),
    ensures
        scheduler::ready(*final(scheduler)),
        *final(shared) == capabilities_taken(
            Shared { next_pipe_id: scheduler::after(old(shared).next_pipe_id), ..*old(shared) },
            scheduler::seen(*old(scheduler)),
        ),
        match scheduler::seen(*old(scheduler)) {
            None => r is Err && *final(scheduler) is None,
            Some(s) => {
                let (s1, result) = pipe_opened(s, *old(shared));
                scheduler::seen(*final(scheduler)) == Some(s1) && r == result
            },
        },
{
    let id: u64 = shared.allocate_pipe_id();
    match scheduler {
        None => Err(()),
        Some(s) => {
            let read_capability = shared.allocate_capability();
            match find_slot(s) {
                None => Err(()),
                Some(i) => {
                    let ghost before = s@;
                    let k: usize = s.objects.pipes.push(
                        PipeState { id, bytes: Vec::new(), writer_open: true },
                    );
                    proof {
                        lemma_objects(before, s@.objects);
                    }
                    put_descriptor(
                        s,
                        i,
                        FileDescriptor {
                            capability: read_capability,
                            rights: Rights::READ() | Rights::TRANSFER(),
                            resource: DescriptorResource::PipeRead(k),
                        },
                    );
                    proof {
                        lemma_table(before);
                    }
                    let write_capability = shared.allocate_capability();
                    match find_slot(s) {
                        None => Err(()),
                        Some(j) => {
                            put_descriptor(
                                s,
                                j,
                                FileDescriptor {
                                    capability: write_capability,
                                    rights: Rights::WRITE() | Rights::TRANSFER(),
                                    resource: DescriptorResource::PipeWrite(k),
                                },
                            );
                            Ok((i as u64, j as u64))
                        },
                    }
                },
            }
        },
    }
}

/// Opens a channel; the numbers of its ends for sending and for receiving.
pub fn open_ipc_pair_current(scheduler: &mut Option<Scheduler>, shared: &mut Shared) -> (r: Result<
    (u64, u64),
    (),
>)
    requires
        scheduler::ready(*old(scheduler)),
    ensures
        scheduler::ready(*final(scheduler)),
        *final(shared) == capabilities_taken(
            Shared { next_ipc_id: scheduler::after(old(shared).next_ipc_id), ..*old(shared) },
            scheduler::seen(*old(scheduler)),
        ),
        match scheduler::seen(*old(scheduler)) {
            None => r is Err && *final(scheduler) is None,
            Some(s) => {
                let o = s.objects;
                let k = o.channels.len() as usize;
                let slot1 = old(shared).next_capability_slot;
                let (s1, result) = pair_opened(
                    s,
                    ObjectsView {
                        channels: o.channels.push(
                            ChannelView {
                                id: old(shared).next_ipc_id,
                                queue: Seq::empty(),
                                revoked: false,
                            },
                        ),
                        ..o
                    },
                    FileDescriptor {
                        capability: scheduler::capability(slot1),
                        rights: Rights(2u32 | 8u32),
                        resource: DescriptorResource::Ipc { channel: k, send: true },
                    },
                    FileDescriptor {
                        capability: scheduler::capability(scheduler::after(slot1)),
                        rights: Rights(1u32 | 8u32),
                        resource: DescriptorResource::Ipc { channel: k, send: false },
                    },
                );
                scheduler::seen(*final(scheduler)) == Some(s1) && r == result
            },
        },
{
    let id: u64 = shared.allocate_ipc_id();
    match scheduler {
        None => Err(()),
        Some(s) => {
            let send_capability = shared.allocate_capability();
            match find_slot(s) {
                None => Err(()),
                Some(i) => {
                    let ghost before = s@;
                    let k: usize = s.objects.channels.push(
                        IpcState { id, queue: Store::new(), revoked: false },
                    );
                    proof {
                        lemma_objects(before, s@.objects);
                    }
                    put_descriptor(
                        s,
                        i,
                        FileDescriptor {
                            capability: send_capability,
                            rights: Rights::WRITE() | Rights::TRANSFER(),
                            resource: DescriptorResource::Ipc { channel: k, send: true },
                        },
                    );
                    proof {
                        lemma_table(before);
                    }
                    let receive_capability = shared.allocate_capability();
                    match find_slot(s) {
                        None => Err(()),
                        Some(j) => {
                            put_descriptor(
                                s,
                                j,
                                FileDescriptor {
                                    capability: receive_capability,
                                    rights: Rights::READ() | Rights::TRANSFER(),
                                    resource: DescriptorResource::Ipc { channel: k, send: false },
                                },
                            );
                            Ok((i as u64, j as u64))
                        },
                    }
                },
            }
        },
    }
}

} // verus!
