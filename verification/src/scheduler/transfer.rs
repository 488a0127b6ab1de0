//! Reading, writing and closing by descriptor.
use vstd::prelude::*;

use crate::abi::Rights;
use crate::bytes::push_all;
use crate::linux;
use crate::scheduler::{
    self, DescriptorResource, DirectoryView, FileDescriptor, ObjectsView, Scheduler, SchedulerView,
};
use crate::scheduler::descriptors::{self, current_descriptor, find_slot, put_descriptor};

verus! {

// ---------------------------------------------------------------------------
// Sharing
// ---------------------------------------------------------------------------
pub open spec fn can_duplicate(d: FileDescriptor) -> bool {
    d.capability.0 != 0 && d.rights.has(Rights(8))
}

/// A descriptor under one more number.
pub open spec fn duplicated(s: SchedulerView, fd: u64) -> Option<(SchedulerView, u64)> {
    match descriptors::descriptor_at(s, fd) {
        None => None,
        Some(d) => if can_duplicate(d) {
            descriptors::opened(s, s.objects, d)
        } else {
            None
        },
    }
}

pub fn duplicate_current(scheduler: &mut Option<Scheduler>, fd: u64) -> (r: Result<u64, ()>)
    requires
        scheduler::ready(*old(scheduler)),
    ensures
        scheduler::ready(*final(scheduler)),
        match scheduler::seen(*old(scheduler)) {
            None => r is Err && *final(scheduler) is None,
            Some(s) => match duplicated(s, fd) {
                None => r is Err && scheduler::seen(*final(scheduler)) == Some(s),
                Some((s1, n)) => r == Ok::<u64, ()>(n) && scheduler::seen(*final(scheduler)) == Some(s1),
            },
        },
{
    let d = match current_descriptor(scheduler, fd) {
        None => {
            return Err(());
        },
        Some(d) => d,
    };
    if d.capability.is_invalid() || !d.rights.contains(Rights::TRANSFER()) {
        return Err(());
    }
    match scheduler {
        None => Err(()),
        Some(s) => match find_slot(s) {
            None => Err(()),
            Some(i) => {
                put_descriptor(s, i, d);
                Ok(i as u64)
            },
        },
    }
}

/// A table that has at least `n` numbers.
pub open spec fn extended(table: Seq<Option<FileDescriptor>>, n: int) -> Seq<
    Option<FileDescriptor>,
> {
    if n <= table.len() {
        table
    } else {
        table + Seq::new((n - table.len()) as nat, |i: int| None::<FileDescriptor>)
    }
}

/// A descriptor under a given number also; what was there is given up.
pub open spec fn duplicated_to(s: SchedulerView, from: u64, to: u64) -> Option<SchedulerView> {
    match descriptors::descriptor_at(s, from) {
        None => None,
        Some(d) => if to >= 256 {
            None
        } else if from == to {
            Some(s)
        } else {
            Some(s.with_table(extended(s.table(), to + 1).update(to as int, Some(d))))
        },
    }
}

fn put_at(s: &mut Scheduler, to: usize, d: FileDescriptor)
    requires
        old(s)@.wf(),
        to < 256,
        old(s)@.objects.holds(d.resource),
    ensures
        final(s)@.wf(),
        final(s)@ == old(s)@.with_table(
            extended(old(s)@.table(), to + 1).update(to as int, Some(d)),
        ),
{
    let ghost before = s@;
    proof {
        descriptors::lemma_table(s@);
        descriptors::lemma_with_table(s@, extended(s@.table(), to + 1).update(to as int, Some(d)));
    }
    let place: usize = s.tasks[s.current].descriptors;
    let ghost start = s@.table();
    let mut missing: usize = 0;
    let length: usize = s.tables.get(place).len();
    if length <= to {
        missing = to + 1 - length;
    }
    let table = s.tables.at_mut(place);
    let mut i: usize = 0;
    while i < missing
        invariant
            i <= missing,
            table@ == start + Seq::new(i as nat, |j: int| None::<FileDescriptor>),
        decreases missing - i,
    {
        table.push(None);
        i += 1;
        assert(table@ =~= start + Seq::new(i as nat, |j: int| None::<FileDescriptor>));
    }
    assert(table@ =~= extended(start, to + 1));
    table[to] = Some(d);
}

pub fn duplicate_to_current(scheduler: &mut Option<Scheduler>, old_fd: u64, new_fd: u64) -> (r: Result<
    u64,
    (),
>)
    requires
        scheduler::ready(*old(scheduler)),
    ensures
        scheduler::ready(*final(scheduler)),
        match scheduler::seen(*old(scheduler)) {
            None => r is Err && *final(scheduler) is None,
            Some(s) => match duplicated_to(s, old_fd, new_fd) {
                None => r is Err && scheduler::seen(*final(scheduler)) == Some(s),
                Some(s1) => r == Ok::<u64, ()>(new_fd) && scheduler::seen(*final(scheduler)) == Some(s1),
            },
        },
{
    if new_fd >= 256 {
        return Err(());
    }
    let d = match current_descriptor(scheduler, old_fd) {
        None => {
            return Err(());
        },
        Some(d) => d,
    };
    if old_fd == new_fd {
        return Ok(new_fd);
    }
    match scheduler {
        None => Err(()),
        Some(s) => {
            put_at(s, new_fd as usize, d);
            Ok(new_fd)
        },
    }
}

// ---------------------------------------------------------------------------
// What programs are told of what they have open
// ---------------------------------------------------------------------------
/// The kind and access, device number and size of what a descriptor stands for.
pub open spec fn described(o: ObjectsView, resource: DescriptorResource) -> (u32, u64, u64) {
    match resource {
        DescriptorResource::File(k) => (0o100644, 0, o.files[k as int].contents.len() as u64),
        DescriptorResource::Directory(_) => (0o040755, 0, 4096),
        DescriptorResource::Tty => (0o020666, 5, 0),
        DescriptorResource::Serial => (0o020666, 5, 0),
        DescriptorResource::Socket(_) => (0o140666, 0, 0),
        DescriptorResource::PtyMaster(_) => (0o020666, 5, 0),
        DescriptorResource::PtySlave(_) => (0o020666, 5, 0),
        _ => (0o010600, 0, 0),
    }
}

pub fn stat_linux_current(scheduler: &Option<Scheduler>, fd: u64) -> (r: Result<Vec<u8>, ()>)
    requires
        scheduler::ready(*scheduler),
    ensures
        match descriptors::descriptor_in(scheduler::seen(*scheduler), fd) {
            None => r is Err,
            Some(d) => {
                let (mode, rdev, size) = described(objects_seen(*scheduler), d.resource);
                r is Ok && r->Ok_0@ == linux::stat_record(mode, 1000, rdev, size)
            },
        },
{
    let d = match current_descriptor(scheduler, fd) {
        None => {
            return Err(());
        },
        Some(d) => d,
    };
    match scheduler {
        None => Err(()),
        Some(s) => {
            let mut mode: u32 = 0o010600;
            let mut rdev: u64 = 0;
            let mut size: u64 = 0;
            match d.resource {
                DescriptorResource::File(k) => {
                    let file = s.objects.files.get(k);
                    assert(file@ == s@.objects.files[k as int]);
                    assert(file.contents@.len() == file.contents.len());
                    mode = 0o100644;
                    size = file.contents.len() as u64;
                },
                DescriptorResource::Directory(_) => {
                    mode = 0o040755;
                    size = 4096;
                },
                DescriptorResource::Tty => {
                    mode = 0o020666;
                    rdev = 5;
                },
                DescriptorResource::Serial => {
                    mode = 0o020666;
                    rdev = 5;
                },
                DescriptorResource::Socket(_) => {
                    mode = 0o140666;
                },
                DescriptorResource::PtyMaster(_) => {
                    mode = 0o020666;
                    rdev = 5;
                },
                DescriptorResource::PtySlave(_) => {
                    mode = 0o020666;
                    rdev = 5;
                },
                _ => {},
            }
            Ok(linux::make_stat_record(mode, 1000, rdev, size))
        },
    }
}

/// The objects of a processor; nothing is said where there is no scheduler.
pub open spec fn objects_seen(s: Option<Scheduler>) -> ObjectsView {
    crate::scheduler::descriptors::objects_of(scheduler::seen(s))
}

/// The size and the kind of a file or directory that may be read.
pub fn stat_current(scheduler: &Option<Scheduler>, fd: u64) -> (r: Result<(u64, u64), ()>)
    requires
        scheduler::ready(*scheduler),
    ensures
        r == (match descriptors::descriptor_in(scheduler::seen(*scheduler), fd) {
            None => Err::<(u64, u64), ()>(()),
            Some(d) => if !d.rights.has(Rights(1)) {
                Err(())
            } else {
                match d.resource {
                    DescriptorResource::File(k) => Ok(
                        (objects_seen(*scheduler).files[k as int].contents.len() as u64, 0o100644),
                    ),
                    DescriptorResource::Directory(_) => Ok((0, 0o040755)),
                    _ => Err(()),
                }
            },
        }),
{
    let d = match current_descriptor(scheduler, fd) {
        None => {
            return Err(());
        },
        Some(d) => d,
    };
    if !d.rights.contains(Rights::READ()) {
        return Err(());
    }
    match scheduler {
        None => Err(()),
        Some(s) => match d.resource {
            DescriptorResource::File(k) => {
                let file = s.objects.files.get(k);
                assert(file@ == s@.objects.files[k as int]);
                assert(file.contents@.len() == file.contents.len());
                Ok((file.contents.len() as u64, 0o100644))
            },
            DescriptorResource::Directory(_) => Ok((0, 0o040755)),
            _ => Err(()),
        },
    }
}

// ---------------------------------------------------------------------------
// Directories
// ---------------------------------------------------------------------------
/// Entries from the `i`-th on, as records, as long as they fit behind what is
/// there; the first is given out even if it does not. Where this ends.
pub open spec fn records_from(entries: Seq<Seq<u8>>, i: int, bytes: Seq<u8>, limit: int) -> (
    Seq<u8>,
    int,
)
    decreases entries.len() - i,
{
    if i < 0 || i >= entries.len() || (bytes.len() + linux::entry_length(entries[i]) > limit
        && bytes.len() > 0) {
        (bytes, i)
    } else {
        records_from(entries, i + 1, bytes + linux::entry_record(entries[i], i), limit)
    }
}

fn list_records(s: &mut Scheduler, k: usize, limit: usize) -> (r: Vec<u8>)
    requires
        old(s)@.wf(),
        k < old(s)@.objects.directories.len(),
    ensures
        final(s)@.wf(),
        ({
            let d = old(s)@.objects.directories[k as int];
            let (bytes, end) = records_from(d.entries, d.offset, Seq::empty(), limit as int);
            &&& r@ == bytes
            &&& final(s)@ == with_directory(old(s)@, k, end)
        }),
{
    let ghost d = s@.objects.directories[k as int];
    let mut bytes: Vec<u8> = Vec::new();
    assert(bytes@ =~= Seq::<u8>::empty());
    let directory = s.objects.directories.get(k);
    let mut i: usize = directory.offset;
    let count: usize = directory.entries.len();
    while i < count
        invariant_except_break
            records_from(d.entries, d.offset, Seq::empty(), limit as int) == records_from(
                d.entries,
                i as int,
                bytes@,
                limit as int,
            ),
        invariant
            d.offset <= i <= count,
            count == d.entries.len(),
            directory@ == d,
        ensures
            records_from(d.entries, d.offset, Seq::empty(), limit as int) == (bytes@, i as int),
        decreases count - i,
    {
        let name = directory.entries.get(i);
        assert(name@ == d.entries[i as int]);
        assert(name@.len() == name.len());
        assert(bytes@.len() == bytes.len());
        let length: u128 = (name.len() as u128 + 27) / 8 * 8;
        if bytes.len() as u128 + length > limit as u128 && bytes.len() > 0 {
            break;
        }
        let record = linux::make_entry_record(name.as_slice(), i);
        push_all(&mut bytes, record.as_slice());
        i += 1;
    }
    set_directory(s, k, i);
    bytes
}

pub open spec fn with_directory(s: SchedulerView, k: usize, offset: int) -> SchedulerView {
    let d = s.objects.directories[k as int];
    s.with_objects(
        ObjectsView {
            directories: s.objects.directories.update(k as int, DirectoryView { offset, ..d }),
            ..s.objects
        },
    )
}

fn set_directory(s: &mut Scheduler, k: usize, offset: usize)
    requires
        old(s)@.wf(),
        k < old(s)@.objects.directories.len(),
        offset <= old(s)@.objects.directories[k as int].entries.len(),
    ensures
        final(s)@.wf(),
        final(s)@ == with_directory(old(s)@, k, offset as int),
{
    proof {
        descriptors::lemma_objects(s@, with_directory(s@, k, offset as int).objects);
    }
    let directory = s.objects.directories.at_mut(k);
    directory.offset = offset;
}

/// The next entries of a directory, as records.
pub fn read_dir_linux_current(scheduler: &mut Option<Scheduler>, fd: u64, max_length: usize) -> (r: Result<
    Vec<u8>,
    (),
>)
    requires
        scheduler::ready(*old(scheduler)),
    ensures
        scheduler::ready(*final(scheduler)),
        match descriptors::descriptor_in(scheduler::seen(*old(scheduler)), fd) {
            Some(FileDescriptor { resource: DescriptorResource::Directory(k), .. }) => {
                let s = scheduler::seen(*old(scheduler))->0;
                let d = s.objects.directories[k as int];
                let (bytes, end) = records_from(
                    d.entries,
                    d.offset,
                    Seq::empty(),
                    max_length as int,
                );
                &&& r is Ok
                &&& r->Ok_0@ == bytes
                &&& scheduler::seen(*final(scheduler)) == Some(with_directory(s, k, end))
            },
            _ => r is Err && scheduler::seen(*final(scheduler)) == scheduler::seen(*old(scheduler)),
        },
{
    let d = match current_descriptor(scheduler, fd) {
        None => {
            return Err(());
        },
        Some(d) => d,
    };
    match (d.resource, scheduler) {
        (DescriptorResource::Directory(k), Some(s)) => Ok(list_records(s, k, max_length)),
        _ => Err(()),
    }
}

proof fn lemma_free_slot(table: Seq<Option<FileDescriptor>>, i: int)
    requires
        0 <= i <= table.len() <= 256,
    ensures
        descriptors::slot_from(table, i) matches Some(k) ==> i <= k <= table.len() && k <= 256 && (k
            < table.len() ==> table[k] is None),
    decreases table.len() - i,
{
    if i < table.len() {
        lemma_free_slot(table, i + 1);
    }
}

/// A copy of a descriptor stands for the same thing with the same rights, under
/// a number that was free; the others stay as they are.
pub proof fn law_duplicate_same(s: SchedulerView, fd: u64)
    requires
        s.wf(),
        duplicated(s, fd) is Some,
    ensures
        ({
            let (after, copy) = duplicated(s, fd)->0;
            &&& descriptors::descriptor_at(after, copy) == descriptors::descriptor_at(s, fd)
            &&& descriptors::descriptor_at(s, copy) is None
            &&& forall|other: u64|
                other != copy ==> #[trigger] descriptors::descriptor_at(after, other)
                    == descriptors::descriptor_at(s, other)
        }),
{
    descriptors::lemma_table(s);
    lemma_free_slot(s.table(), 0);
    let (after, copy) = duplicated(s, fd)->0;
    assert(after.table() == descriptors::installed(
        s.table(),
        copy as int,
        descriptors::descriptor_at(s, fd)->0,
    ));
}

} // verus!
