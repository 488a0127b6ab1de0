//! System calls on descriptors and files.
use vstd::prelude::*;

use crate::paging::{Machine, MachineView};
use crate::scheduler::{self, DescriptorResource, SchedulerView};
use crate::scheduler::channels::{self, can_mutate_path};
use crate::scheduler::descriptors::{self, open_directory_current, open_native_current};
use crate::scheduler::io::{
    self, read_current, read_would_block, write_current, Reading, ReadingView, Writing,
    WritingView,
};
use crate::store::Store;
use crate::syscall::{
    self, value_or_error, Kernel, KernelView, SYSCALL_ERROR, SYSCALL_RETURN_BLOCK, Step, StepView,
};
use crate::syscall::memory::{self, copy_from_user, copy_to_user};
use crate::text::is_utf8;

verus! {

// ---------------------------------------------------------------------------
// Writing
// ---------------------------------------------------------------------------
/// What is left of a write, for the program's bytes.
pub open spec fn write_step(w: WritingView, bytes: Seq<u8>, length: u64, fallback: bool) -> StepView {
    match w {
        WritingView::Done => StepView::Done(length),
        WritingView::Device => StepView::Print { bytes, length },
        WritingView::Socket(socket) => StepView::Send { socket, bytes, length, fallback },
        WritingView::Store { path, contents } => StepView::Store {
            path,
            contents,
            bytes,
            length,
            fallback,
        },
    }
}

/// A write of the program's bytes. What cannot be written to output or errors
/// is printed.
pub open spec fn user_write(k: KernelView, fd: u64, pointer: u64, length: u64) -> (
    KernelView,
    StepView,
) {
    match memory::taken(k.machine, pointer, length) {
        None => (k, syscall::refused()),
        Some(bytes) => {
            let fallback = fd == 1 || fd == 2;
            match io::descriptor_written(k.scheduler, fd, bytes) {
                Some((s, w)) => (k.with_scheduler(s), write_step(w, bytes, length, fallback)),
                None => (
                    k,
                    if fallback {
                        StepView::Print { bytes, length }
                    } else {
                        syscall::refused()
                    },
                ),
            }
        },
    }
}

pub fn write_user(k: &mut Kernel, fd: u64, pointer: u64, length: u64) -> (r: Step)
    requires
        old(k).wf(),
    ensures
        final(k).wf(),
        (final(k)@, r@) == user_write(old(k)@, fd, pointer, length),
{
    let bytes = match copy_from_user(&k.machine, pointer, length) {
        None => {
            return Step::Done(SYSCALL_ERROR);
        },
        Some(bytes) => bytes,
    };
    let fallback: bool = fd == 1 || fd == 2;
    match write_current(&mut k.scheduler, fd, bytes.as_slice()) {
        Ok(Writing::Done) => Step::Done(length),
        Ok(Writing::Device) => Step::Print { bytes, length },
        Ok(Writing::Socket(socket)) => Step::Send { socket, bytes, length, fallback },
        Ok(Writing::Store { path, contents }) => Step::Store {
            path,
            contents,
            bytes,
            length,
            fallback,
        },
        Err(()) => {
            if fallback {
                Step::Print { bytes, length }
            } else {
                Step::Done(SYSCALL_ERROR)
            }
        },
    }
}

/// How a write goes on when the bytes were sent or stored outside.
pub fn write_answered(ok: bool, bytes: Vec<u8>, length: u64, fallback: bool) -> (r: Step)
    ensures
        r@ == if ok {
            StepView::Done(length)
        } else if fallback {
            StepView::Print { bytes: bytes@, length }
        } else {
            syscall::refused()
        },
{
    if ok {
        Step::Done(length)
    } else if fallback {
        Step::Print { bytes, length }
    } else {
        Step::Done(SYSCALL_ERROR)
    }
}

// ---------------------------------------------------------------------------
// Reading
// ---------------------------------------------------------------------------
/// Bytes that were read, given to the program. If there are none, and more may
/// come, it waits.
pub open spec fn read_given(k: KernelView, fd: u64, pointer: u64, bytes: Seq<u8>) -> (
    KernelView,
    StepView,
) {
    let (m, ok) = memory::given(k.machine, pointer, bytes, 0);
    let k1 = KernelView { machine: m, ..k };
    if !ok {
        (k1, syscall::refused())
    } else if bytes.len() == 0 && io::would_block(k.scheduler, fd) {
        (
            KernelView {
                cpu: crate::syscall::CpuLocal { block_descriptor: fd, ..k.cpu },
                ..k1
            },
            StepView::Done(SYSCALL_RETURN_BLOCK),
        )
    } else {
        (k1, StepView::Done(bytes.len() as u64))
    }
}

pub fn finish_read(k: &mut Kernel, fd: u64, pointer: u64, bytes: &Vec<u8>) -> (r: Step)
    requires
        old(k).wf(),
    ensures
        final(k).wf(),
        (final(k)@, r@) == read_given(old(k)@, fd, pointer, bytes@),
{
    if !copy_to_user(&mut k.machine, pointer, bytes.as_slice()) {
        return Step::Done(SYSCALL_ERROR);
    }
    if bytes.len() == 0 && read_would_block(&k.scheduler, fd) {
        k.cpu.block_descriptor = fd;
        return Step::Done(SYSCALL_RETURN_BLOCK);
    }
    Step::Done(bytes.len() as u64)
}

pub open spec fn no_more(length: u64, limit: u64) -> usize {
    (if length <= limit {
        length
    } else {
        limit
    }) as usize
}

pub open spec fn user_read(k: KernelView, fd: u64, pointer: u64, length: u64) -> (
    KernelView,
    StepView,
) {
    let n = no_more(length, 65536);
    match io::descriptor_read(k.scheduler, fd, n as int) {
        None => (k, syscall::refused()),
        Some((s, ReadingView::Bytes(bytes))) => read_given(k.with_scheduler(s), fd, pointer, bytes),
        Some((s, ReadingView::Tty)) => (
            k.with_scheduler(s),
            StepView::ReadTty { fd, pointer, length: n },
        ),
        Some((s, ReadingView::Socket(socket))) => (
            k.with_scheduler(s),
            StepView::Receive { socket, fd, pointer, length: n },
        ),
    }
}

pub fn read_user(k: &mut Kernel, fd: u64, pointer: u64, length: u64) -> (r: Step)
    requires
        old(k).wf(),
    ensures
        final(k).wf(),
        (final(k)@, r@) == user_read(old(k)@, fd, pointer, length),
{
    let length: usize = if length <= 65536 {
        length as usize
    } else {
        65536
    };
    match read_current(&mut k.scheduler, fd, length) {
        Err(()) => Step::Done(SYSCALL_ERROR),
        Ok(Reading::Tty) => Step::ReadTty { fd, pointer, length },
        Ok(Reading::Socket(socket)) => Step::Receive { socket, fd, pointer, length },
        Ok(Reading::Bytes(bytes)) => finish_read(k, fd, pointer, &bytes),
    }
}

// ---------------------------------------------------------------------------
// Opening
// ---------------------------------------------------------------------------
/// A path that the program gives: text of a length.
pub open spec fn path_at(m: MachineView, pointer: u64, length: u64) -> Option<Seq<u8>> {
    match memory::taken(m, pointer, length) {
        None => None,
        Some(bytes) => if vstd::utf8::valid_utf8(bytes) {
            Some(bytes)
        } else {
            None
        },
    }
}

pub(crate) fn user_path(machine: &Machine, pointer: u64, length: u64) -> (r: Option<Vec<u8>>)
    ensures
        match r {
            Some(path) => path_at(machine@, pointer, length) == Some(path@),
            None => path_at(machine@, pointer, length) is None,
        },
{
    match copy_from_user(machine, pointer, length) {
        None => None,
        Some(bytes) => {
            if is_utf8(bytes.as_slice()) {
                Some(bytes)
            } else {
                None
            }
        },
    }
}

pub fn open_user(k: &Kernel, pointer: u64, length: u64) -> (r: Step)
    ensures
        r@ == (match path_at(k@.machine, pointer, length) {
            None => syscall::refused(),
            Some(path) => StepView::Open { path },
        }),
{
    match user_path(&k.machine, pointer, length) {
        None => Step::Done(SYSCALL_ERROR),
        Some(path) => Step::Open { path },
    }
}

/// What opening contents does: a descriptor for them, or a failure.
pub open spec fn contents_opened(
    before: KernelView,
    after: KernelView,
    path: Seq<u8>,
    contents: Seq<u8>,
    writable: bool,
    append: bool,
    r: u64,
) -> bool {
    let o = descriptors::objects_of(before.scheduler);
    let result = if r == SYSCALL_ERROR {
        Err::<u64, ()>(())
    } else {
        Ok(r)
    };
    &&& after.machine == before.machine
    &&& after.cpu == before.cpu
    &&& descriptors::took_capability(before.shared, after.shared, before.scheduler)
    &&& descriptors::opens(
        before.scheduler,
        after.scheduler,
        crate::scheduler::ObjectsView {
            files: o.files.push(descriptors::fresh_file(path, contents, writable, append)),
            ..o
        },
        crate::scheduler::FileDescriptor {
            capability: crate::scheduler::capability(before.shared.next_capability_slot),
            rights: descriptors::file_rights(writable),
            resource: DescriptorResource::File(o.files.len() as usize),
        },
        result,
    )
}

fn open_contents(
    k: &mut Kernel,
    path: Vec<u8>,
    contents: Vec<u8>,
    writable: bool,
    append: bool,
) -> (r: u64)
    requires
        old(k).wf(),
    ensures
        final(k).wf(),
        contents_opened(old(k)@, final(k)@, path@, contents@, writable, append, r),
{
    proof {
        if scheduler::seen(k.scheduler) is Some {
            crate::scheduler::descriptors::lemma_table(scheduler::seen(k.scheduler)->0);
            lemma_slot(scheduler::seen(k.scheduler)->0.table(), 0);
        }
    }
    let r = open_native_current(
        &mut k.scheduler,
        &mut k.shared,
        path,
        contents,
        writable,
        append,
    );
    value_or_error(r)
}

/// A number of a table is small.
proof fn lemma_slot(table: Seq<Option<crate::scheduler::FileDescriptor>>, i: int)
    requires
        0 <= i <= table.len() <= 256,
    ensures
        crate::scheduler::descriptors::slot_from(table, i) matches Some(j) ==> 0 <= j < 256,
    decreases table.len() - i,
{
    if i < table.len() {
        lemma_slot(table, i + 1);
    }
}

/// How opening a file for reading goes on when its contents were looked up.
pub fn open_answered(k: &mut Kernel, contents: Option<Vec<u8>>) -> (r: u64)
    requires
        old(k).wf(),
    ensures
        final(k).wf(),
        match contents {
            None => r == SYSCALL_ERROR && final(k)@ == old(k)@,
            Some(c) => contents_opened(old(k)@, final(k)@, Seq::empty(), c@, false, false, r),
        },
{
    match contents {
        None => SYSCALL_ERROR,
        Some(contents) => {
            let path: Vec<u8> = Vec::new();
            assert(path@ =~= Seq::<u8>::empty());
            open_contents(k, path, contents, false, false)
        },
    }
}

pub fn open_native_user(k: &Kernel, pointer: u64, length: u64, flags: u64) -> (r: Step)
    ensures
        r@ == (match path_at(k@.machine, pointer, length) {
            None => syscall::refused(),
            Some(path) => StepView::OpenNative { path, flags },
        }),
{
    match user_path(&k.machine, pointer, length) {
        None => Step::Done(SYSCALL_ERROR),
        Some(path) => Step::OpenNative { path, flags },
    }
}

/// What the file system says of a path: whether there is something and whether
/// that is a directory, its entries, and its contents.
pub struct PathAnswer {
    pub is_directory: Option<bool>,
    pub entries: Option<Store<Vec<u8>>>,
    pub contents: Option<Vec<u8>>,
}

/// What opening a path comes to.
pub enum OpenPlan {
    Fail,
    Directory { entries: Store<Vec<u8>> },
    /// A file with these contents, which are to be stored first if `store`.
    File { contents: Vec<u8>, writable: bool, append: bool, store: bool },
}

pub enum OpenPlanView {
    Fail,
    Directory { entries: Seq<Seq<u8>> },
    File { contents: Seq<u8>, writable: bool, append: bool, store: bool },
}

impl View for OpenPlan {
    type V = OpenPlanView;

    open spec fn view(&self) -> OpenPlanView {
        match self {
            OpenPlan::Fail => OpenPlanView::Fail,
            OpenPlan::Directory { entries } => OpenPlanView::Directory { entries: entries@ },
            OpenPlan::File { contents, writable, append, store } => OpenPlanView::File {
                contents: contents@,
                writable: *writable,
                append: *append,
                store: *store,
            },
        }
    }
}

/// A directory is listed. A file that is to be written must be one that the
/// program may change; it is made if it is not there and that was asked for,
/// and emptied if that was asked for.
pub open spec fn open_planned(
    s: Option<SchedulerView>,
    path: Seq<u8>,
    flags: u64,
    is_directory: Option<bool>,
    entries: Option<Seq<Seq<u8>>>,
    contents: Option<Seq<u8>>,
) -> OpenPlanView {
    let writable = flags % 2 == 1;
    let create = flags / 2 % 2 == 1;
    let truncate = flags / 4 % 2 == 1;
    let append = flags / 8 % 2 == 1;
    if is_directory == Some(true) {
        match entries {
            None => OpenPlanView::Fail,
            Some(entries) => OpenPlanView::Directory { entries },
        }
    } else if writable && !channels::may_mutate(s, path) {
        OpenPlanView::Fail
    } else if contents is None && !(writable && create) {
        OpenPlanView::Fail
    } else {
        let found = match contents {
            Some(c) => c,
            None => Seq::empty(),
        };
        if writable && truncate {
            OpenPlanView::File { contents: Seq::empty(), writable, append, store: true }
        } else {
            OpenPlanView::File {
                contents: found,
                writable,
                append,
                store: writable && create && is_directory is None,
            }
        }
    }
}

pub open spec fn entries_seen(entries: Option<Store<Vec<u8>>>) -> Option<Seq<Seq<u8>>> {
    match entries {
        Some(e) => Some(e@),
        None => None,
    }
}

pub open spec fn contents_seen(contents: Option<Vec<u8>>) -> Option<Seq<u8>> {
    match contents {
        Some(c) => Some(c@),
        None => None,
    }
}

pub fn plan_open(k: &Kernel, path: &[u8], flags: u64, answer: PathAnswer) -> (r: OpenPlan)
    requires
        k.wf(),
    ensures
        r@ == open_planned(
            k@.scheduler,
            path@,
            flags,
            answer.is_directory,
            entries_seen(answer.entries),
            contents_seen(answer.contents),
        ),
{
    let PathAnswer { is_directory, entries, contents } = answer;
    if let Some(true) = is_directory {
        return match entries {
            None => OpenPlan::Fail,
            Some(entries) => OpenPlan::Directory { entries },
        };
    }
    let writable: bool = flags % 2 == 1;
    let create: bool = flags / 2 % 2 == 1;
    let truncate: bool = flags / 4 % 2 == 1;
    let append: bool = flags / 8 % 2 == 1;
    if writable && !can_mutate_path(&k.scheduler, path) {
        return OpenPlan::Fail;
    }
    let contents = match contents {
        Some(contents) => contents,
        None => {
            if !(writable && create) {
                return OpenPlan::Fail;
            }
            let none: Vec<u8> = Vec::new();
            assert(none@ =~= Seq::<u8>::empty());
            none
        },
    };
    if writable && truncate {
        let none: Vec<u8> = Vec::new();
        assert(none@ =~= Seq::<u8>::empty());
        OpenPlan::File { contents: none, writable, append, store: true }
    } else {
        OpenPlan::File {
            contents,
            writable,
            append,
            store: writable && create && is_directory.is_none(),
        }
    }
}

/// What opening a directory does.
pub open spec fn directory_opened(before: KernelView, after: KernelView, entries: Seq<Seq<u8>>, r: u64) -> bool {
    let o = descriptors::objects_of(before.scheduler);
    let result = if r == SYSCALL_ERROR {
        Err::<u64, ()>(())
    } else {
        Ok(r)
    };
    &&& after.machine == before.machine
    &&& after.cpu == before.cpu
    &&& descriptors::took_capability(before.shared, after.shared, before.scheduler)
    &&& descriptors::opens(
        before.scheduler,
        after.scheduler,
        crate::scheduler::ObjectsView {
            directories: o.directories.push(
                crate::scheduler::DirectoryView { entries, offset: 0 },
            ),
            ..o
        },
        crate::scheduler::FileDescriptor {
            capability: crate::scheduler::capability(before.shared.next_capability_slot),
            rights: crate::abi::Rights(1u32 | 8u32),
            resource: DescriptorResource::Directory(o.directories.len() as usize),
        },
        result,
    )
}

pub(crate) fn open_entries(k: &mut Kernel, entries: Store<Vec<u8>>) -> (r: u64)
    requires
        old(k).wf(),
    ensures
        final(k).wf(),
        directory_opened(old(k)@, final(k)@, entries@, r),
{
    proof {
        if scheduler::seen(k.scheduler) is Some {
            crate::scheduler::descriptors::lemma_table(scheduler::seen(k.scheduler)->0);
            lemma_slot(scheduler::seen(k.scheduler)->0.table(), 0);
        }
    }
    let r = open_directory_current(&mut k.scheduler, &mut k.shared, entries);
    value_or_error(r)
}

/// Carries a plan out; `stored` says whether what had to be stored was.
pub fn open_native_answered(k: &mut Kernel, path: Vec<u8>, plan: OpenPlan, stored: bool) -> (r: u64)
    requires
        old(k).wf(),
    ensures
        final(k).wf(),
        match plan@ {
            OpenPlanView::Fail => r == SYSCALL_ERROR && final(k)@ == old(k)@,
            OpenPlanView::Directory { entries } => directory_opened(
                old(k)@,
                final(k)@,
                entries,
                r,
            ),
            OpenPlanView::File { contents, writable, append, store } => if store && !stored {
                r == SYSCALL_ERROR && final(k)@ == old(k)@
            } else {
                contents_opened(old(k)@, final(k)@, path@, contents, writable, append, r)
            },
        },
{
    match plan {
        OpenPlan::Fail => SYSCALL_ERROR,
        OpenPlan::Directory { entries } => open_entries(k, entries),
        OpenPlan::File { contents, writable, append, store } => {
            if store && !stored {
                SYSCALL_ERROR
            } else {
                open_contents(k, path, contents, writable, append)
            }
        },
    }
}

pub(crate) fn open_with_contents(
    k: &mut Kernel,
    path: Vec<u8>,
    contents: Vec<u8>,
    writable: bool,
    append: bool,
) -> (r: u64)
    requires
        old(k).wf(),
    ensures
        final(k).wf(),
        contents_opened(old(k)@, final(k)@, path@, contents@, writable, append, r),
{
    open_contents(k, path, contents, writable, append)
}

} // verus!
