//! System calls that both kinds of programs have.
use vstd::prelude::*;

use crate::bytes::{self, copy_range, get_be16, get_be32, get_le16, get_le64, push_le32, push_le64};
use crate::network::TcpConnection;
use crate::paging::{Machine, MachineView};
use crate::scheduler::{FileView, SchedulerView, Shared};
use crate::scheduler::channels::{
    self, can_mutate_path, connect_socket_current, ipc_receive_current, ipc_revoke_current,
    ipc_send_current,
};
use crate::scheduler::descriptors::{open_ipc_pair_current, open_pipe_current, open_socket_current};
use crate::scheduler::io::{self, close_current, seek_current};
use crate::scheduler::lifecycle::{self, wait_child_current};
use crate::scheduler::signals::{self, kill_process};
use crate::scheduler::transfer::{self, duplicate_current, duplicate_to_current, stat_current};
use crate::store::Store;
use crate::syscall::{
    self, value_or_error, Change, ChangeView, CpuLocal, Kernel, KernelView, Launch, LaunchView,
    SYSCALL_ERROR, SYSCALL_RETURN_WAIT, SYSCALL_WOULD_BLOCK, Step, StepView,
};
use crate::syscall::files::{self, user_path};
use crate::syscall::memory::{self, copy_cstring, copy_from_user, copy_to_user};

verus! {

/// The program's answer: bytes written where it asked for them, then zero.
pub open spec fn answered(k: KernelView, pointer: u64, bytes: Seq<u8>, value: u64) -> (KernelView, u64) {
    let (m, ok) = memory::given(k.machine, pointer, bytes, 0);
    (
        KernelView { machine: m, ..k },
        if ok {
            value
        } else {
            SYSCALL_ERROR
        },
    )
}

pub(crate) fn answer(k: &mut Kernel, pointer: u64, bytes: &[u8], value: u64) -> (r: u64)
    requires
        old(k).wf(),
    ensures
        final(k).wf(),
        (final(k)@, r) == answered(old(k)@, pointer, bytes@, value),
{
    if copy_to_user(&mut k.machine, pointer, bytes) {
        value
    } else {
        SYSCALL_ERROR
    }
}

// ---------------------------------------------------------------------------
// Descriptors
// ---------------------------------------------------------------------------
pub open spec fn user_close(k: KernelView, fd: u64) -> (KernelView, StepView) {
    match k.scheduler {
        None => (k, syscall::refused()),
        Some(s) => match io::closed(s, fd) {
            None => (k, syscall::refused()),
            Some((s1, connection)) => (
                k.with_scheduler(s1),
                match connection {
                    None => StepView::Done(0),
                    Some(connection) => StepView::Disconnect { connection },
                },
            ),
        },
    }
}

pub fn close_user(k: &mut Kernel, fd: u64) -> (r: Step)
    requires
        old(k).wf(),
    ensures
        final(k).wf(),
        (final(k)@, r@) == user_close(old(k)@, fd),
{
    match close_current(&mut k.scheduler, fd) {
        Err(()) => Step::Done(SYSCALL_ERROR),
        Ok(None) => Step::Done(0),
        Ok(Some(connection)) => Step::Disconnect { connection },
    }
}

pub open spec fn user_seek(k: KernelView, fd: u64, offset: i64, whence: u64) -> (KernelView, u64) {
    match io::readable_file(k.scheduler, fd) {
        None => (k, SYSCALL_ERROR),
        Some(f) => {
            let s = k.scheduler->0;
            let file = s.objects.files[f as int];
            match io::sought(file, offset, whence) {
                None => (k, SYSCALL_ERROR),
                Some(position) => (
                    k.with_scheduler(io::with_file(s, f, FileView { offset: position, ..file })),
                    position as u64,
                ),
            }
        },
    }
}

pub fn seek_user(k: &mut Kernel, fd: u64, offset: i64, whence: u64) -> (r: u64)
    requires
        old(k).wf(),
    ensures
        final(k).wf(),
        (final(k)@, r) == user_seek(old(k)@, fd, offset, whence),
{
    let r = seek_current(&mut k.scheduler, fd, offset, whence);
    value_or_error(r)
}

pub open spec fn user_duplicate(k: KernelView, fd: u64) -> (KernelView, u64) {
    match k.scheduler {
        None => (k, SYSCALL_ERROR),
        Some(s) => match transfer::duplicated(s, fd) {
            None => (k, SYSCALL_ERROR),
            Some((s1, n)) => (k.with_scheduler(s1), n),
        },
    }
}

pub fn duplicate_legacy_user(k: &mut Kernel, fd: u64) -> (r: u64)
    requires
        old(k).wf(),
    ensures
        final(k).wf(),
        (final(k)@, r) == user_duplicate(old(k)@, fd),
{
    let r = duplicate_current(&mut k.scheduler, fd);
    value_or_error(r)
}

pub open spec fn user_duplicate_to(k: KernelView, from: u64, to: u64) -> (KernelView, u64) {
    match k.scheduler {
        None => (k, SYSCALL_ERROR),
        Some(s) => match transfer::duplicated_to(s, from, to) {
            None => (k, SYSCALL_ERROR),
            Some(s1) => (k.with_scheduler(s1), to),
        },
    }
}

pub fn duplicate_to_user(k: &mut Kernel, from: u64, to: u64) -> (r: u64)
    requires
        old(k).wf(),
    ensures
        final(k).wf(),
        (final(k)@, r) == user_duplicate_to(old(k)@, from, to),
{
    let r = duplicate_to_current(&mut k.scheduler, from, to);
    value_or_error(r)
}

/// What a native program is told of a file: its size and its kind.
pub open spec fn user_stat(k: KernelView, fd: u64, pointer: u64) -> (KernelView, u64) {
    match file_described(k.scheduler, fd) {
        None => (k, SYSCALL_ERROR),
        Some((length, mode)) => answered(k, pointer, bytes::le64_bytes(length) + bytes::le64_bytes(mode), 0),
    }
}

pub open spec fn file_described(s: Option<SchedulerView>, fd: u64) -> Option<(u64, u64)> {
    match crate::scheduler::descriptors::descriptor_in(s, fd) {
        None => None,
        Some(d) => if !d.rights.has(crate::abi::Rights(1)) {
            None
        } else {
            match d.resource {
                crate::scheduler::DescriptorResource::File(f) => Some(
                    (s->0.objects.files[f as int].contents.len() as u64, 0o100644),
                ),
                crate::scheduler::DescriptorResource::Directory(_) => Some((0, 0o040755)),
                _ => None,
            }
        },
    }
}

pub fn fstat_user(k: &mut Kernel, fd: u64, pointer: u64) -> (r: u64)
    requires
        old(k).wf(),
    ensures
        final(k).wf(),
        (final(k)@, r) == user_stat(old(k)@, fd, pointer),
{
    match stat_current(&k.scheduler, fd) {
        Err(()) => SYSCALL_ERROR,
        Ok((length, mode)) => {
            let mut stat: Vec<u8> = Vec::new();
            push_le64(&mut stat, length);
            push_le64(&mut stat, mode);
            assert(stat@ =~= bytes::le64_bytes(length) + bytes::le64_bytes(mode));
            answer(k, pointer, stat.as_slice(), 0)
        },
    }
}

/// Tells a program of the interface that it uses; `info` is what it is told.
pub fn abi_info_user(k: &mut Kernel, pointer: u64, length: u64, info: &[u8]) -> (r: u64)
    requires
        old(k).wf(),
    ensures
        final(k).wf(),
        (final(k)@, r) == if length < info@.len() {
            (old(k)@, SYSCALL_ERROR)
        } else {
            answered(old(k)@, pointer, info@, 0)
        },
{
    assert(info@.len() == info.len());
    if length < info.len() as u64 {
        return SYSCALL_ERROR;
    }
    answer(k, pointer, info, 0)
}

/// Two numbers of descriptors, as a program gets them.
pub open spec fn two_numbers(a: u64, b: u64) -> Seq<u8> {
    bytes::le32_bytes((a % 0x1_0000_0000) as u32) + bytes::le32_bytes((b % 0x1_0000_0000) as u32)
}

fn pair_bytes(a: u64, b: u64) -> (r: Vec<u8>)
    ensures
        r@ == two_numbers(a, b),
{
    let mut bytes: Vec<u8> = Vec::new();
    push_le32(&mut bytes, (a % 0x1_0000_0000) as u32);
    push_le32(&mut bytes, (b % 0x1_0000_0000) as u32);
    assert(bytes@ =~= two_numbers(a, b));
    bytes
}

/// Whether the flags of a pipe are those that are known: close on exec, do not
/// block, and direct.
pub open spec fn pipe_flags_ok(flags: u64) -> bool {
    flags & !0x8_4800u64 == 0
}

/// Opens a pipe and tells the program its two numbers.
pub fn pipe_user(k: &mut Kernel, pointer: u64, flags: u64) -> (r: u64)
    requires
        old(k).wf(),
    ensures
        final(k).wf(),
        !pipe_flags_ok(flags) ==> r == SYSCALL_ERROR && final(k)@ == old(k)@,
        pipe_flags_ok(flags) ==> exists|k1: KernelView, pair: Result<(u64, u64), ()>| #[trigger]
            pipe_opened(old(k)@, k1, pair) && (final(k)@, r) == match pair {
                Err(_) => (k1, SYSCALL_ERROR),
                Ok((a, b)) => answered(k1, pointer, two_numbers(a, b), 0),
            },
{
    if flags & !0x8_4800u64 != 0 {
        return SYSCALL_ERROR;
    }
    let pair = open_pipe_current(&mut k.scheduler, &mut k.shared);
    assert(pipe_opened(old(k)@, k@, pair));
    match pair {
        Err(()) => SYSCALL_ERROR,
        Ok((reader, writer)) => {
            let bytes = pair_bytes(reader, writer);
            answer(k, pointer, bytes.as_slice(), 0)
        },
    }
}

/// A pipe opened in a kernel, with these numbers.
pub open spec fn pipe_opened(before: KernelView, after: KernelView, pair: Result<(u64, u64), ()>) -> bool {
    &&& after.machine == before.machine
    &&& after.cpu == before.cpu
    &&& after.shared == crate::scheduler::descriptors::capabilities_taken(
        Shared {
            next_pipe_id: crate::scheduler::after(before.shared.next_pipe_id),
            ..before.shared
        },
        before.scheduler,
    )
    &&& match before.scheduler {
        None => pair is Err && after.scheduler is None,
        Some(s) => {
            let o = s.objects;
            let n = o.pipes.len() as usize;
            let slot = before.shared.next_capability_slot;
            let (s1, result) = crate::scheduler::descriptors::pair_opened(
                s,
                crate::scheduler::ObjectsView {
                    pipes: o.pipes.push(
                        crate::scheduler::PipeView {
                            id: before.shared.next_pipe_id,
                            bytes: Seq::empty(),
                            writer_open: true,
                        },
                    ),
                    ..o
                },
                crate::scheduler::FileDescriptor {
                    capability: crate::scheduler::capability(slot),
                    rights: crate::abi::Rights(1u32 | 8u32),
                    resource: crate::scheduler::DescriptorResource::PipeRead(n),
                },
                crate::scheduler::FileDescriptor {
                    capability: crate::scheduler::capability(crate::scheduler::after(slot)),
                    rights: crate::abi::Rights(2u32 | 8u32),
                    resource: crate::scheduler::DescriptorResource::PipeWrite(n),
                },
            );
            after.scheduler == Some(s1) && pair == result
        },
    }
}

// ---------------------------------------------------------------------------
// Channels
// ---------------------------------------------------------------------------
/// A channel opened in a kernel, with these numbers.
pub open spec fn channel_opened(before: KernelView, after: KernelView, pair: Result<(u64, u64), ()>) -> bool {
    &&& after.machine == before.machine
    &&& after.cpu == before.cpu
    &&& after.shared == crate::scheduler::descriptors::capabilities_taken(
        Shared {
            next_ipc_id: crate::scheduler::after(before.shared.next_ipc_id),
            ..before.shared
        },
        before.scheduler,
    )
    &&& match before.scheduler {
        None => pair is Err && after.scheduler is None,
        Some(s) => {
            let o = s.objects;
            let n = o.channels.len() as usize;
            let slot = before.shared.next_capability_slot;
            let (s1, result) = crate::scheduler::descriptors::pair_opened(
                s,
                crate::scheduler::ObjectsView {
                    channels: o.channels.push(
                        crate::scheduler::ChannelView {
                            id: before.shared.next_ipc_id,
                            queue: Seq::empty(),
                            revoked: false,
                        },
                    ),
                    ..o
                },
                crate::scheduler::FileDescriptor {
                    capability: crate::scheduler::capability(slot),
                    rights: crate::abi::Rights(2u32 | 8u32),
                    resource: crate::scheduler::DescriptorResource::Ipc { channel: n, send: true },
                },
                crate::scheduler::FileDescriptor {
                    capability: crate::scheduler::capability(crate::scheduler::after(slot)),
                    rights: crate::abi::Rights(1u32 | 8u32),
                    resource: crate::scheduler::DescriptorResource::Ipc { channel: n, send: false },
                },
            );
            after.scheduler == Some(s1) && pair == result
        },
    }
}

pub fn ipc_pair_user(k: &mut Kernel, pointer: u64) -> (r: u64)
    requires
        old(k).wf(),
    ensures
        final(k).wf(),
        exists|k1: KernelView, pair: Result<(u64, u64), ()>| #[trigger]
            channel_opened(old(k)@, k1, pair) && (final(k)@, r) == match pair {
                Err(_) => (k1, SYSCALL_ERROR),
                Ok((a, b)) => answered(k1, pointer, two_numbers(a, b), 0),
            },
{
    let pair = open_ipc_pair_current(&mut k.scheduler, &mut k.shared);
    assert(channel_opened(old(k)@, k@, pair));
    match pair {
        Err(()) => SYSCALL_ERROR,
        Ok((sender, receiver)) => {
            let bytes = pair_bytes(sender, receiver);
            answer(k, pointer, bytes.as_slice(), 0)
        },
    }
}

pub open spec fn user_send(k: KernelView, fd: u64, pointer: u64, length: u64) -> (KernelView, u64) {
    if length > 256 {
        (k, SYSCALL_ERROR)
    } else {
        match memory::taken(k.machine, pointer, length) {
            None => (k, SYSCALL_ERROR),
            Some(bytes) => match channels::sent(k.scheduler, fd, bytes) {
                None => (k, SYSCALL_ERROR),
                Some(s) => (k.with_scheduler(s), length),
            },
        }
    }
}

pub fn ipc_send_user(k: &mut Kernel, fd: u64, pointer: u64, length: u64) -> (r: u64)
    requires
        old(k).wf(),
    ensures
        final(k).wf(),
        (final(k)@, r) == user_send(old(k)@, fd, pointer, length),
{
    if length > 256 {
        return SYSCALL_ERROR;
    }
    match copy_from_user(&k.machine, pointer, length) {
        None => SYSCALL_ERROR,
        Some(bytes) => match ipc_send_current(&mut k.scheduler, fd, bytes.as_slice()) {
            Ok(()) => length,
            Err(()) => SYSCALL_ERROR,
        },
    }
}

/// A message received, cut to the program's room. Without one the call would
/// block.
pub open spec fn user_receive(k: KernelView, fd: u64, pointer: u64, length: u64) -> (
    KernelView,
    u64,
) {
    if length > 256 {
        (k, SYSCALL_ERROR)
    } else {
        match channels::received(k.scheduler, fd) {
            None => (k, SYSCALL_ERROR),
            Some((s, None)) => (
                KernelView {
                    cpu: CpuLocal { block_descriptor: fd, ..k.cpu },
                    ..k.with_scheduler(s)
                },
                SYSCALL_WOULD_BLOCK,
            ),
            Some((s, Some(bytes))) => {
                let n = if bytes.len() <= length {
                    bytes.len() as int
                } else {
                    length as int
                };
                answered(k.with_scheduler(s), pointer, bytes.take(n), n as u64)
            },
        }
    }
}

pub fn ipc_recv_user(k: &mut Kernel, fd: u64, pointer: u64, length: u64) -> (r: u64)
    requires
        old(k).wf(),
    ensures
        final(k).wf(),
        (final(k)@, r) == user_receive(old(k)@, fd, pointer, length),
{
    if length > 256 {
        return SYSCALL_ERROR;
    }
    match ipc_receive_current(&mut k.scheduler, fd) {
        Err(()) => SYSCALL_ERROR,
        Ok(None) => {
            k.cpu.block_descriptor = fd;
            SYSCALL_WOULD_BLOCK
        },
        Ok(Some(bytes)) => {
            assert(bytes@.len() == bytes.len());
            let n: usize = if bytes.len() as u64 <= length {
                bytes.len()
            } else {
                length as usize
            };
            let part = copy_range(bytes.as_slice(), 0, n);
            assert(part@ =~= bytes@.take(n as int));
            answer(k, pointer, part.as_slice(), n as u64)
        },
    }
}

pub open spec fn user_revoke(k: KernelView, fd: u64) -> (KernelView, u64) {
    match channels::revoked(k.scheduler, fd) {
        None => (k, SYSCALL_ERROR),
        Some(s) => (k.with_scheduler(s), 0),
    }
}

pub fn ipc_revoke_user(k: &mut Kernel, fd: u64) -> (r: u64)
    requires
        old(k).wf(),
    ensures
        final(k).wf(),
        (final(k)@, r) == user_revoke(old(k)@, fd),
{
    match ipc_revoke_current(&mut k.scheduler, fd) {
        Ok(()) => 0,
        Err(()) => SYSCALL_ERROR,
    }
}

// ---------------------------------------------------------------------------
// Sockets
// ---------------------------------------------------------------------------
/// Opens a socket: only streams over the internet protocol.
pub fn socket_user(k: &mut Kernel, domain: u64, socket_type: u64, protocol: u64) -> (r: u64)
    requires
        old(k).wf(),
    ensures
        final(k).wf(),
        domain != 2 || socket_type != 1 || protocol != 0 ==> r == SYSCALL_ERROR && final(k)@ == old(
            k,
        )@,
        domain == 2 && socket_type == 1 && protocol == 0 ==> {
            let o = crate::scheduler::descriptors::objects_of(old(k)@.scheduler);
            &&& final(k)@.machine == old(k)@.machine
            &&& final(k)@.cpu == old(k)@.cpu
            &&& crate::scheduler::descriptors::took_capability(
                old(k)@.shared,
                final(k)@.shared,
                old(k)@.scheduler,
            )
            &&& exists|result: Result<u64, ()>|
                r == syscall::or_error(result) && #[trigger] crate::scheduler::descriptors::opens(
                    old(k)@.scheduler,
                    final(k)@.scheduler,
                    crate::scheduler::ObjectsView {
                        sockets: o.sockets.push(
                            crate::scheduler::OpenSocket { connection: None },
                        ),
                        ..o
                    },
                    crate::scheduler::FileDescriptor {
                        capability: crate::scheduler::capability(
                            old(k)@.shared.next_capability_slot,
                        ),
                        rights: crate::abi::Rights(((1u32 | 2u32) | 8u32) | 128u32),
                        resource: crate::scheduler::DescriptorResource::Socket(
                            o.sockets.len() as usize,
                        ),
                    },
                    result,
                )
        },
{
    if domain != 2 || socket_type != 1 || protocol != 0 {
        return SYSCALL_ERROR;
    }
    let result = open_socket_current(&mut k.scheduler, &mut k.shared);
    value_or_error(result)
}

/// Where a program wants to connect to: an internet address and a port.
pub open spec fn user_connect(k: KernelView, fd: u64, pointer: u64, length: u64) -> StepView {
    if length != 16 {
        syscall::refused()
    } else {
        match memory::taken(k.machine, pointer, length) {
            None => syscall::refused(),
            Some(bytes) => if bytes::le16_at(bytes, 0) != 2 {
                syscall::refused()
            } else if channels::unconnected(k.scheduler, fd) is None {
                syscall::refused()
            } else {
                StepView::Connect {
                    fd,
                    address: bytes::be32_at(bytes, 4) as u32,
                    port: bytes::be16_at(bytes, 2) as u16,
                }
            },
        }
    }
}

pub fn connect_user(k: &Kernel, fd: u64, pointer: u64, length: u64) -> (r: Step)
    requires
        k.wf(),
    ensures
        r@ == user_connect(k@, fd, pointer, length),
{
    if length != 16 {
        return Step::Done(SYSCALL_ERROR);
    }
    match copy_from_user(&k.machine, pointer, length) {
        None => Step::Done(SYSCALL_ERROR),
        Some(bytes) => {
            if get_le16(bytes.as_slice(), 0) != 2 {
                return Step::Done(SYSCALL_ERROR);
            }
            if crate::scheduler::channels::socket_to_connect(&k.scheduler, fd).is_none() {
                return Step::Done(SYSCALL_ERROR);
            }
            Step::Connect {
                fd,
                address: get_be32(bytes.as_slice(), 4),
                port: get_be16(bytes.as_slice(), 2),
            }
        },
    }
}

/// How connecting goes on when the connection was made, or was not.
pub fn connect_answered(k: &mut Kernel, fd: u64, connection: Option<TcpConnection>) -> (r: u64)
    requires
        old(k).wf(),
    ensures
        final(k).wf(),
        match (channels::unconnected(old(k)@.scheduler, fd), connection) {
            (Some(n), Some(c)) => {
                let s = old(k)@.scheduler->0;
                &&& r == 0
                &&& final(k)@ == old(k)@.with_scheduler(
                    s.with_objects(
                        crate::scheduler::ObjectsView {
                            sockets: s.objects.sockets.update(
                                n as int,
                                crate::scheduler::OpenSocket { connection: Some(c) },
                            ),
                            ..s.objects
                        },
                    ),
                )
            },
            _ => r == SYSCALL_ERROR && final(k)@ == old(k)@,
        },
{
    match connect_socket_current(&mut k.scheduler, fd, connection) {
        Ok(()) => 0,
        Err(()) => SYSCALL_ERROR,
    }
}

// ---------------------------------------------------------------------------
// Paths
// ---------------------------------------------------------------------------
/// A change of what is at a path: operation zero makes a directory, one
/// removes, and anything else is the place of the new path. Both paths must be
/// ones that the program may change.
pub open spec fn user_change(
    k: KernelView,
    pointer: u64,
    length: u64,
    operation: u64,
    new_length: u64,
) -> StepView {
    match files::path_at(k.machine, pointer, length) {
        None => syscall::refused(),
        Some(path) => if !channels::may_mutate(k.scheduler, path) {
            syscall::refused()
        } else if operation == 0 {
            StepView::Change(ChangeView::CreateDirectory { path })
        } else if operation == 1 {
            StepView::Change(ChangeView::Remove { path })
        } else {
            match files::path_at(k.machine, operation, new_length) {
                None => syscall::refused(),
                Some(to) => if channels::may_mutate(k.scheduler, to) {
                    StepView::Change(ChangeView::Rename { from: path, to })
                } else {
                    syscall::refused()
                },
            }
        },
    }
}

pub fn path_mutation_user(
    k: &Kernel,
    old_pointer: u64,
    old_length: u64,
    operation: u64,
    new_length: u64,
) -> (r: Step)
    requires
        k.wf(),
    ensures
        r@ == user_change(k@, old_pointer, old_length, operation, new_length),
{
    let path = match user_path(&k.machine, old_pointer, old_length) {
        None => {
            return Step::Done(SYSCALL_ERROR);
        },
        Some(path) => path,
    };
    if !can_mutate_path(&k.scheduler, path.as_slice()) {
        return Step::Done(SYSCALL_ERROR);
    }
    match operation {
        0 => Step::Change(Change::CreateDirectory { path }),
        1 => Step::Change(Change::Remove { path }),
        _ => match user_path(&k.machine, operation, new_length) {
            None => Step::Done(SYSCALL_ERROR),
            Some(to) => {
                if can_mutate_path(&k.scheduler, to.as_slice()) {
                    Step::Change(Change::Rename { from: path, to })
                } else {
                    Step::Done(SYSCALL_ERROR)
                }
            },
        },
    }
}

/// What a program gets when something outside was tried that gives no value.
pub fn change_answered(ok: bool) -> (r: u64)
    ensures
        r == if ok {
            0
        } else {
            SYSCALL_ERROR
        },
{
    if ok {
        0
    } else {
        SYSCALL_ERROR
    }
}

// ---------------------------------------------------------------------------
// Programs
// ---------------------------------------------------------------------------
pub fn spawn_legacy_user(k: &Kernel, pointer: u64, length: u64) -> (r: Step)
    ensures
        r@ == (match files::path_at(k@.machine, pointer, length) {
            None => syscall::refused(),
            Some(path) => StepView::Spawn { path },
        }),
{
    match user_path(&k.machine, pointer, length) {
        None => Step::Done(SYSCALL_ERROR),
        Some(path) => Step::Spawn { path },
    }
}

/// Texts of a table of pointers, from the `i`-th on.
pub open spec fn texts_at(m: MachineView, table: u64, count: int, limit: int, i: int) -> Option<
    Seq<Seq<u8>>,
>
    decreases count - i,
{
    if i < 0 || i >= count {
        Some(Seq::empty())
    } else if table + i * 8 > u64::MAX {
        None
    } else {
        match memory::taken(m, (table + i * 8) as u64, 8) {
            None => None,
            Some(bytes) => match (
                memory::text_at(m, bytes::le64_at(bytes, 0) as u64, limit, 0),
                texts_at(m, table, count, limit, i + 1),
            ) {
                (Some(text), Some(rest)) => Some(seq![text] + rest),
                _ => None,
            },
        }
    }
}

fn copy_texts(machine: &Machine, table: u64, count: u64, limit: u64) -> (r: Option<Store<Vec<u8>>>)
    requires
        count <= 16,
    ensures
        match r {
            Some(texts) => texts_at(machine@, table, count as int, limit as int, 0) == Some(
                texts@,
            ),
            None => texts_at(machine@, table, count as int, limit as int, 0) is None,
        },
{
    let mut texts: Store<Vec<u8>> = Store::new();
    let ghost goal = texts_at(machine@, table, count as int, limit as int, 0);
    let mut i: u64 = 0;
    proof {
        if goal is Some {
            assert(texts@ + goal->0 =~= goal->0);
        }
    }
    while i < count
        invariant
            i <= count <= 16,
            goal == texts_at(machine@, table, count as int, limit as int, 0),
            match texts_at(machine@, table, count as int, limit as int, i as int) {
                None => goal is None,
                Some(rest) => goal == Some(texts@ + rest),
            },
        decreases count - i,
    {
        if i * 8 > u64::MAX - table {
            return None;
        }
        let pointer: u64 = match copy_from_user(machine, table + i * 8, 8) {
            None => {
                return None;
            },
            Some(bytes) => get_le64(bytes.as_slice(), 0),
        };
        match copy_cstring(machine, pointer, limit) {
            None => {
                return None;
            },
            Some(text) => {
                let ghost before = texts@;
                let ghost shown = text@;
                let _ = texts.push(text);
                proof {
                    let rest = texts_at(machine@, table, count as int, limit as int, i + 1);
                    if rest is Some {
                        assert(before + (seq![shown] + rest->0) =~= texts@ + rest->0);
                    }
                }
            },
        }
        i += 1;
    }
    assert(texts@ + Seq::<Seq<u8>>::empty() =~= texts@);
    Some(texts)
}

pub open spec fn fewer(n: u64, limit: u64) -> u64 {
    if n <= limit {
        n
    } else {
        limit
    }
}

/// What a program asks to be started: a path, three descriptors, and
/// arguments and an environment where it gives them.
pub open spec fn user_launch(k: KernelView, pointer: u64, length: u64, stdio: u64, with_args: u64) -> StepView {
    let m = k.machine;
    let size = if with_args == 1 {
        40
    } else if with_args == 2 {
        56u64
    } else {
        24
    };
    match (files::path_at(m, pointer, length), memory::taken(m, stdio, size)) {
        (Some(path), Some(block)) => {
            let arguments = if with_args == 1 || with_args == 2 {
                texts_at(
                    m,
                    bytes::le64_at(block, 24) as u64,
                    fewer(bytes::le64_at(block, 32) as u64, 8) as int,
                    128,
                    0,
                )
            } else {
                Some(Seq::empty())
            };
            let environment = if with_args == 2 {
                texts_at(
                    m,
                    bytes::le64_at(block, 40) as u64,
                    fewer(bytes::le64_at(block, 48) as u64, 16) as int,
                    256,
                    0,
                )
            } else {
                Some(Seq::empty())
            };
            match (arguments, environment) {
                (Some(arguments), Some(environment)) => StepView::SpawnNative(
                    LaunchView {
                        path,
                        with_args,
                        arguments,
                        environment,
                        stdin: bytes::le64_at(block, 0) as u64,
                        stdout: bytes::le64_at(block, 8) as u64,
                        stderr: bytes::le64_at(block, 16) as u64,
                    },
                ),
                _ => syscall::refused(),
            }
        },
        _ => syscall::refused(),
    }
}

/// Finds out what a program asks to be started.
pub fn spawn_native_user(k: &Kernel, pointer: u64, length: u64, stdio_pointer: u64, with_args: u64) -> (r:
    Step)
    ensures
        r@ == user_launch(k@, pointer, length, stdio_pointer, with_args),
{
    let path = match user_path(&k.machine, pointer, length) {
        None => {
            return Step::Done(SYSCALL_ERROR);
        },
        Some(path) => path,
    };
    let size: u64 = match with_args {
        1 => 40,
        2 => 56,
        _ => 24,
    };
    let block = match copy_from_user(&k.machine, stdio_pointer, size) {
        None => {
            return Step::Done(SYSCALL_ERROR);
        },
        Some(block) => block,
    };
    let bytes = block.as_slice();
    let mut arguments: Store<Vec<u8>> = Store::new();
    let mut environment: Store<Vec<u8>> = Store::new();
    if with_args == 1 || with_args == 2 {
        let mut argc: u64 = get_le64(bytes, 32);
        if argc > 8 {
            argc = 8;
        }
        match copy_texts(&k.machine, get_le64(bytes, 24), argc, 128) {
            None => {
                return Step::Done(SYSCALL_ERROR);
            },
            Some(texts) => {
                arguments = texts;
            },
        }
        if with_args == 2 {
            let mut envc: u64 = get_le64(bytes, 48);
            if envc > 16 {
                envc = 16;
            }
            match copy_texts(&k.machine, get_le64(bytes, 40), envc, 256) {
                None => {
                    return Step::Done(SYSCALL_ERROR);
                },
                Some(texts) => {
                    environment = texts;
                },
            }
        }
    }
    Step::SpawnNative(
        Launch {
            path,
            with_args,
            arguments,
            environment,
            stdin: get_le64(bytes, 0),
            stdout: get_le64(bytes, 8),
            stderr: get_le64(bytes, 16),
        },
    )
}

/// `/compat/linux/`.
pub open spec fn linux_root() -> Seq<u8> {
    seq![47u8, 99, 111, 109, 112, 97, 116, 47, 108, 105, 110, 117, 120, 47]
}

/// Whether a program is one for Linux, by where it is.
pub open spec fn is_linux(path: Seq<u8>) -> bool {
    path.len() >= 14 && path.take(14) == linux_root()
}

pub fn is_linux_path(path: &[u8]) -> (r: bool)
    ensures
        r == is_linux(path@),
{
    let root: [u8; 14] = [47, 99, 111, 109, 112, 97, 116, 47, 108, 105, 110, 117, 120, 47];
    assert(root@ =~= linux_root());
    assert(path@.len() == path.len());
    if path.len() < 14 {
        return false;
    }
    let start = copy_range(path, 0, 14);
    assert(start@ =~= path@.take(14));
    crate::bytes::bytes_equal(start.as_slice(), root.as_slice())
}

// ---------------------------------------------------------------------------
// Children and signals
// ---------------------------------------------------------------------------
/// How a child ended, for a native program; one that has not is waited for.
pub open spec fn user_wait(k: KernelView, pid: u64) -> (KernelView, u64) {
    match k.scheduler {
        None => (k, SYSCALL_ERROR),
        Some(s) => match lifecycle::child_reaped(s, pid) {
            (s1, Err(_)) => (k.with_scheduler(s1), SYSCALL_ERROR),
            (s1, Ok(None)) => (k.with_scheduler(s1), SYSCALL_RETURN_WAIT),
            (s1, Ok(Some((_, code)))) => (k.with_scheduler(s1), code),
        },
    }
}

pub fn waitpid_user(k: &mut Kernel, pid: u64) -> (r: u64)
    requires
        old(k).wf(),
    ensures
        final(k).wf(),
        (final(k)@, r) == user_wait(old(k)@, pid),
{
    match wait_child_current(&mut k.scheduler, pid) {
        Ok(Some((_, code))) => code,
        Ok(None) => SYSCALL_RETURN_WAIT,
        Err(()) => SYSCALL_ERROR,
    }
}

pub open spec fn user_kill(k: KernelView, pid: u64, signal: u64) -> (KernelView, u64) {
    match k.scheduler {
        None => (k, SYSCALL_ERROR),
        Some(s) => match signals::process_signalled(k.machine, s, k.shared, pid, signal) {
            None => (k, SYSCALL_ERROR),
            Some((machine, s1, shared)) => (
                KernelView { machine, scheduler: Some(s1), shared, ..k },
                0,
            ),
        },
    }
}

pub fn kill_user(k: &mut Kernel, pid: u64, signal: u64) -> (r: u64)
    requires
        old(k).wf(),
    ensures
        final(k).wf(),
        (final(k)@, r) == user_kill(old(k)@, pid, signal),
{
    if signal > 64 {
        return SYSCALL_ERROR;
    }
    match kill_process(&mut k.machine, &mut k.scheduler, &mut k.shared, pid, signal) {
        Ok(()) => 0,
        Err(()) => SYSCALL_ERROR,
    }
}

/// What a program that played a sound is told: that all of it was taken.
pub fn audio_play_user(pointer: u64, length: u64) -> (r: u64)
    ensures
        r == length,
{
    length
}

} // verus!
