//! Other system calls of Linux programs.
use vstd::prelude::*;

use crate::bytes::{
    self, get_le16, get_le32, get_le64, push_all, push_le16, push_le32, push_le64, push_zeros,
};
use crate::linux;
use crate::paging::{AddressSpace, MachineView};
use crate::scheduler::{
    current_fs_base, set_current_fs_base, LinuxSigAction, ObjectsView, SchedulerView, Task,
};
use crate::scheduler::birth::{clone_task_current, CloneRequest};
use crate::scheduler::channels::{self, epoll_ctl_current, epoll_wait_current};
use crate::scheduler::lifecycle::{self, wait_child_current};
use crate::scheduler::signals::{
    self, current_blocked_mask, set_current_blocked_mask, set_signal_action, signal_action,
    UNBLOCKABLE_SIGNALS_MASK,
};
use crate::scheduler::switch::{self, futex_wake};
use crate::syscall::{
    self, clone_interrupt_context, user_context, CpuLocal, Kernel, KernelView, SYSCALL_ERROR,
    SYSCALL_RETURN_FUTEX_WAIT, SYSCALL_RETURN_WAIT, Step, StepView, USER_ADDRESS_LIMIT,
};
use crate::syscall::files::{self, read_user, write_user};
use crate::syscall::memory::{self, copy_from_user, copy_to_user};
use crate::syscall::native::{self, answer, duplicate_to_user};

verus! {

// ---------------------------------------------------------------------------
// What programs ask of the system
// ---------------------------------------------------------------------------
/// A text in a field of 65 bytes, with zeros behind it.
pub open spec fn field(text: Seq<u8>) -> Seq<u8> {
    text + bytes::zeros((65 - text.len()) as nat)
}

/// The names of the system.
pub open spec fn system_names() -> Seq<u8> {
    field(seq![76u8, 105, 110, 117, 120]) + field(seq![118u8, 97, 110, 116, 97]) + field(
        seq![54u8, 46, 49, 46, 48, 45, 118, 97, 110, 116, 97],
    ) + field(seq![35u8, 49, 32, 83, 77, 80]) + field(seq![120u8, 56, 54, 95, 54, 52]) + bytes::zeros(65)
}

fn push_field(v: &mut Vec<u8>, text: &[u8])
    requires
        text@.len() <= 65,
        old(v)@.len() <= 1000,
    ensures
        final(v)@ == old(v)@ + field(text@),
{
    assert(text@.len() == text.len());
    push_all(v, text);
    push_zeros(v, 65 - text.len());
    assert(v@ =~= old(v)@ + field(text@));
}

/// Tells the names of the system: Linux, vanta, 6.1.0-vanta, #1 SMP, x86_64.
pub fn linux_uname_user(k: &mut Kernel, pointer: u64) -> (r: u64)
    requires
        old(k).wf(),
    ensures
        final(k).wf(),
        (final(k)@, r) == native::answered(old(k)@, pointer, system_names(), 0),
{
    let sysname: [u8; 5] = [76, 105, 110, 117, 120];
    let nodename: [u8; 5] = [118, 97, 110, 116, 97];
    let release: [u8; 11] = [54, 46, 49, 46, 48, 45, 118, 97, 110, 116, 97];
    let version: [u8; 6] = [35, 49, 32, 83, 77, 80];
    let machine: [u8; 6] = [120, 56, 54, 95, 54, 52];
    assert(sysname@ =~= seq![76u8, 105, 110, 117, 120]);
    assert(nodename@ =~= seq![118u8, 97, 110, 116, 97]);
    assert(release@ =~= seq![54u8, 46, 49, 46, 48, 45, 118, 97, 110, 116, 97]);
    assert(version@ =~= seq![35u8, 49, 32, 83, 77, 80]);
    assert(machine@ =~= seq![120u8, 56, 54, 95, 54, 52]);
    let mut names: Vec<u8> = Vec::new();
    push_field(&mut names, sysname.as_slice());
    push_field(&mut names, nodename.as_slice());
    push_field(&mut names, release.as_slice());
    push_field(&mut names, version.as_slice());
    push_field(&mut names, machine.as_slice());
    push_zeros(&mut names, 65);
    assert(names@ =~= system_names());
    answer(k, pointer, names.as_slice(), 0)
}

/// `/home/vanta` and a zero.
pub open spec fn working_directory() -> Seq<u8> {
    seq![47u8, 104, 111, 109, 101, 47, 118, 97, 110, 116, 97, 0]
}

pub fn linux_getcwd_user(k: &mut Kernel, pointer: u64, size: u64) -> (r: u64)
    requires
        old(k).wf(),
    ensures
        final(k).wf(),
        (final(k)@, r) == if size < 12 {
            (old(k)@, SYSCALL_ERROR)
        } else {
            native::answered(old(k)@, pointer, working_directory(), pointer)
        },
{
    let cwd: [u8; 12] = [47, 104, 111, 109, 101, 47, 118, 97, 110, 116, 97, 0];
    assert(cwd@ =~= working_directory());
    if size < 12 {
        return SYSCALL_ERROR;
    }
    answer(k, pointer, cwd.as_slice(), pointer)
}

/// The time that programs are told: seconds, and nothing of the next.
pub open spec fn fixed_time() -> Seq<u8> {
    bytes::le64_bytes(1_700_000_000) + bytes::le64_bytes(0)
}

fn make_fixed_time() -> (r: Vec<u8>)
    ensures
        r@ == fixed_time(),
{
    let mut time: Vec<u8> = Vec::new();
    push_le64(&mut time, 1_700_000_000);
    push_le64(&mut time, 0);
    assert(time@ =~= fixed_time());
    time
}

pub fn linux_clock_gettime_user(k: &mut Kernel, clock_id: u64, pointer: u64) -> (r: u64)
    requires
        old(k).wf(),
    ensures
        final(k).wf(),
        (final(k)@, r) == native::answered(old(k)@, pointer, fixed_time(), 0),
{
    let time = make_fixed_time();
    answer(k, pointer, time.as_slice(), 0)
}

pub fn linux_gettimeofday_user(k: &mut Kernel, pointer: u64) -> (r: u64)
    requires
        old(k).wf(),
    ensures
        final(k).wf(),
        (final(k)@, r) == if pointer == 0 {
            (old(k)@, 0u64)
        } else {
            native::answered(old(k)@, pointer, fixed_time(), 0)
        },
{
    if pointer == 0 {
        return 0;
    }
    let time = make_fixed_time();
    answer(k, pointer, time.as_slice(), 0)
}

/// Gives bytes that stand for random ones, 256 at most.
pub fn linux_getrandom_user(k: &mut Kernel, pointer: u64, length: u64) -> (r: u64)
    requires
        old(k).wf(),
    ensures
        final(k).wf(),
        ({
            let n = if length <= 256 {
                length
            } else {
                256
            };
            (final(k)@, r) == native::answered(old(k)@, pointer, Seq::new(n as nat, |i: int| 0x5au8), n)
        }),
{
    let n: u64 = if length <= 256 {
        length
    } else {
        256
    };
    let mut bytes: Vec<u8> = Vec::new();
    let mut i: u64 = 0;
    while i < n
        invariant
            i <= n,
            bytes.len() == i,
            forall|j: int| 0 <= j < i ==> bytes@[j] == 0x5a,
        decreases n - i,
    {
        bytes.push(0x5a);
        i += 1;
    }
    assert(bytes@ =~= Seq::new(n as nat, |i: int| 0x5au8));
    answer(k, pointer, bytes.as_slice(), n)
}

/// What a descriptor is told to do.
pub open spec fn user_fcntl(k: KernelView, fd: u64, cmd: u64, arg: u64) -> (KernelView, u64) {
    if cmd == 0 || cmd == 1030 {
        native::user_duplicate_to(k, fd, arg)
    } else if cmd == 3 {
        (k, 2)
    } else {
        (k, 0)
    }
}

pub fn linux_fcntl_user(k: &mut Kernel, fd: u64, cmd: u64, arg: u64) -> (r: u64)
    requires
        old(k).wf(),
    ensures
        final(k).wf(),
        (final(k)@, r) == user_fcntl(old(k)@, fd, cmd, arg),
{
    match cmd {
        0 | 1030 => duplicate_to_user(k, fd, arg),
        3 => 2,
        _ => 0,
    }
}

/// The size of the terminal's window: 24 rows of 80.
pub open spec fn window_size() -> Seq<u8> {
    bytes::le16_bytes(24) + bytes::le16_bytes(80) + bytes::le16_bytes(0) + bytes::le16_bytes(0)
}

pub open spec fn user_ioctl(k: KernelView, request: u64, pointer: u64) -> (KernelView, u64) {
    if request == 0x5413 && pointer != 0 {
        (KernelView { machine: memory::given(k.machine, pointer, window_size(), 0).0, ..k }, 0)
    } else if request == 0x5401 && pointer != 0 {
        (KernelView { machine: memory::given(k.machine, pointer, bytes::zeros(60), 0).0, ..k }, 0)
    } else {
        (k, 0)
    }
}

pub fn linux_ioctl_user(k: &mut Kernel, request: u64, pointer: u64) -> (r: u64)
    requires
        old(k).wf(),
    ensures
        final(k).wf(),
        (final(k)@, r) == user_ioctl(old(k)@, request, pointer),
{
    if request == 0x5413 && pointer != 0 {
        let mut size: Vec<u8> = Vec::new();
        push_le16(&mut size, 24);
        push_le16(&mut size, 80);
        push_le16(&mut size, 0);
        push_le16(&mut size, 0);
        assert(size@ =~= window_size());
        let _ = copy_to_user(&mut k.machine, pointer, size.as_slice());
        return 0;
    }
    if request == 0x5401 && pointer != 0 {
        let mut termios: Vec<u8> = Vec::new();
        push_zeros(&mut termios, 60);
        assert(termios@ =~= bytes::zeros(60));
        let _ = copy_to_user(&mut k.machine, pointer, termios.as_slice());
        return 0;
    }
    0
}

// ---------------------------------------------------------------------------
// Several buffers at once
// ---------------------------------------------------------------------------
/// How a call on several buffers goes on: it has a value, or one of the
/// buffers, the `index`-th, waits for something outside.
pub enum Vectored {
    Finished(u64),
    Pending { index: u64, total: u64, length: u64, step: Step },
}

pub enum VectoredView {
    Finished(u64),
    Pending { index: u64, total: u64, length: u64, step: StepView },
}

impl View for Vectored {
    type V = VectoredView;

    open spec fn view(&self) -> VectoredView {
        match self {
            Vectored::Finished(value) => VectoredView::Finished(*value),
            Vectored::Pending { index, total, length, step } => VectoredView::Pending {
                index: *index,
                total: *total,
                length: *length,
                step: step@,
            },
        }
    }
}

/// The place and the length of a buffer.
pub open spec fn buffer_at(m: MachineView, table: u64, index: u64) -> Option<(u64, u64)> {
    if table + index * 16 > u64::MAX {
        None
    } else {
        match memory::taken(m, (table + index * 16) as u64, 16) {
            None => None,
            Some(bytes) => Some((bytes::le64_at(bytes, 0) as u64, bytes::le64_at(bytes, 8) as u64)),
        }
    }
}

fn get_buffer(k: &Kernel, table: u64, index: u64) -> (r: Option<(u64, u64)>)
    requires
        index < 16,
    ensures
        r == buffer_at(k@.machine, table, index),
{
    if index * 16 > u64::MAX - table {
        return None;
    }
    match copy_from_user(&k.machine, table + index * 16, 16) {
        None => None,
        Some(bytes) => Some((get_le64(bytes.as_slice(), 0), get_le64(bytes.as_slice(), 8))),
    }
}

pub open spec fn sum(a: u64, b: u64) -> u64 {
    if a + b > u64::MAX {
        (a + b - 0x1_0000_0000_0000_0000) as u64
    } else {
        (a + b) as u64
    }
}

/// What a call on several buffers ends with when one of them failed: what was
/// done before, if anything.
pub open spec fn cut_short(total: u64) -> u64 {
    if total > 0 {
        total
    } else {
        SYSCALL_ERROR
    }
}

/// Writing of the buffers from the `index`-th on.
pub open spec fn buffers_written(
    k: KernelView,
    fd: u64,
    table: u64,
    count: u64,
    index: u64,
    total: u64,
) -> (KernelView, VectoredView)
    decreases count - index,
{
    if index >= count {
        (k, VectoredView::Finished(total))
    } else {
        match buffer_at(k.machine, table, index) {
            None => (k, VectoredView::Finished(SYSCALL_ERROR)),
            Some((base, length)) => if length == 0 {
                buffers_written(k, fd, table, count, (index + 1) as u64, total)
            } else {
                let (k1, step) = files::user_write(k, fd, base, length);
                match step {
                    StepView::Done(value) => if value == SYSCALL_ERROR {
                        (k1, VectoredView::Finished(cut_short(total)))
                    } else {
                        buffers_written(
                            k1,
                            fd,
                            table,
                            count,
                            (index + 1) as u64,
                            sum(total, value),
                        )
                    },
                    _ => (k1, VectoredView::Pending { index, total, length, step }),
                }
            },
        }
    }
}

/// Writes buffers, from the `index`-th on.
pub fn linux_writev_user(k: &mut Kernel, fd: u64, table: u64, count: u64, index: u64, total: u64) -> (r:
    Vectored)
    requires
        old(k).wf(),
    ensures
        final(k).wf(),
        (final(k)@, r@) == if count > 16 {
            (old(k)@, VectoredView::Finished(SYSCALL_ERROR))
        } else {
            buffers_written(old(k)@, fd, table, count, index, total)
        },
{
    if count > 16 {
        return Vectored::Finished(SYSCALL_ERROR);
    }
    let ghost goal = buffers_written(k@, fd, table, count, index, total);
    let mut i: u64 = index;
    let mut sum_so_far: u64 = total;
    while i < count
        invariant
            count <= 16,
            k.wf(),
            goal == buffers_written(k@, fd, table, count, i, sum_so_far),
            goal == buffers_written(old(k)@, fd, table, count, index, total),
        decreases count - i,
    {
        let (base, length) = match get_buffer(k, table, i) {
            None => {
                return Vectored::Finished(SYSCALL_ERROR);
            },
            Some(b) => b,
        };
        if length != 0 {
            match write_user(k, fd, base, length) {
                Step::Done(value) => {
                    if value == SYSCALL_ERROR {
                        return Vectored::Finished(
                            if sum_so_far > 0 {
                                sum_so_far
                            } else {
                                SYSCALL_ERROR
                            },
                        );
                    }
                    sum_so_far = sum_so_far.wrapping_add(value);
                },
                step => {
                    return Vectored::Pending { index: i, total: sum_so_far, length, step };
                },
            }
        }
        i += 1;
    }
    Vectored::Finished(sum_so_far)
}

/// What one answered buffer means for a write: the new total, or the value
/// that the call ends with.
pub fn writev_answered(total: u64, value: u64) -> (r: Result<u64, u64>)
    ensures
        r == if value == SYSCALL_ERROR {
            Err::<u64, u64>(cut_short(total))
        } else {
            Ok(sum(total, value))
        },
{
    if value == SYSCALL_ERROR {
        Err(
            if total > 0 {
                total
            } else {
                SYSCALL_ERROR
            },
        )
    } else {
        Ok(total.wrapping_add(value))
    }
}

/// Reading into the buffers from the `index`-th on; one that is not filled is
/// the last.
pub open spec fn buffers_read(
    k: KernelView,
    fd: u64,
    table: u64,
    count: u64,
    index: u64,
    total: u64,
) -> (KernelView, VectoredView)
    decreases count - index,
{
    if index >= count {
        (k, VectoredView::Finished(total))
    } else {
        match buffer_at(k.machine, table, index) {
            None => (k, VectoredView::Finished(SYSCALL_ERROR)),
            Some((base, length)) => if length == 0 {
                buffers_read(k, fd, table, count, (index + 1) as u64, total)
            } else {
                let (k1, step) = files::user_read(k, fd, base, length);
                match step {
                    StepView::Done(value) => if value == SYSCALL_ERROR {
                        (k1, VectoredView::Finished(cut_short(total)))
                    } else if value < length {
                        (k1, VectoredView::Finished(sum(total, value)))
                    } else {
                        buffers_read(k1, fd, table, count, (index + 1) as u64, sum(total, value))
                    },
                    _ => (k1, VectoredView::Pending { index, total, length, step }),
                }
            },
        }
    }
}

/// Reads into buffers, from the `index`-th on.
pub fn linux_readv_user(k: &mut Kernel, fd: u64, table: u64, count: u64, index: u64, total: u64) -> (r:
    Vectored)
    requires
        old(k).wf(),
    ensures
        final(k).wf(),
        (final(k)@, r@) == if count > 16 {
            (old(k)@, VectoredView::Finished(SYSCALL_ERROR))
        } else {
            buffers_read(old(k)@, fd, table, count, index, total)
        },
{
    if count > 16 {
        return Vectored::Finished(SYSCALL_ERROR);
    }
    let ghost goal = buffers_read(k@, fd, table, count, index, total);
    let mut i: u64 = index;
    let mut sum_so_far: u64 = total;
    while i < count
        invariant
            count <= 16,
            k.wf(),
            goal == buffers_read(k@, fd, table, count, i, sum_so_far),
            goal == buffers_read(old(k)@, fd, table, count, index, total),
        decreases count - i,
    {
        let (base, length) = match get_buffer(k, table, i) {
            None => {
                return Vectored::Finished(SYSCALL_ERROR);
            },
            Some(b) => b,
        };
        if length != 0 {
            match read_user(k, fd, base, length) {
                Step::Done(value) => {
                    if value == SYSCALL_ERROR {
                        return Vectored::Finished(
                            if sum_so_far > 0 {
                                sum_so_far
                            } else {
                                SYSCALL_ERROR
                            },
                        );
                    }
                    sum_so_far = sum_so_far.wrapping_add(value);
                    if value < length {
                        return Vectored::Finished(sum_so_far);
                    }
                },
                step => {
                    return Vectored::Pending { index: i, total: sum_so_far, length, step };
                },
            }
        }
        i += 1;
    }
    Vectored::Finished(sum_so_far)
}

/// What one answered buffer means for a read: the new total, or the value that
/// the call ends with.
pub fn readv_answered(total: u64, value: u64, length: u64) -> (r: Result<u64, u64>)
    ensures
        r == if value == SYSCALL_ERROR {
            Err::<u64, u64>(cut_short(total))
        } else if value < length {
            Err(sum(total, value))
        } else {
            Ok(sum(total, value))
        },
{
    if value == SYSCALL_ERROR {
        return Err(
            if total > 0 {
                total
            } else {
                SYSCALL_ERROR
            },
        );
    }
    let total: u64 = total.wrapping_add(value);
    if value < length {
        Err(total)
    } else {
        Ok(total)
    }
}

// ---------------------------------------------------------------------------
// Tasks
// ---------------------------------------------------------------------------
/// How a child ended, for a Linux program: its number, and its status where
/// that was asked for.
pub open spec fn user_wait4(k: KernelView, pid: u64, status_pointer: u64) -> (KernelView, u64) {
    let target = if pid == 0 {
        u64::MAX
    } else {
        pid
    };
    match k.scheduler {
        None => (k, SYSCALL_ERROR),
        Some(s) => match lifecycle::child_reaped(s, target) {
            (s1, Err(_)) => (k.with_scheduler(s1), SYSCALL_ERROR),
            (s1, Ok(None)) => (k.with_scheduler(s1), SYSCALL_RETURN_WAIT),
            (s1, Ok(Some((child, code)))) => (
                KernelView {
                    machine: if status_pointer != 0 {
                        memory::given(k.machine, status_pointer, bytes::le32_bytes(lifecycle::exit_status(code)), 0).0
                    } else {
                        k.machine
                    },
                    ..k.with_scheduler(s1)
                },
                child,
            ),
        },
    }
}

pub fn linux_wait4_user(k: &mut Kernel, pid: u64, status_pointer: u64) -> (r: u64)
    requires
        old(k).wf(),
    ensures
        final(k).wf(),
        (final(k)@, r) == user_wait4(old(k)@, pid, status_pointer),
{
    let target: u64 = if pid == 0 {
        u64::MAX
    } else {
        pid
    };
    match wait_child_current(&mut k.scheduler, target) {
        Err(()) => SYSCALL_ERROR,
        Ok(None) => SYSCALL_RETURN_WAIT,
        Ok(Some((child, code))) => {
            if status_pointer != 0 {
                let mut status: Vec<u8> = Vec::new();
                push_le32(&mut status, (code % 256 * 256) as u32);
                assert(status@ =~= bytes::le32_bytes(lifecycle::exit_status(code)));
                let _ = copy_to_user(&mut k.machine, status_pointer, status.as_slice());
            }
            child
        },
    }
}

/// The request of a clone that a program gives as a block of memory.
pub open spec fn clone3_request(m: MachineView, pointer: u64, size: u64) -> Option<CloneRequest> {
    if pointer == 0 || size < 64 || pointer >= USER_ADDRESS_LIMIT {
        None
    } else {
        match memory::taken(
            m,
            pointer,
            if size <= 88 {
                size
            } else {
                88
            },
        ) {
            None => None,
            Some(bytes) => {
                let stack = bytes::le64_at(bytes, 40);
                let stack_size = bytes::le64_at(bytes, 48);
                Some(
                    CloneRequest {
                        flags: bytes::le64_at(bytes, 0) as u64,
                        child_stack: if stack + stack_size > u64::MAX {
                            u64::MAX
                        } else {
                            (stack + stack_size) as u64
                        },
                        parent_tidptr: bytes::le64_at(bytes, 24) as u64,
                        child_tidptr: bytes::le64_at(bytes, 16) as u64,
                        tls: bytes::le64_at(bytes, 56) as u64,
                    },
                )
            },
        }
    }
}

pub fn linux_clone3_user(k: &Kernel, pointer: u64, size: u64) -> (r: Option<CloneRequest>)
    ensures
        r == clone3_request(k@.machine, pointer, size),
{
    if pointer == 0 || size < 64 || pointer >= USER_ADDRESS_LIMIT {
        return None;
    }
    let length: u64 = if size <= 88 {
        size
    } else {
        88
    };
    match copy_from_user(&k.machine, pointer, length) {
        None => None,
        Some(bytes) => {
            let b = bytes.as_slice();
            let stack: u64 = get_le64(b, 40);
            let stack_size: u64 = get_le64(b, 48);
            Some(
                CloneRequest {
                    flags: get_le64(b, 0),
                    child_stack: stack.saturating_add(stack_size),
                    parent_tidptr: get_le64(b, 24),
                    child_tidptr: get_le64(b, 16),
                    tls: get_le64(b, 56),
                },
            )
        },
    }
}

/// How a clone goes on when its address space was copied, or need not be.
pub fn clone_answered(k: &mut Kernel, q: CloneRequest, copy: Result<AddressSpace, ()>) -> (r: Result<u64, ()>)
    requires
        old(k).wf(),
    ensures
        final(k).wf(),
        final(k).cpu == old(k).cpu,
        clone_done(old(k)@, final(k)@, q, copy, r),
{
    let context = user_context(&k.cpu.frame, k.cpu.user_rsp);
    let child_sp: u64 = if q.child_stack != 0 {
        q.child_stack
    } else {
        k.cpu.user_rsp
    };
    let interrupt = clone_interrupt_context(&k.cpu.frame, child_sp);
    clone_task_current(
        &mut k.machine,
        &mut k.scheduler,
        &mut k.shared,
        q,
        context,
        interrupt,
        copy,
    )
}

/// What cloning the running task comes to: the child goes on from the frame of
/// the call.
pub open spec fn clone_done(
    before: KernelView,
    after: KernelView,
    q: CloneRequest,
    copy: Result<AddressSpace, ()>,
    r: Result<u64, ()>,
) -> bool {
    let context = syscall::context_of(before.cpu.frame, before.cpu.user_rsp);
    let interrupt = syscall::child_registers(
        before.cpu.frame,
        if q.child_stack != 0 {
            q.child_stack
        } else {
            before.cpu.user_rsp
        },
    );
    match before.scheduler {
        None => r is Err && after == before,
        Some(s) => {
            let (machine, s1, shared, result) = crate::scheduler::birth::task_cloned(
                before.machine,
                s,
                before.shared,
                q,
                context,
                interrupt,
                copy,
            );
            &&& r == result
            &&& after == (KernelView { machine, scheduler: Some(s1), shared, ..before })
        },
    }
}

/// Waiting at a word until it is said to go on, and saying so.
pub open spec fn user_futex(k: KernelView, uaddr: u64, op: u64, val: u64, val3: u64) -> (
    KernelView,
    u64,
) {
    let cmd = ((op % 0x1_0000_0000) as u32) & linux::FUTEX_CMD_MASK;
    let low = (val % 0x1_0000_0000) as u32;
    let bitset = if cmd == linux::FUTEX_WAIT_BITSET || cmd == linux::FUTEX_WAKE_BITSET {
        (val3 % 0x1_0000_0000) as u32
    } else {
        linux::FUTEX_BITSET_MATCH_ANY
    };
    if uaddr == 0 || uaddr >= USER_ADDRESS_LIMIT {
        (k, SYSCALL_ERROR)
    } else if cmd == linux::FUTEX_WAIT || cmd == linux::FUTEX_WAIT_BITSET {
        match memory::taken(k.machine, uaddr, 4) {
            None => (k, SYSCALL_ERROR),
            Some(bytes) => if bytes::le32_at(bytes, 0) != low {
                (k, 0xffff_ffff_ffff_fff5)
            } else {
                (
                    KernelView {
                        cpu: CpuLocal { futex_uaddr: uaddr, futex_bitset: bitset, ..k.cpu },
                        ..k
                    },
                    SYSCALL_RETURN_FUTEX_WAIT,
                )
            },
        }
    } else if cmd == linux::FUTEX_WAKE || cmd == linux::FUTEX_WAKE_BITSET || cmd
        == linux::FUTEX_REQUEUE || cmd == linux::FUTEX_CHECKED_REQUEUE {
        match k.scheduler {
            None => (k, 0),
            Some(s) => {
                let (tasks, n) = switch::futex_woken(s.tasks, uaddr, low as int, bitset, 0);
                (k.with_scheduler(SchedulerView { tasks, ..s }), n as u64)
            },
        }
    } else {
        (k, SYSCALL_ERROR)
    }
}

pub fn linux_futex_user(k: &mut Kernel, uaddr: u64, op: u64, val: u64, val3: u64) -> (r: u64)
    requires
        old(k).wf(),
    ensures
        final(k).wf(),
        (final(k)@, r) == user_futex(old(k)@, uaddr, op, val, val3),
{
    if uaddr == 0 || uaddr >= USER_ADDRESS_LIMIT {
        return SYSCALL_ERROR;
    }
    let cmd: u32 = ((op % 0x1_0000_0000) as u32) & linux::FUTEX_CMD_MASK;
    let low: u32 = (val % 0x1_0000_0000) as u32;
    let bitset: u32 = if cmd == linux::FUTEX_WAIT_BITSET || cmd == linux::FUTEX_WAKE_BITSET {
        (val3 % 0x1_0000_0000) as u32
    } else {
        linux::FUTEX_BITSET_MATCH_ANY
    };
    match cmd {
        linux::FUTEX_WAIT | linux::FUTEX_WAIT_BITSET => match copy_from_user(
            &k.machine,
            uaddr,
            4,
        ) {
            None => SYSCALL_ERROR,
            Some(bytes) => {
                if get_le32(bytes.as_slice(), 0) != low {
                    return 0xffff_ffff_ffff_fff5;
                }
                k.cpu.futex_uaddr = uaddr;
                k.cpu.futex_bitset = bitset;
                SYSCALL_RETURN_FUTEX_WAIT
            },
        },
        linux::FUTEX_WAKE | linux::FUTEX_WAKE_BITSET | linux::FUTEX_REQUEUE
        | linux::FUTEX_CHECKED_REQUEUE => futex_wake(&mut k.scheduler, uaddr, low, bitset),
        _ => SYSCALL_ERROR,
    }
}

/// The bases of thread-local storage, set and told.
pub open spec fn user_arch(k: KernelView, code: u64, addr: u64) -> (KernelView, StepView) {
    if code == linux::ARCH_SET_FS {
        match k.scheduler {
            Some(s) => if addr >= USER_ADDRESS_LIMIT {
                (k, syscall::refused())
            } else {
                (
                    k.with_scheduler(s.with_current(Task { fs_base: addr, ..s.task() })),
                    StepView::SetFsBase { address: addr },
                )
            },
            None => (k, syscall::refused()),
        }
    } else if code == linux::ARCH_SET_GS {
        (k, StepView::Done(0))
    } else if code == linux::ARCH_GET_FS || code == linux::ARCH_GET_GS {
        if addr == 0 || addr >= USER_ADDRESS_LIMIT {
            (k, syscall::refused())
        } else {
            let base = match k.scheduler {
                Some(s) => if code == linux::ARCH_GET_FS {
                    s.task().fs_base
                } else {
                    0
                },
                None => 0,
            };
            let (k1, value) = native::answered(k, addr, bytes::le64_bytes(base), 0);
            (k1, StepView::Done(value))
        }
    } else {
        (k, syscall::refused())
    }
}

pub fn linux_arch_prctl_user(k: &mut Kernel, code: u64, addr: u64) -> (r: Step)
    requires
        old(k).wf(),
    ensures
        final(k).wf(),
        (final(k)@, r@) == user_arch(old(k)@, code, addr),
{
    match code {
        linux::ARCH_SET_FS => {
            if addr >= USER_ADDRESS_LIMIT {
                return Step::Done(SYSCALL_ERROR);
            }
            match set_current_fs_base(&mut k.scheduler, addr) {
                Ok(()) => Step::SetFsBase { address: addr },
                Err(()) => Step::Done(SYSCALL_ERROR),
            }
        },
        linux::ARCH_SET_GS => Step::Done(0),
        linux::ARCH_GET_FS | linux::ARCH_GET_GS => {
            if addr == 0 || addr >= USER_ADDRESS_LIMIT {
                return Step::Done(SYSCALL_ERROR);
            }
            let base: u64 = if code == linux::ARCH_GET_FS {
                current_fs_base(&k.scheduler)
            } else {
                0
            };
            let mut bytes: Vec<u8> = Vec::new();
            push_le64(&mut bytes, base);
            assert(bytes@ =~= bytes::le64_bytes(base));
            let value: u64 = answer(k, addr, bytes.as_slice(), 0);
            Step::Done(value)
        },
        _ => Step::Done(SYSCALL_ERROR),
    }
}

// ---------------------------------------------------------------------------
// Signals
// ---------------------------------------------------------------------------
/// An action as programs give and get it.
pub open spec fn action_bytes(a: LinuxSigAction) -> Seq<u8> {
    bytes::le64_bytes(a.sa_handler) + bytes::le64_bytes(a.sa_flags) + bytes::le64_bytes(a.sa_restorer) + bytes::le64_bytes(
        a.sa_mask,
    )
}

pub open spec fn action_at(bytes: Seq<u8>) -> LinuxSigAction {
    LinuxSigAction {
        sa_handler: bytes::le64_at(bytes, 0) as u64,
        sa_flags: bytes::le64_at(bytes, 8) as u64,
        sa_restorer: bytes::le64_at(bytes, 16) as u64,
        sa_mask: bytes::le64_at(bytes, 24) as u64,
    }
}

proof fn lemma_word_between(before: Seq<u8>, x: u64, after: Seq<u8>)
    ensures
        bytes::le64_at(before + bytes::le64_bytes(x) + after, before.len() as int) == x,
{
    crate::bytes::le_round_trip(before, after, 0, 0, x);
}

/// An action that a program is given is the one that it gives back.
#[verifier::spinoff_prover]
#[verifier::rlimit(60)]
pub proof fn law_action_round_trip(a: LinuxSigAction)
    ensures
        action_at(action_bytes(a)) == a,
{
    let b0 = bytes::le64_bytes(a.sa_handler);
    let b1 = bytes::le64_bytes(a.sa_flags);
    let b2 = bytes::le64_bytes(a.sa_restorer);
    let b3 = bytes::le64_bytes(a.sa_mask);
    let none = Seq::<u8>::empty();
    let all = action_bytes(a);
    assert(bytes::le64_at(all, 0) == a.sa_handler) by {
        assert(all =~= none + b0 + (b1 + b2 + b3));
        lemma_word_between(none, a.sa_handler, b1 + b2 + b3);
    }
    assert(bytes::le64_at(all, 8) == a.sa_flags) by {
        assert(all =~= b0 + b1 + (b2 + b3));
        lemma_word_between(b0, a.sa_flags, b2 + b3);
    }
    assert(bytes::le64_at(all, 16) == a.sa_restorer) by {
        assert(all =~= (b0 + b1) + b2 + b3);
        lemma_word_between(b0 + b1, a.sa_restorer, b3);
    }
    assert(bytes::le64_at(all, 24) == a.sa_mask) by {
        assert(all =~= (b0 + b1 + b2) + b3 + none);
        lemma_word_between(b0 + b1 + b2, a.sa_mask, none);
    }
}

/// An action of a signal told and set. Kill and stop cannot be set.
pub open spec fn user_action(k: KernelView, signal: u64, new: u64, old: u64, size: u64) -> (
    KernelView,
    u64,
) {
    if signal == 0 || signal > 64 || (size != 0 && size != 8) || (new != 0 && (signal == 9
        || signal == 19)) {
        (k, SYSCALL_ERROR)
    } else {
        match k.scheduler {
            None => (k, SYSCALL_ERROR),
            Some(s) => {
                let (k1, value) = if old != 0 {
                    native::answered(k, old, action_bytes(signals::actions_of(s)[signal as int]), 0)
                } else {
                    (k, 0u64)
                };
                if value == SYSCALL_ERROR || new == 0 {
                    (k1, value)
                } else {
                    match memory::taken(k1.machine, new, 32) {
                        None => (k1, SYSCALL_ERROR),
                        Some(bytes) => (
                            k1.with_scheduler(signals::with_action(s, signal, action_at(bytes))),
                            0,
                        ),
                    }
                }
            },
        }
    }
}

pub fn linux_rt_sigaction_user(k: &mut Kernel, signal: u64, new_action: u64, old_action: u64, sigsetsize: u64) -> (r:
    u64)
    requires
        old(k).wf(),
    ensures
        final(k).wf(),
        (final(k)@, r) == user_action(old(k)@, signal, new_action, old_action, sigsetsize),
{
    if signal == 0 || signal > 64 {
        return SYSCALL_ERROR;
    }
    if sigsetsize != 0 && sigsetsize != 8 {
        return SYSCALL_ERROR;
    }
    if new_action != 0 && (signal == 9 || signal == 19) {
        return SYSCALL_ERROR;
    }
    let before = match signal_action(&k.scheduler, signal) {
        None => {
            return SYSCALL_ERROR;
        },
        Some(action) => action,
    };
    if old_action != 0 {
        let mut bytes: Vec<u8> = Vec::new();
        push_le64(&mut bytes, before.sa_handler);
        push_le64(&mut bytes, before.sa_flags);
        push_le64(&mut bytes, before.sa_restorer);
        push_le64(&mut bytes, before.sa_mask);
        assert(bytes@ =~= action_bytes(before));
        if !copy_to_user(&mut k.machine, old_action, bytes.as_slice()) {
            return SYSCALL_ERROR;
        }
    }
    if new_action != 0 {
        let bytes = match copy_from_user(&k.machine, new_action, 32) {
            None => {
                return SYSCALL_ERROR;
            },
            Some(bytes) => bytes,
        };
        let b = bytes.as_slice();
        let action = LinuxSigAction {
            sa_handler: get_le64(b, 0),
            sa_flags: get_le64(b, 8),
            sa_restorer: get_le64(b, 16),
            sa_mask: get_le64(b, 24),
        };
        if set_signal_action(&mut k.scheduler, signal, action).is_err() {
            return SYSCALL_ERROR;
        }
    }
    0
}

/// What a set of blocked signals becomes: more, fewer, or others.
pub open spec fn masked(how: u64, current: u64, set: u64) -> Option<u64> {
    if how == 0 {
        Some(current | set)
    } else if how == 1 {
        Some(current & !set)
    } else if how == 2 {
        Some(set)
    } else {
        None
    }
}

pub open spec fn user_mask(k: KernelView, how: u64, new: u64, old: u64, size: u64) -> (
    KernelView,
    u64,
) {
    let current = match k.scheduler {
        Some(s) => s.task().blocked_mask,
        None => 0,
    };
    if size != 0 && size != 8 {
        (k, SYSCALL_ERROR)
    } else {
        let (k1, value) = if old != 0 {
            native::answered(k, old, bytes::le64_bytes(current), 0)
        } else {
            (k, 0u64)
        };
        if value == SYSCALL_ERROR || new == 0 {
            (k1, value)
        } else {
            match memory::taken(k1.machine, new, 8) {
                None => (k1, SYSCALL_ERROR),
                Some(bytes) => match masked(how, current, bytes::le64_at(bytes, 0) as u64) {
                    None => (k1, SYSCALL_ERROR),
                    Some(mask) => (
                        KernelView {
                            scheduler: match k.scheduler {
                                Some(s) => Some(
                                    s.with_current(
                                        Task {
                                            blocked_mask: signals::blockable(signals::blockable(mask)),
                                            ..s.task()
                                        },
                                    ),
                                ),
                                None => None,
                            },
                            ..k1
                        },
                        0,
                    ),
                },
            }
        }
    }
}

pub fn linux_rt_sigprocmask_user(
    k: &mut Kernel,
    how: u64,
    new_set_ptr: u64,
    old_set_ptr: u64,
    sigsetsize: u64,
) -> (r: u64)
    requires
        old(k).wf(),
    ensures
        final(k).wf(),
        (final(k)@, r) == user_mask(old(k)@, how, new_set_ptr, old_set_ptr, sigsetsize),
{
    if sigsetsize != 0 && sigsetsize != 8 {
        return SYSCALL_ERROR;
    }
    let current: u64 = current_blocked_mask(&k.scheduler);
    if old_set_ptr != 0 {
        let mut bytes: Vec<u8> = Vec::new();
        push_le64(&mut bytes, current);
        assert(bytes@ =~= bytes::le64_bytes(current));
        if !copy_to_user(&mut k.machine, old_set_ptr, bytes.as_slice()) {
            return SYSCALL_ERROR;
        }
    }
    if new_set_ptr != 0 {
        let set: u64 = match copy_from_user(&k.machine, new_set_ptr, 8) {
            None => {
                return SYSCALL_ERROR;
            },
            Some(bytes) => get_le64(bytes.as_slice(), 0),
        };
        let mask: u64 = match how {
            0 => current | set,
            1 => current & !set,
            2 => set,
            _ => {
                return SYSCALL_ERROR;
            },
        };
        set_current_blocked_mask(&mut k.scheduler, mask & !UNBLOCKABLE_SIGNALS_MASK);
    }
    0
}

// ---------------------------------------------------------------------------
// Events
// ---------------------------------------------------------------------------
/// Which descriptors are waited for, changed.
pub open spec fn user_control(k: KernelView, epfd: u64, op: u32, fd: u64, pointer: u64) -> (
    KernelView,
    u64,
) {
    let event = if op == linux::EPOLL_CTL_DEL {
        Some((0u32, 0u64))
    } else {
        match memory::taken(k.machine, pointer, 12) {
            None => None,
            Some(bytes) => Some((bytes::le32_at(bytes, 0) as u32, bytes::le64_at(bytes, 4) as u64)),
        }
    };
    match (event, channels::epoll_of(k.scheduler, epfd)) {
        (Some((events, data)), Some(n)) => {
            let s = k.scheduler->0;
            match channels::controlled(s.objects.epolls[n as int], op, fd, events, data) {
                None => (k, SYSCALL_ERROR),
                Some(items) => (
                    k.with_scheduler(
                        s.with_objects(
                            ObjectsView {
                                epolls: s.objects.epolls.update(n as int, items),
                                ..s.objects
                            },
                        ),
                    ),
                    0,
                ),
            }
        },
        _ => (k, SYSCALL_ERROR),
    }
}

pub fn linux_epoll_ctl_user(k: &mut Kernel, epfd: u64, op: u32, fd: u64, event_ptr: u64) -> (r: u64)
    requires
        old(k).wf(),
    ensures
        final(k).wf(),
        (final(k)@, r) == user_control(old(k)@, epfd, op, fd, event_ptr),
{
    let mut events: u32 = 0;
    let mut data: u64 = 0;
    if op != linux::EPOLL_CTL_DEL {
        match copy_from_user(&k.machine, event_ptr, 12) {
            None => {
                return SYSCALL_ERROR;
            },
            Some(bytes) => {
                events = get_le32(bytes.as_slice(), 0);
                data = get_le64(bytes.as_slice(), 4);
            },
        }
    }
    match epoll_ctl_current(&mut k.scheduler, epfd, op, fd, events, data) {
        Ok(()) => 0,
        Err(()) => SYSCALL_ERROR,
    }
}

/// Events as programs get them, from the `i`-th on.
pub open spec fn event_bytes(events: Seq<(u32, u64)>, n: int) -> Seq<u8>
    decreases n,
{
    if n <= 0 {
        Seq::empty()
    } else {
        let (e, data) = events[n - 1];
        event_bytes(events, n - 1) + bytes::le32_bytes(e) + bytes::le64_bytes(data)
    }
}

pub open spec fn user_events(k: KernelView, epfd: u64, pointer: u64, limit: usize) -> (
    KernelView,
    u64,
) {
    match channels::epoll_of(k.scheduler, epfd) {
        None => (k, SYSCALL_ERROR),
        Some(n) => {
            let s = k.scheduler->0;
            let found = channels::ready_items(s, s.objects.epolls[n as int], 0, limit as int);
            native::answered(
                k,
                pointer,
                event_bytes(found, found.len() as int),
                found.len() as u64,
            )
        },
    }
}

pub fn linux_epoll_wait_user(k: &mut Kernel, epfd: u64, events_ptr: u64, maxevents: usize) -> (r: u64)
    requires
        old(k).wf(),
    ensures
        final(k).wf(),
        (final(k)@, r) == user_events(old(k)@, epfd, events_ptr, maxevents),
{
    match epoll_wait_current(&k.scheduler, epfd, maxevents) {
        Err(()) => SYSCALL_ERROR,
        Ok(found) => {
            assert(found@.len() == found.len());
            let mut bytes: Vec<u8> = Vec::new();
            let mut i: usize = 0;
            assert(bytes@ =~= Seq::<u8>::empty());
            while i < found.len()
                invariant
                    i <= found.len(),
                    bytes@ == event_bytes(found@, i as int),
                decreases found.len() - i,
            {
                let (e, data) = found[i];
                push_le32(&mut bytes, e);
                push_le64(&mut bytes, data);
                i += 1;
            }
            answer(k, events_ptr, bytes.as_slice(), found.len() as u64)
        },
    }
}

/// What an entry of a poll comes to: all that it asks for, of reading and
/// writing, unless its descriptor is negative.
pub open spec fn polled(fd: u32, events: u16) -> u16 {
    if fd >= 0x8000_0000 {
        0
    } else {
        (events % 2 + 4 * (events / 4 % 2)) as u16
    }
}

/// The entries of a poll, answered, and how many of them have something.
pub open spec fn poll_answer(bytes: Seq<u8>, n: int) -> (Seq<u8>, int)
    decreases n,
{
    if n <= 0 {
        (Seq::empty(), 0)
    } else {
        let (before, count) = poll_answer(bytes, n - 1);
        let at = (n - 1) * 8;
        let fd = bytes::le32_at(bytes, at) as u32;
        let events = bytes::le16_at(bytes, at + 4) as u16;
        let found = polled(fd, events);
        (
            before + bytes::le32_bytes(fd) + bytes::le16_bytes(events) + bytes::le16_bytes(found),
            count + (if found != 0 {
                1int
            } else {
                0
            }),
        )
    }
}

pub open spec fn user_poll(k: KernelView, pointer: u64, count: u64) -> (KernelView, u64) {
    if count > 8192 {
        (k, SYSCALL_ERROR)
    } else {
        match memory::taken(k.machine, pointer, (count * 8) as u64) {
            None => (k, SYSCALL_ERROR),
            Some(bytes) => {
                let (answer, n) = poll_answer(bytes, count as int);
                (
                    KernelView { machine: memory::given(k.machine, pointer, answer, 0).0, ..k },
                    n as u64,
                )
            },
        }
    }
}

pub fn linux_poll_user(k: &mut Kernel, fds_ptr: u64, nfds: u64) -> (r: u64)
    requires
        old(k).wf(),
    ensures
        final(k).wf(),
        (final(k)@, r) == user_poll(old(k)@, fds_ptr, nfds),
{
    if nfds > 8192 {
        return SYSCALL_ERROR;
    }
    let bytes = match copy_from_user(&k.machine, fds_ptr, nfds * 8) {
        None => {
            return SYSCALL_ERROR;
        },
        Some(bytes) => bytes,
    };
    let mut out: Vec<u8> = Vec::new();
    let mut count: u64 = 0;
    let mut i: u64 = 0;
    assert(out@ =~= Seq::<u8>::empty());
    while i < nfds
        invariant
            i <= nfds <= 8192,
            count <= i,
            bytes.len() == nfds * 8,
            poll_answer(bytes@, i as int) == (out@, count as int),
        decreases nfds - i,
    {
        let at: usize = (i * 8) as usize;
        let fd: u32 = get_le32(bytes.as_slice(), at);
        let events: u16 = get_le16(bytes.as_slice(), at + 4);
        let found: u16 = if fd >= 0x8000_0000 {
            0
        } else {
            events % 2 + 4 * (events / 4 % 2)
        };
        push_le32(&mut out, fd);
        push_le16(&mut out, events);
        push_le16(&mut out, found);
        if found != 0 {
            count += 1;
        }
        i += 1;
    }
    let _ = copy_to_user(&mut k.machine, fds_ptr, out.as_slice());
    count
}

} // verus!
