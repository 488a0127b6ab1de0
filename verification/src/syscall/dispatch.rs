//! Which system call does what.
use vstd::prelude::*;

use crate::abi::Syscall;
use crate::linux;
use crate::scheduler::{
    current_credentials, current_parent_pid, current_pid, current_tid, DescriptorResource,
    EventFdInstance, FileDescriptor, ObjectsView, SchedulerView, Shared, Task,
};
use crate::scheduler::birth::CloneRequest;
use crate::scheduler::channels::{self, brk_current, munmap_current, set_current_clear_child_tid};
use crate::scheduler::descriptors::{epoll_create1_current, eventfd_current};
use crate::scheduler::signals::{self, kill_thread};
use crate::syscall::{
    self, value_or_error, CpuLocal, Device, Kernel, KernelView, SYSCALL_ERROR, SYSCALL_RETURN_EXEC,
    SYSCALL_RETURN_EXIT, SYSCALL_RETURN_THREAD_EXIT, SYSCALL_RETURN_YIELD, Step, StepView,
};
use crate::syscall::files::{self, open_native_user, open_user, read_user, write_user};
use crate::syscall::linux_files::{
    self, linux_access_user, linux_fstat_user, linux_getdents64_user, linux_mmap_user,
    linux_mprotect_user, linux_openat_user, linux_stat_user,
};
use crate::syscall::linux_tasks::{
    self, clone_answered, linux_arch_prctl_user, linux_clock_gettime_user, linux_clone3_user,
    linux_epoll_ctl_user, linux_epoll_wait_user, linux_fcntl_user, linux_futex_user,
    linux_getcwd_user, linux_getrandom_user, linux_gettimeofday_user, linux_ioctl_user,
    linux_poll_user, linux_readv_user, linux_rt_sigaction_user, linux_rt_sigprocmask_user,
    linux_uname_user, linux_wait4_user, linux_writev_user, Vectored, VectoredView,
};
use crate::syscall::native::{
    self, abi_info_user, audio_play_user, close_user, connect_user, duplicate_legacy_user,
    duplicate_to_user, fstat_user, ipc_pair_user, ipc_recv_user, ipc_revoke_user, ipc_send_user,
    kill_user, path_mutation_user, pipe_user, seek_user, socket_user, spawn_legacy_user,
    spawn_native_user, waitpid_user,
};
use crate::syscall::signal_frame::{self, linux_rt_sigreturn_user};

verus! {

/// The calls of native programs.
#[derive(Clone, Copy, Debug, PartialEq, Eq, Structural)]
pub enum NativeCall {
    Read,
    Write,
    Open,
    Close,
    LSeek,
    FStat,
    GetDents,
    MkDir,
    Unlink,
    Rename,
    Dup,
    Pipe,
    Socket,
    Connect,
    Spawn,
    WaitPid,
    Kill,
    SigAction,
    AbiInfo,
    IpcPair,
    IpcSend,
    IpcRecv,
    IpcRevoke,
    Brk,
    MMap,
    MUnmap,
    Exec,
    Yield,
    GetPid,
    GetPpid,
    DisplayInfo,
    DisplayBlit,
    DisplayFlush,
    InputPoll,
    AudioPlay,
    Exit,
    Unknown,
}

/// The call of a number, of those that have one in the binary interface. The
/// calls of the devices and channels have none there.
pub open spec fn call_of(number: u64) -> NativeCall {
    if number == 0x01 {
        NativeCall::Read
    } else if number == 0x02 {
        NativeCall::Write
    } else if number == 0x03 {
        NativeCall::Open
    } else if number == 0x04 {
        NativeCall::Close
    } else if number == 0x05 {
        NativeCall::Dup
    } else if number == 0x06 {
        NativeCall::Pipe
    } else if number == 0x07 {
        NativeCall::LSeek
    } else if number == 0x08 {
        NativeCall::FStat
    } else if number == 0x09 {
        NativeCall::GetDents
    } else if number == 0x0a {
        NativeCall::MkDir
    } else if number == 0x0b {
        NativeCall::Unlink
    } else if number == 0x0c {
        NativeCall::Rename
    } else if number == 0x11 {
        NativeCall::Spawn
    } else if number == 0x12 {
        NativeCall::Exec
    } else if number == 0x13 {
        NativeCall::WaitPid
    } else if number == 0x14 {
        NativeCall::Exit
    } else if number == 0x15 {
        NativeCall::Kill
    } else if number == 0x16 {
        NativeCall::SigAction
    } else if number == 0x17 {
        NativeCall::Brk
    } else if number == 0x18 {
        NativeCall::MMap
    } else if number == 0x19 {
        NativeCall::MUnmap
    } else if number == 0x1a {
        NativeCall::GetPid
    } else if number == 0x1b {
        NativeCall::GetPpid
    } else if number == 0x1c {
        NativeCall::Yield
    } else if number == 0x20 {
        NativeCall::Socket
    } else if number == 0x21 {
        NativeCall::Connect
    } else {
        NativeCall::Unknown
    }
}

pub fn native_call(number: u64) -> (r: NativeCall)
    ensures
        r == call_of(number),
{
    if number == Syscall::Read.number() as u64 {
        NativeCall::Read
    } else if number == Syscall::Write.number() as u64 {
        NativeCall::Write
    } else if number == Syscall::OpenAt.number() as u64 {
        NativeCall::Open
    } else if number == Syscall::Close.number() as u64 {
        NativeCall::Close
    } else if number == Syscall::Dup3.number() as u64 {
        NativeCall::Dup
    } else if number == Syscall::Pipe2.number() as u64 {
        NativeCall::Pipe
    } else if number == Syscall::LSeek.number() as u64 {
        NativeCall::LSeek
    } else if number == Syscall::FStat.number() as u64 {
        NativeCall::FStat
    } else if number == Syscall::GetDents.number() as u64 {
        NativeCall::GetDents
    } else if number == Syscall::MkDirAt.number() as u64 {
        NativeCall::MkDir
    } else if number == Syscall::UnlinkAt.number() as u64 {
        NativeCall::Unlink
    } else if number == Syscall::RenameAt.number() as u64 {
        NativeCall::Rename
    } else if number == Syscall::SpawnVe.number() as u64 {
        NativeCall::Spawn
    } else if number == Syscall::ExecVe.number() as u64 {
        NativeCall::Exec
    } else if number == Syscall::WaitPid.number() as u64 {
        NativeCall::WaitPid
    } else if number == Syscall::Exit.number() as u64 {
        NativeCall::Exit
    } else if number == Syscall::Kill.number() as u64 {
        NativeCall::Kill
    } else if number == Syscall::SigAction.number() as u64 {
        NativeCall::SigAction
    } else if number == Syscall::Brk.number() as u64 {
        NativeCall::Brk
    } else if number == Syscall::MMap.number() as u64 {
        NativeCall::MMap
    } else if number == Syscall::MUnmap.number() as u64 {
        NativeCall::MUnmap
    } else if number == Syscall::GetPid.number() as u64 {
        NativeCall::GetPid
    } else if number == Syscall::GetPpid.number() as u64 {
        NativeCall::GetPpid
    } else if number == Syscall::Yield.number() as u64 {
        NativeCall::Yield
    } else if number == Syscall::Socket.number() as u64 {
        NativeCall::Socket
    } else if number == Syscall::Connect.number() as u64 {
        NativeCall::Connect
    } else {
        NativeCall::Unknown
    }
}

/// The arguments of a call.
#[derive(Clone, Copy, Debug, PartialEq, Eq, Structural)]
pub struct Args {
    pub a1: u64,
    pub a2: u64,
    pub a3: u64,
    pub a4: u64,
    pub a5: u64,
    pub a6: u64,
}

/// A state and a value for the program.
pub open spec fn valued(p: (KernelView, u64)) -> (KernelView, StepView) {
    let (k, value) = p;
    (k, StepView::Done(value))
}

pub open spec fn user_brk(k: KernelView, new_brk: u64) -> (KernelView, u64) {
    match k.scheduler {
        Some(s) => match s.task().process {
            Some(p) => {
                let (machine, v) = crate::process::brk_moved(
                    k.machine,
                    s.processes[p as int],
                    new_brk,
                );
                (
                    KernelView { machine, scheduler: Some(channels::with_process(s, v)), ..k },
                    v.brk_current,
                )
            },
            None => (k, 0),
        },
        None => (k, 0),
    }
}

pub open spec fn user_unmap(k: KernelView, addr: u64, length: u64) -> (KernelView, u64) {
    match k.scheduler {
        Some(s) => match s.task().process {
            Some(p) => {
                let v = s.processes[p as int];
                if channels::unmappable(addr, length) {
                    let (machine, mappings) = crate::process::pages_dropped(
                        k.machine,
                        v.space,
                        addr as int,
                        addr + (length + 4095) / 4096 * 4096,
                        v.mappings,
                    );
                    (
                        KernelView {
                            machine,
                            scheduler: Some(
                                channels::with_process(s, crate::process::ProcessView { mappings, ..v }),
                            ),
                            ..k
                        },
                        0,
                    )
                } else {
                    (k, SYSCALL_ERROR)
                }
            },
            None => (k, SYSCALL_ERROR),
        },
        None => (k, SYSCALL_ERROR),
    }
}

fn brk_user(k: &mut Kernel, new_brk: u64) -> (r: u64)
    requires
        old(k).wf(),
    ensures
        final(k).wf(),
        (final(k)@, r) == user_brk(old(k)@, new_brk),
{
    brk_current(&mut k.machine, &mut k.scheduler, new_brk)
}

/// Whether a range to be unmapped ends before the end of all addresses.
pub open spec fn range_ok(addr: u64, length: u64) -> bool {
    channels::unmappable(addr, length) ==> addr + (length + 4095) / 4096 * 4096 <= u64::MAX
}

fn munmap_user(k: &mut Kernel, addr: u64, length: u64) -> (r: u64)
    requires
        old(k).wf(),
        range_ok(addr, length),
    ensures
        final(k).wf(),
        (final(k)@, r) == user_unmap(old(k)@, addr, length),
{
    match munmap_current(&mut k.machine, &mut k.scheduler, addr, length) {
        Ok(()) => 0,
        Err(()) => SYSCALL_ERROR,
    }
}

/// A pipe opened for a program, and told to it.
pub open spec fn pipe_given(before: KernelView, after: KernelView, pointer: u64, flags: u64, r: u64) -> bool {
    if !native::pipe_flags_ok(flags) {
        r == SYSCALL_ERROR && after == before
    } else {
        exists|k1: KernelView, pair: Result<(u64, u64), ()>| #[trigger]
            native::pipe_opened(before, k1, pair) && (after, r) == match pair {
                Err(_) => (k1, SYSCALL_ERROR),
                Ok((a, b)) => native::answered(k1, pointer, native::two_numbers(a, b), 0),
            }
    }
}

pub open spec fn channel_given(before: KernelView, after: KernelView, pointer: u64, r: u64) -> bool {
    exists|k1: KernelView, pair: Result<(u64, u64), ()>| #[trigger]
        native::channel_opened(before, k1, pair) && (after, r) == match pair {
            Err(_) => (k1, SYSCALL_ERROR),
            Ok((a, b)) => native::answered(k1, pointer, native::two_numbers(a, b), 0),
        }
}

/// A descriptor opened for a program, for one new object.
pub open spec fn descriptor_given(
    before: KernelView,
    after: KernelView,
    objects: ObjectsView,
    rights: crate::abi::Rights,
    resource: DescriptorResource,
    r: u64,
) -> bool {
    &&& after.machine == before.machine
    &&& after.cpu == before.cpu
    &&& exists|result: Result<u64, ()>|
        r == syscall::or_error(result) && #[trigger] crate::scheduler::descriptors::opens(
            before.scheduler,
            after.scheduler,
            objects,
            FileDescriptor {
                capability: crate::scheduler::capability(before.shared.next_capability_slot),
                rights,
                resource,
            },
            result,
        )
}

pub open spec fn socket_given(before: KernelView, after: KernelView, a: Args, r: u64) -> bool {
    let o = crate::scheduler::descriptors::objects_of(before.scheduler);
    if a.a1 != 2 || a.a2 != 1 || a.a3 != 0 {
        r == SYSCALL_ERROR && after == before
    } else {
        &&& crate::scheduler::descriptors::took_capability(
            before.shared,
            after.shared,
            before.scheduler,
        )
        &&& descriptor_given(
            before,
            after,
            ObjectsView {
                sockets: o.sockets.push(crate::scheduler::OpenSocket { connection: None }),
                ..o
            },
            crate::abi::Rights(((1u32 | 2u32) | 8u32) | 128u32),
            DescriptorResource::Socket(o.sockets.len() as usize),
            r,
        )
    }
}

/// What a call of a native program does, and how it goes on; `info` is what
/// programs are told of the interface.
pub open spec fn native_dispatched(
    k: KernelView,
    after: KernelView,
    call: NativeCall,
    a: Args,
    info: Seq<u8>,
    r: StepView,
) -> bool {
    match call {
        NativeCall::Read => (after, r) == files::user_read(k, a.a1, a.a2, a.a3),
        NativeCall::Write => (after, r) == files::user_write(k, a.a1, a.a2, a.a3),
        NativeCall::Open => after == k && r == match files::path_at(k.machine, a.a1, a.a2) {
            None => syscall::refused(),
            Some(path) => if a.a3 % 32 != 0 {
                StepView::OpenNative { path, flags: a.a3 }
            } else {
                StepView::Open { path }
            },
        },
        NativeCall::Close => (after, r) == native::user_close(k, a.a1),
        NativeCall::LSeek => (after, r) == valued(native::user_seek(k, a.a1, a.a2 as i64, a.a3)),
        NativeCall::FStat => (after, r) == valued(native::user_stat(k, a.a1, a.a2)),
        NativeCall::GetDents => (after, r) == files::user_read(k, a.a1, a.a2, a.a3),
        NativeCall::MkDir => after == k && r == native::user_change(k, a.a1, a.a2, 0, 0),
        NativeCall::Unlink => after == k && r == native::user_change(k, a.a1, a.a2, 1, 0),
        NativeCall::Rename => after == k && r == native::user_change(k, a.a1, a.a2, a.a3, a.a4),
        NativeCall::Dup => (after, r) == valued(
            if a.a2 != 0 {
                native::user_duplicate_to(k, a.a1, a.a2)
            } else {
                native::user_duplicate(k, a.a1)
            },
        ),
        NativeCall::Pipe => r is Done && pipe_given(k, after, a.a1, a.a2, r->Done_0),
        NativeCall::Socket => r is Done && socket_given(k, after, a, r->Done_0),
        NativeCall::Connect => after == k && r == native::user_connect(k, a.a1, a.a2, a.a3),
        NativeCall::Spawn => after == k && r == (if a.a3 == 0 {
            plain_launch(k, a.a1, a.a2)
        } else {
            match native::user_launch(k, a.a1, a.a2, a.a3, a.a4) {
                StepView::SpawnNative(launch) => StepView::SpawnNative(launch),
                _ => plain_launch(k, a.a1, a.a2),
            }
        }),
        NativeCall::WaitPid => (after, r) == valued(native::user_wait(k, a.a1)),
        NativeCall::Kill => (after, r) == valued(native::user_kill(k, a.a1, a.a2)),
        NativeCall::SigAction => (after, r) == valued(linux_tasks::user_action(k, a.a1, a.a2, a.a3, 8)),
        NativeCall::AbiInfo => (after, r) == valued(
            if a.a2 < info.len() {
                (k, SYSCALL_ERROR)
            } else {
                native::answered(k, a.a1, info, 0)
            },
        ),
        NativeCall::IpcPair => r is Done && channel_given(k, after, a.a1, r->Done_0),
        NativeCall::IpcSend => (after, r) == valued(native::user_send(k, a.a1, a.a2, a.a3)),
        NativeCall::IpcRecv => (after, r) == valued(native::user_receive(k, a.a1, a.a2, a.a3)),
        NativeCall::IpcRevoke => (after, r) == valued(native::user_revoke(k, a.a1)),
        NativeCall::Brk => (after, r) == valued(user_brk(k, a.a1)),
        NativeCall::MMap => (after, r) == linux_files::user_map(k, a.a1, a.a2, a.a3, a.a4, a.a5, a.a6),
        NativeCall::MUnmap => (after, r) == valued(user_unmap(k, a.a1, a.a2)),
        NativeCall::Exec => after == k && r == StepView::Done(SYSCALL_RETURN_EXEC),
        NativeCall::Yield => after == k && r == StepView::Done(SYSCALL_RETURN_YIELD),
        NativeCall::GetPid => after == k && r == StepView::Done(linux_files::pid_of(k.scheduler)),
        NativeCall::GetPpid => after == k && r == StepView::Done(linux_files::parent_of(k.scheduler)),
        NativeCall::DisplayInfo => after == k && r == StepView::Device(
            Device::DisplayInfo { pointer: a.a1 },
        ),
        NativeCall::DisplayBlit => after == k && r == StepView::Device(
            Device::Blit { x: a.a1, y: a.a2, width: a.a3, height: a.a4, pointer: a.a5 },
        ),
        NativeCall::DisplayFlush => after == k && r == StepView::Device(Device::Flush),
        NativeCall::InputPoll => after == k && r == StepView::Device(
            Device::PollInput { pointer: a.a1 },
        ),
        NativeCall::AudioPlay => after == k && r == StepView::Done(a.a2),
        NativeCall::Exit => after == (KernelView {
            cpu: CpuLocal { exit_code: a.a1, ..k.cpu },
            ..k
        }) && r == StepView::Done(SYSCALL_RETURN_EXIT),
        NativeCall::Unknown => after == k && r == syscall::refused(),
    }
}

pub open spec fn plain_launch(k: KernelView, pointer: u64, length: u64) -> StepView {
    match files::path_at(k.machine, pointer, length) {
        None => syscall::refused(),
        Some(path) => StepView::Spawn { path },
    }
}

/// Does what a native program asks for. A launch with given descriptors that
/// cannot be made out is a plain one; `launching::launch_answered` goes on with
/// one that can.
pub fn dispatch_native(k: &mut Kernel, call: NativeCall, a: Args, info: &[u8]) -> (r: Step)
    requires
        old(k).wf(),
        call == NativeCall::MUnmap ==> range_ok(a.a1, a.a2),
    ensures
        final(k).wf(),
        native_dispatched(old(k)@, final(k)@, call, a, info@, r@),
{
    match call {
        NativeCall::Read => read_user(k, a.a1, a.a2, a.a3),
        NativeCall::Write => write_user(k, a.a1, a.a2, a.a3),
        NativeCall::Open => {
            if a.a3 % 32 != 0 {
                open_native_user(k, a.a1, a.a2, a.a3)
            } else {
                open_user(k, a.a1, a.a2)
            }
        },
        NativeCall::Close => close_user(k, a.a1),
        NativeCall::LSeek => Step::Done(seek_user(k, a.a1, a.a2 as i64, a.a3)),
        NativeCall::FStat => Step::Done(fstat_user(k, a.a1, a.a2)),
        NativeCall::GetDents => read_user(k, a.a1, a.a2, a.a3),
        NativeCall::MkDir => path_mutation_user(k, a.a1, a.a2, 0, 0),
        NativeCall::Unlink => path_mutation_user(k, a.a1, a.a2, 1, 0),
        NativeCall::Rename => path_mutation_user(k, a.a1, a.a2, a.a3, a.a4),
        NativeCall::Dup => {
            if a.a2 != 0 {
                Step::Done(duplicate_to_user(k, a.a1, a.a2))
            } else {
                Step::Done(duplicate_legacy_user(k, a.a1))
            }
        },
        NativeCall::Pipe => Step::Done(pipe_user(k, a.a1, a.a2)),
        NativeCall::Socket => Step::Done(socket_user(k, a.a1, a.a2, a.a3)),
        NativeCall::Connect => connect_user(k, a.a1, a.a2, a.a3),
        NativeCall::Spawn => {
            if a.a3 == 0 {
                spawn_legacy_user(k, a.a1, a.a2)
            } else {
                match spawn_native_user(k, a.a1, a.a2, a.a3, a.a4) {
                    Step::SpawnNative(launch) => Step::SpawnNative(launch),
                    _ => spawn_legacy_user(k, a.a1, a.a2),
                }
            }
        },
        NativeCall::WaitPid => Step::Done(waitpid_user(k, a.a1)),
        NativeCall::Kill => Step::Done(kill_user(k, a.a1, a.a2)),
        NativeCall::SigAction => Step::Done(linux_rt_sigaction_user(k, a.a1, a.a2, a.a3, 8)),
        NativeCall::AbiInfo => Step::Done(abi_info_user(k, a.a1, a.a2, info)),
        NativeCall::IpcPair => Step::Done(ipc_pair_user(k, a.a1)),
        NativeCall::IpcSend => Step::Done(ipc_send_user(k, a.a1, a.a2, a.a3)),
        NativeCall::IpcRecv => Step::Done(ipc_recv_user(k, a.a1, a.a2, a.a3)),
        NativeCall::IpcRevoke => Step::Done(ipc_revoke_user(k, a.a1)),
        NativeCall::Brk => Step::Done(brk_user(k, a.a1)),
        NativeCall::MMap => linux_mmap_user(k, a.a1, a.a2, a.a3, a.a4, a.a5, a.a6),
        NativeCall::MUnmap => Step::Done(munmap_user(k, a.a1, a.a2)),
        NativeCall::Exec => Step::Done(SYSCALL_RETURN_EXEC),
        NativeCall::Yield => Step::Done(SYSCALL_RETURN_YIELD),
        NativeCall::GetPid => Step::Done(current_pid(&k.scheduler)),
        NativeCall::GetPpid => Step::Done(current_parent_pid(&k.scheduler)),
        NativeCall::DisplayInfo => Step::Device(Device::DisplayInfo { pointer: a.a1 }),
        NativeCall::DisplayBlit => Step::Device(
            Device::Blit { x: a.a1, y: a.a2, width: a.a3, height: a.a4, pointer: a.a5 },
        ),
        NativeCall::DisplayFlush => Step::Device(Device::Flush),
        NativeCall::InputPoll => Step::Device(Device::PollInput { pointer: a.a1 }),
        NativeCall::AudioPlay => Step::Done(audio_play_user(a.a1, a.a2)),
        NativeCall::Exit => {
            k.cpu.exit_code = a.a1;
            Step::Done(SYSCALL_RETURN_EXIT)
        },
        NativeCall::Unknown => Step::Done(SYSCALL_ERROR),
    }
}

// ---------------------------------------------------------------------------
// Linux programs
// ---------------------------------------------------------------------------
/// The calls of Linux programs that have no native one.
#[derive(Clone, Copy, Debug, PartialEq, Eq, Structural)]
pub enum LinuxOp {
    GetPid,
    GetTid,
    GetPPid,
    GetUid,
    GetEUid,
    GetGid,
    GetEGid,
    SetPGid,
    GetPGrp,
    Clone,
    Clone3,
    Futex,
    Exit,
    ExitGroup,
    ExecVe,
    Wait4,
    ArchPrctl,
    SetTidAddress,
    MProtect,
    RtSigAction,
    RtSigProcMask,
    RtSigReturn,
    Kill,
    TKill,
    TgKill,
    SetRobustList,
    Rseq,
    SigAltStack,
    GetRandom,
    SchedGetAffinity,
    Writev,
    Readv,
    Access,
    FAccessAt,
    Uname,
    GetCwd,
    ChDir,
    FChDir,
    ReadLink,
    ReadLinkAt,
    ClockGetTime,
    GetTimeOfDay,
    Fcntl,
    Ioctl,
    Nanosleep,
    SendTo,
    SendMsg,
    RecvFrom,
    RecvMsg,
    Bind,
    Listen,
    Accept,
    Accept4,
    GetSockName,
    GetPeerName,
    SetSockOpt,
    GetSockOpt,
    Fork,
    VFork,
    EPollCreate,
    EPollCreate1,
    EPollCtl,
    EPollWait,
    EPollPWait,
    EventFd,
    EventFd2,
    Poll,
    PPoll,
    Select,
    PSelect6,
    Other,
}

/// What the broker of Linux calls has decided on one.
#[derive(Clone, Copy, Debug, PartialEq, Eq, Structural)]
pub enum BrokerDecision {
    Native { call: NativeCall, args: Args },
    ProcessPrimitive { operation: LinuxOp },
    Unsupported { number: u64 },
}

/// How a call of a Linux program goes on.
pub enum Outcome {
    Step(Step),
    Writev(Vectored),
    Readv(Vectored),
}

pub enum OutcomeView {
    Step(StepView),
    Writev(VectoredView),
    Readv(VectoredView),
}

impl View for Outcome {
    type V = OutcomeView;

    open spec fn view(&self) -> OutcomeView {
        match self {
            Outcome::Step(step) => OutcomeView::Step(step@),
            Outcome::Writev(v) => OutcomeView::Writev(v@),
            Outcome::Readv(v) => OutcomeView::Readv(v@),
        }
    }
}

/// A clone: at once if it shares its memory, else when the memory is copied.
pub open spec fn clone_given(k: KernelView, after: KernelView, q: CloneRequest, r: StepView) -> bool {
    if crate::scheduler::birth::flag(q.flags, linux::CLONE_VM) {
        exists|result: Result<u64, ()>|
            r == StepView::Done(syscall::or_error(result)) && #[trigger] linux_tasks::clone_done(
                k,
                after,
                q,
                Err(()),
                result,
            )
    } else {
        after == k && r == (StepView::Fork { request: q })
    }
}

pub fn linux_clone_user(k: &mut Kernel, q: CloneRequest) -> (r: Step)
    requires
        old(k).wf(),
    ensures
        final(k).wf(),
        clone_given(old(k)@, final(k)@, q, r@),
{
    if q.flags / linux::CLONE_VM % 2 == 1 {
        let result = clone_answered(k, q, Err(()));
        assert(linux_tasks::clone_done(old(k)@, k@, q, Err(()), result));
        return Step::Done(value_or_error(result));
    }
    Step::Fork { request: q }
}

pub open spec fn user_thread_kill(k: KernelView, tid: u64, signal: u64) -> (KernelView, u64) {
    match k.scheduler {
        None => (k, SYSCALL_ERROR),
        Some(s) => match signals::thread_signalled(k.machine, s, tid, signal) {
            None => (k, SYSCALL_ERROR),
            Some((machine, s1)) => (KernelView { machine, scheduler: Some(s1), ..k }, 0),
        },
    }
}

fn kill_thread_user(k: &mut Kernel, tid: u64, signal: u64) -> (r: u64)
    requires
        old(k).wf(),
    ensures
        final(k).wf(),
        (final(k)@, r) == user_thread_kill(old(k)@, tid, signal),
{
    match kill_thread(&mut k.machine, &mut k.scheduler, tid, signal) {
        Ok(()) => 0,
        Err(()) => SYSCALL_ERROR,
    }
}

pub open spec fn user_tid_address(k: KernelView, addr: u64) -> (KernelView, u64) {
    match k.scheduler {
        None => (k, 0),
        Some(s) => (
            k.with_scheduler(s.with_current(Task { clear_child_tid: addr, ..s.task() })),
            s.task().tid,
        ),
    }
}

pub open spec fn tid_of(s: Option<SchedulerView>) -> u64 {
    match s {
        Some(s) => s.task().tid,
        None => 0,
    }
}

pub open spec fn credentials_of(s: Option<SchedulerView>) -> crate::abi::Credentials {
    match s {
        Some(s) => s.task().credentials,
        None => crate::abi::root_credentials(),
    }
}

pub open spec fn capability_taken(shared: Shared) -> Shared {
    Shared {
        next_capability_slot: crate::scheduler::after(shared.next_capability_slot),
        ..shared
    }
}

/// A set of awaited events, opened for a program.
pub open spec fn epoll_given(before: KernelView, after: KernelView, r: u64) -> bool {
    let o = crate::scheduler::descriptors::objects_of(before.scheduler);
    after.shared == capability_taken(before.shared) && descriptor_given(
        before,
        after,
        ObjectsView { epolls: o.epolls.push(Seq::empty()), ..o },
        crate::abi::Rights(1u32 | 2u32),
        DescriptorResource::Epoll(o.epolls.len() as usize),
        r,
    )
}

pub open spec fn eventfd_given(before: KernelView, after: KernelView, value: u64, flags: u32, r: u64) -> bool {
    let o = crate::scheduler::descriptors::objects_of(before.scheduler);
    after.shared == capability_taken(before.shared) && descriptor_given(
        before,
        after,
        ObjectsView {
            event_fds: o.event_fds.push(EventFdInstance { counter: value, flags }),
            ..o
        },
        crate::abi::Rights(1u32 | 2u32),
        DescriptorResource::EventFd(o.event_fds.len() as usize),
        r,
    )
}

pub open spec fn low32(x: u64) -> u32 {
    (x % 0x1_0000_0000) as u32
}

/// What a call of a Linux program on tasks and the system does.
pub open spec fn task_dispatched(k: KernelView, after: KernelView, op: LinuxOp, a: Args, r: StepView) -> bool {
    match op {
        LinuxOp::GetPid => after == k && r == StepView::Done(linux_files::pid_of(k.scheduler)),
        LinuxOp::GetTid => after == k && r == StepView::Done(tid_of(k.scheduler)),
        LinuxOp::GetPPid => after == k && r == StepView::Done(linux_files::parent_of(k.scheduler)),
        LinuxOp::GetUid | LinuxOp::GetEUid => after == k && r == StepView::Done(
            credentials_of(k.scheduler).uid as u64,
        ),
        LinuxOp::GetGid | LinuxOp::GetEGid => after == k && r == StepView::Done(
            credentials_of(k.scheduler).gid as u64,
        ),
        LinuxOp::Clone => clone_given(
            k,
            after,
            CloneRequest {
                flags: a.a1,
                child_stack: a.a2,
                parent_tidptr: a.a3,
                child_tidptr: a.a4,
                tls: a.a5,
            },
            r,
        ),
        LinuxOp::Clone3 => match linux_tasks::clone3_request(k.machine, a.a1, a.a2) {
            None => after == k && r == syscall::refused(),
            Some(q) => clone_given(k, after, q, r),
        },
        LinuxOp::Fork | LinuxOp::VFork => clone_given(
            k,
            after,
            CloneRequest {
                flags: 0,
                child_stack: 0,
                parent_tidptr: 0,
                child_tidptr: 0,
                tls: 0,
            },
            r,
        ),
        LinuxOp::Futex => (after, r) == valued(linux_tasks::user_futex(k, a.a1, a.a2, a.a3, a.a6)),
        LinuxOp::Exit => after == (KernelView {
            cpu: CpuLocal { exit_code: a.a1, ..k.cpu },
            ..k
        }) && r == StepView::Done(SYSCALL_RETURN_THREAD_EXIT),
        LinuxOp::ExitGroup => after == (KernelView {
            cpu: CpuLocal { exit_code: a.a1, ..k.cpu },
            ..k
        }) && r == StepView::Done(SYSCALL_RETURN_EXIT),
        LinuxOp::ExecVe => after == k && r == StepView::Done(SYSCALL_RETURN_EXEC),
        LinuxOp::Wait4 => (after, r) == valued(linux_tasks::user_wait4(k, a.a1, a.a2)),
        LinuxOp::ArchPrctl => (after, r) == linux_tasks::user_arch(k, a.a1, a.a2),
        LinuxOp::SetTidAddress => (after, r) == valued(user_tid_address(k, a.a1)),
        LinuxOp::RtSigAction => (after, r) == valued(linux_tasks::user_action(k, a.a1, a.a2, a.a3, a.a4)),
        LinuxOp::RtSigProcMask => (after, r) == valued(linux_tasks::user_mask(k, a.a1, a.a2, a.a3, a.a4)),
        LinuxOp::RtSigReturn => (after, r) == valued(signal_frame::user_return(k)),
        LinuxOp::Kill => (after, r) == valued(native::user_kill(k, a.a1, a.a2)),
        LinuxOp::TKill => (after, r) == valued(user_thread_kill(k, a.a1, a.a2)),
        LinuxOp::TgKill => (after, r) == valued(user_thread_kill(k, a.a2, a.a3)),
        LinuxOp::GetRandom => (after, r) == valued(
            {
                let n = if a.a2 <= 256 {
                    a.a2
                } else {
                    256
                };
                native::answered(k, a.a1, Seq::new(n as nat, |i: int| 0x5au8), n)
            },
        ),
        LinuxOp::Uname => (after, r) == valued(native::answered(k, a.a1, linux_tasks::system_names(), 0)),
        LinuxOp::GetCwd => (after, r) == valued(
            if a.a2 < 12 {
                (k, SYSCALL_ERROR)
            } else {
                native::answered(k, a.a1, linux_tasks::working_directory(), a.a1)
            },
        ),
        LinuxOp::ClockGetTime => (after, r) == valued(native::answered(k, a.a2, linux_tasks::fixed_time(), 0)),
        LinuxOp::GetTimeOfDay => (after, r) == valued(
            if a.a1 == 0 {
                (k, 0)
            } else {
                native::answered(k, a.a1, linux_tasks::fixed_time(), 0)
            },
        ),
        LinuxOp::SetPGid | LinuxOp::GetPGrp | LinuxOp::SetRobustList | LinuxOp::Rseq
        | LinuxOp::SigAltStack | LinuxOp::ChDir | LinuxOp::FChDir | LinuxOp::Nanosleep
        | LinuxOp::Bind | LinuxOp::Listen | LinuxOp::Accept | LinuxOp::Accept4
        | LinuxOp::GetSockName | LinuxOp::GetPeerName | LinuxOp::SetSockOpt | LinuxOp::GetSockOpt
        | LinuxOp::Select | LinuxOp::PSelect6 => after == k && r == StepView::Done(0),
        _ => after == k && r == syscall::refused(),
    }
}

fn dispatch_task(k: &mut Kernel, op: LinuxOp, a: Args) -> (r: Step)
    requires
        old(k).wf(),
    ensures
        final(k).wf(),
        task_dispatched(old(k)@, final(k)@, op, a, r@),
{
    match op {
        LinuxOp::GetPid => Step::Done(current_pid(&k.scheduler)),
        LinuxOp::GetTid => Step::Done(current_tid(&k.scheduler)),
        LinuxOp::GetPPid => Step::Done(current_parent_pid(&k.scheduler)),
        LinuxOp::GetUid | LinuxOp::GetEUid => Step::Done(
            current_credentials(&k.scheduler).uid as u64,
        ),
        LinuxOp::GetGid | LinuxOp::GetEGid => Step::Done(
            current_credentials(&k.scheduler).gid as u64,
        ),
        LinuxOp::Clone => linux_clone_user(
            k,
            CloneRequest {
                flags: a.a1,
                child_stack: a.a2,
                parent_tidptr: a.a3,
                child_tidptr: a.a4,
                tls: a.a5,
            },
        ),
        LinuxOp::Clone3 => match linux_clone3_user(k, a.a1, a.a2) {
            None => Step::Done(SYSCALL_ERROR),
            Some(q) => linux_clone_user(k, q),
        },
        LinuxOp::Fork | LinuxOp::VFork => linux_clone_user(
            k,
            CloneRequest {
                flags: 0,
                child_stack: 0,
                parent_tidptr: 0,
                child_tidptr: 0,
                tls: 0,
            },
        ),
        LinuxOp::Futex => Step::Done(linux_futex_user(k, a.a1, a.a2, a.a3, a.a6)),
        LinuxOp::Exit => {
            k.cpu.exit_code = a.a1;
            Step::Done(SYSCALL_RETURN_THREAD_EXIT)
        },
        LinuxOp::ExitGroup => {
            k.cpu.exit_code = a.a1;
            Step::Done(SYSCALL_RETURN_EXIT)
        },
        LinuxOp::ExecVe => Step::Done(SYSCALL_RETURN_EXEC),
        LinuxOp::Wait4 => Step::Done(linux_wait4_user(k, a.a1, a.a2)),
        LinuxOp::ArchPrctl => linux_arch_prctl_user(k, a.a1, a.a2),
        LinuxOp::SetTidAddress => Step::Done(set_current_clear_child_tid(&mut k.scheduler, a.a1)),
        LinuxOp::RtSigAction => Step::Done(
            linux_rt_sigaction_user(k, a.a1, a.a2, a.a3, a.a4),
        ),
        LinuxOp::RtSigProcMask => Step::Done(
            linux_rt_sigprocmask_user(k, a.a1, a.a2, a.a3, a.a4),
        ),
        LinuxOp::RtSigReturn => Step::Done(linux_rt_sigreturn_user(k)),
        LinuxOp::Kill => Step::Done(kill_user(k, a.a1, a.a2)),
        LinuxOp::TKill => Step::Done(kill_thread_user(k, a.a1, a.a2)),
        LinuxOp::TgKill => Step::Done(kill_thread_user(k, a.a2, a.a3)),
        LinuxOp::GetRandom => Step::Done(linux_getrandom_user(k, a.a1, a.a2)),
        LinuxOp::Uname => Step::Done(linux_uname_user(k, a.a1)),
        LinuxOp::GetCwd => Step::Done(linux_getcwd_user(k, a.a1, a.a2)),
        LinuxOp::ClockGetTime => Step::Done(linux_clock_gettime_user(k, a.a1, a.a2)),
        LinuxOp::GetTimeOfDay => Step::Done(linux_gettimeofday_user(k, a.a1)),
        LinuxOp::SetPGid | LinuxOp::GetPGrp | LinuxOp::SetRobustList | LinuxOp::Rseq
        | LinuxOp::SigAltStack | LinuxOp::ChDir | LinuxOp::FChDir | LinuxOp::Nanosleep
        | LinuxOp::Bind | LinuxOp::Listen | LinuxOp::Accept | LinuxOp::Accept4
        | LinuxOp::GetSockName | LinuxOp::GetPeerName | LinuxOp::SetSockOpt | LinuxOp::GetSockOpt
        | LinuxOp::Select | LinuxOp::PSelect6 => Step::Done(0),
        _ => Step::Done(SYSCALL_ERROR),
    }
}

/// What a call of a Linux program that has no native one does.
pub open spec fn primitive_dispatched(
    k: KernelView,
    after: KernelView,
    op: LinuxOp,
    a: Args,
    r: OutcomeView,
) -> bool {
    match op {
        LinuxOp::Writev => (after, r) == {
            let (k1, v) = if a.a3 > 16 {
                (k, VectoredView::Finished(SYSCALL_ERROR))
            } else {
                linux_tasks::buffers_written(k, a.a1, a.a2, a.a3, 0, 0)
            };
            (k1, OutcomeView::Writev(v))
        },
        LinuxOp::Readv => (after, r) == {
            let (k1, v) = if a.a3 > 16 {
                (k, VectoredView::Finished(SYSCALL_ERROR))
            } else {
                linux_tasks::buffers_read(k, a.a1, a.a2, a.a3, 0, 0)
            };
            (k1, OutcomeView::Readv(v))
        },
        _ => r is Step && {
            let step = r->Step_0;
            match op {
                LinuxOp::MProtect => after == k && step == linux_files::user_protect(a.a1, a.a2, a.a3),
                LinuxOp::Access => after == k && step == access_step(k, a.a1),
                LinuxOp::FAccessAt => after == k && step == access_step(
                    k,
                    if a.a2 != 0 {
                        a.a2
                    } else {
                        a.a1
                    },
                ),
                LinuxOp::Fcntl => (after, step) == valued(linux_tasks::user_fcntl(k, a.a1, a.a2, a.a3)),
                LinuxOp::Ioctl => (after, step) == valued(linux_tasks::user_ioctl(k, a.a2, a.a3)),
                LinuxOp::SendTo | LinuxOp::SendMsg => (after, step) == files::user_write(
                    k,
                    a.a1,
                    a.a2,
                    a.a3,
                ),
                LinuxOp::RecvFrom | LinuxOp::RecvMsg => (after, step) == files::user_read(
                    k,
                    a.a1,
                    a.a2,
                    a.a3,
                ),
                LinuxOp::EPollCreate | LinuxOp::EPollCreate1 => step is Done && epoll_given(
                    k,
                    after,
                    step->Done_0,
                ),
                LinuxOp::EPollCtl => (after, step) == valued(
                    linux_tasks::user_control(k, a.a1, low32(a.a2), a.a3, a.a4),
                ),
                LinuxOp::EPollWait | LinuxOp::EPollPWait => (after, step) == valued(
                    linux_tasks::user_events(k, a.a1, a.a2, a.a3 as usize),
                ),
                LinuxOp::EventFd | LinuxOp::EventFd2 => step is Done && eventfd_given(
                    k,
                    after,
                    a.a1,
                    low32(a.a2),
                    step->Done_0,
                ),
                LinuxOp::Poll | LinuxOp::PPoll => (after, step) == valued(
                    linux_tasks::user_poll(k, a.a1, a.a2),
                ),
                _ => task_dispatched(k, after, op, a, step),
            }
        },
    }
}

pub open spec fn access_step(k: KernelView, pointer: u64) -> StepView {
    match linux_files::linux_path(k.machine, pointer) {
        None => syscall::refused(),
        Some(path) => StepView::Access { path },
    }
}

fn epoll_user(k: &mut Kernel, flags: u32) -> (r: u64)
    requires
        old(k).wf(),
    ensures
        final(k).wf(),
        epoll_given(old(k)@, final(k)@, r),
{
    let result = epoll_create1_current(&mut k.scheduler, &mut k.shared, flags);
    value_or_error(result)
}

fn eventfd_user(k: &mut Kernel, value: u64, flags: u32) -> (r: u64)
    requires
        old(k).wf(),
    ensures
        final(k).wf(),
        eventfd_given(old(k)@, final(k)@, value, flags, r),
{
    let result = eventfd_current(&mut k.scheduler, &mut k.shared, value, flags);
    value_or_error(result)
}

fn dispatch_primitive(k: &mut Kernel, op: LinuxOp, a: Args) -> (r: Outcome)
    requires
        old(k).wf(),
    ensures
        final(k).wf(),
        primitive_dispatched(old(k)@, final(k)@, op, a, r@),
{
    match op {
        LinuxOp::Writev => Outcome::Writev(linux_writev_user(k, a.a1, a.a2, a.a3, 0, 0)),
        LinuxOp::Readv => Outcome::Readv(linux_readv_user(k, a.a1, a.a2, a.a3, 0, 0)),
        LinuxOp::MProtect => Outcome::Step(linux_mprotect_user(a.a1, a.a2, a.a3)),
        LinuxOp::Access => Outcome::Step(linux_access_user(k, a.a1)),
        LinuxOp::FAccessAt => {
            if a.a2 != 0 {
                Outcome::Step(linux_access_user(k, a.a2))
            } else {
                Outcome::Step(linux_access_user(k, a.a1))
            }
        },
        LinuxOp::Fcntl => Outcome::Step(Step::Done(linux_fcntl_user(k, a.a1, a.a2, a.a3))),
        LinuxOp::Ioctl => Outcome::Step(Step::Done(linux_ioctl_user(k, a.a2, a.a3))),
        LinuxOp::SendTo | LinuxOp::SendMsg => Outcome::Step(write_user(k, a.a1, a.a2, a.a3)),
        LinuxOp::RecvFrom | LinuxOp::RecvMsg => Outcome::Step(read_user(k, a.a1, a.a2, a.a3)),
        LinuxOp::EPollCreate | LinuxOp::EPollCreate1 => Outcome::Step(
            Step::Done(epoll_user(k, (a.a1 % 0x1_0000_0000) as u32)),
        ),
        LinuxOp::EPollCtl => Outcome::Step(
            Step::Done(
                linux_epoll_ctl_user(k, a.a1, (a.a2 % 0x1_0000_0000) as u32, a.a3, a.a4),
            ),
        ),
        LinuxOp::EPollWait | LinuxOp::EPollPWait => Outcome::Step(
            Step::Done(linux_epoll_wait_user(k, a.a1, a.a2, a.a3 as usize)),
        ),
        LinuxOp::EventFd | LinuxOp::EventFd2 => Outcome::Step(
            Step::Done(eventfd_user(k, a.a1, (a.a2 % 0x1_0000_0000) as u32)),
        ),
        LinuxOp::Poll | LinuxOp::PPoll => Outcome::Step(
            Step::Done(linux_poll_user(k, a.a1, a.a2)),
        ),
        _ => Outcome::Step(dispatch_task(k, op, a)),
    }
}

/// Opening a path for a Linux program.
pub open spec fn path_opened(k: KernelView, after: KernelView, pointer: u64, flags: u64, r: StepView) -> bool {
    match linux_files::linux_path(k.machine, pointer) {
        None => r == syscall::refused() && after == k,
        Some(path) => {
            let text = crate::syscall::linux_files::system_text(
                path,
                linux_files::pid_of(k.scheduler),
                linux_files::parent_of(k.scheduler),
            );
            if crate::syscall::linux_files::tells_of_system(path) && text is Some {
                r is Done && crate::syscall::files::contents_opened(
                    k,
                    after,
                    path,
                    text->0,
                    false,
                    false,
                    r->Done_0,
                )
            } else {
                r == (StepView::OpenLinux { path, flags }) && after == k
            }
        },
    }
}

/// What a call of a Linux program does that has a native one. Some of them
/// have arguments in another order, or mean something else by them.
pub open spec fn adapted(
    k: KernelView,
    after: KernelView,
    call: NativeCall,
    args: Args,
    number: u64,
    a: Args,
    info: Seq<u8>,
    r: StepView,
) -> bool {
    match call {
        NativeCall::Open => if number == 2 {
            path_opened(k, after, a.a1, a.a2, r)
        } else {
            path_opened(k, after, a.a2, a.a3, r)
        },
        NativeCall::Pipe => r is Done && pipe_given(
            k,
            after,
            a.a1,
            if number == 22 {
                0
            } else {
                a.a2
            },
            r->Done_0,
        ),
        NativeCall::FStat => (after, r) == (if number == 4 || number == 6 {
            linux_files::user_lookup(k, a.a1, a.a2)
        } else if number == 262 && a.a2 != 0 {
            linux_files::user_lookup(k, a.a2, a.a3)
        } else if number == 262 {
            valued(linux_files::user_fstat(k, a.a1, a.a3))
        } else {
            valued(linux_files::user_fstat(k, a.a1, a.a2))
        }),
        NativeCall::GetDents => (after, r) == (if number == 217 || number == 78 {
            valued(linux_files::user_entries(k, a.a1, a.a2, a.a3))
        } else {
            files::user_read(k, a.a1, a.a2, a.a3)
        }),
        NativeCall::Dup => (after, r) == valued(
            if number == 33 || number == 292 {
                native::user_duplicate_to(k, a.a1, a.a2)
            } else {
                native::user_duplicate(k, a.a1)
            },
        ),
        NativeCall::Brk => (after, r) == valued(user_brk(k, a.a1)),
        NativeCall::MMap => (after, r) == linux_files::user_map(k, a.a1, a.a2, a.a3, a.a4, a.a5, a.a6),
        NativeCall::MUnmap => (after, r) == valued(user_unmap(k, a.a1, a.a2)),
        NativeCall::SigAction => (after, r) == valued(linux_tasks::user_action(k, a.a1, a.a2, a.a3, a.a4)),
        NativeCall::Kill => (after, r) == valued(native::user_kill(k, a.a1, a.a2)),
        _ => native_dispatched(k, after, call, Args { a5: 0, a6: 0, ..args }, info, r),
    }
}

fn dispatch_adapted(k: &mut Kernel, call: NativeCall, args: Args, number: u64, a: Args, info: &[u8]) -> (r:
    Step)
    requires
        old(k).wf(),
        call == NativeCall::MUnmap ==> range_ok(a.a1, a.a2),
    ensures
        final(k).wf(),
        adapted(old(k)@, final(k)@, call, args, number, a, info@, r@),
{
    match call {
        NativeCall::Open => {
            if number == 2 {
                linux_openat_user(k, 0, a.a1, a.a2)
            } else {
                linux_openat_user(k, a.a1, a.a2, a.a3)
            }
        },
        NativeCall::Pipe => {
            let flags: u64 = if number == 22 {
                0
            } else {
                a.a2
            };
            Step::Done(pipe_user(k, a.a1, flags))
        },
        NativeCall::FStat => {
            if number == 4 || number == 6 {
                linux_stat_user(k, a.a1, a.a2)
            } else if number == 262 {
                if a.a2 != 0 {
                    linux_stat_user(k, a.a2, a.a3)
                } else {
                    Step::Done(linux_fstat_user(k, a.a1, a.a3))
                }
            } else {
                Step::Done(linux_fstat_user(k, a.a1, a.a2))
            }
        },
        NativeCall::GetDents => {
            if number == 217 || number == 78 {
                Step::Done(linux_getdents64_user(k, a.a1, a.a2, a.a3))
            } else {
                read_user(k, a.a1, a.a2, a.a3)
            }
        },
        NativeCall::Dup => {
            if number == 33 || number == 292 {
                Step::Done(duplicate_to_user(k, a.a1, a.a2))
            } else {
                Step::Done(duplicate_legacy_user(k, a.a1))
            }
        },
        NativeCall::Brk => Step::Done(brk_user(k, a.a1)),
        NativeCall::MMap => linux_mmap_user(k, a.a1, a.a2, a.a3, a.a4, a.a5, a.a6),
        NativeCall::MUnmap => Step::Done(munmap_user(k, a.a1, a.a2)),
        NativeCall::SigAction => Step::Done(
            linux_rt_sigaction_user(k, a.a1, a.a2, a.a3, a.a4),
        ),
        NativeCall::Kill => Step::Done(kill_user(k, a.a1, a.a2)),
        _ => dispatch_native(k, call, Args { a5: 0, a6: 0, ..args }, info),
    }
}

/// What a call of a Linux program does, by what the broker has decided on it.
pub open spec fn linux_dispatched(
    k: KernelView,
    after: KernelView,
    decision: BrokerDecision,
    number: u64,
    a: Args,
    info: Seq<u8>,
    r: OutcomeView,
) -> bool {
    match decision {
        BrokerDecision::Native { call, args } => r is Step && adapted(
            k,
            after,
            call,
            args,
            number,
            a,
            info,
            r->Step_0,
        ),
        BrokerDecision::ProcessPrimitive { operation } => primitive_dispatched(
            k,
            after,
            operation,
            a,
            r,
        ),
        BrokerDecision::Unsupported { number: unknown } => if unknown == 9999 {
            after == k && r == OutcomeView::Step(syscall::refused())
        } else {
            after == (KernelView { cpu: CpuLocal { exit_code: 127, ..k.cpu }, ..k }) && r
                == OutcomeView::Step(StepView::Done(SYSCALL_RETURN_EXIT))
        },
    }
}

/// Does what a Linux program asks for. A call that is not known ends it.
pub fn dispatch_linux(k: &mut Kernel, decision: BrokerDecision, number: u64, a: Args, info: &[u8]) -> (r:
    Outcome)
    requires
        old(k).wf(),
        decision matches BrokerDecision::Native { call, .. } ==> (call == NativeCall::MUnmap
            ==> range_ok(a.a1, a.a2)),
    ensures
        final(k).wf(),
        linux_dispatched(old(k)@, final(k)@, decision, number, a, info@, r@),
{
    match decision {
        BrokerDecision::Native { call, args } => Outcome::Step(
            dispatch_adapted(k, call, args, number, a, info),
        ),
        BrokerDecision::ProcessPrimitive { operation } => dispatch_primitive(k, operation, a),
        BrokerDecision::Unsupported { number } => {
            if number == 9999 {
                Outcome::Step(Step::Done(SYSCALL_ERROR))
            } else {
                k.cpu.exit_code = 127;
                Outcome::Step(Step::Done(SYSCALL_RETURN_EXIT))
            }
        },
    }
}

} // verus!
