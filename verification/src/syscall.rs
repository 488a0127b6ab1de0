//! System calls: what a program asks for, and what it is answered.
use vstd::prelude::*;

pub mod devices;
pub mod dispatch;
pub mod files;
pub mod handling;
pub mod launching;
pub mod laws;
pub mod leaving;
pub mod linux_files;
pub mod linux_tasks;
pub mod memory;
pub mod native;
pub mod requests;
pub mod signal_frame;

use crate::paging::{Machine, MachineView};
use crate::scheduler::{self, InterruptContext, Scheduler, SchedulerView, Shared, MAX_CPUS};

verus! {

/// The registers of a program that the kernel returns to.
#[derive(Clone, Copy, Debug, PartialEq, Eq, Structural)]
pub struct UserContext {
    pub return_value: u64,
    pub rbx: u64,
    pub rbp: u64,
    pub r12: u64,
    pub r13: u64,
    pub r14: u64,
    pub r15: u64,
    pub rdi: u64,
    pub rsi: u64,
    pub rdx: u64,
    pub r8: u64,
    pub r9: u64,
    pub r10: u64,
    pub instruction_pointer: u64,
    pub flags: u64,
    pub stack_pointer: u64,
}

pub const SYSCALL_RETURN_EXIT: u64 = 0xffff_ffff_ffff_ffff;

pub const SYSCALL_ERROR: u64 = 0xffff_ffff_ffff_fffe;

pub const SYSCALL_RETURN_YIELD: u64 = 0xffff_ffff_ffff_fffd;

pub const SYSCALL_RETURN_WAIT: u64 = 0xffff_ffff_ffff_fffc;

pub const SYSCALL_RETURN_EXEC: u64 = 0xffff_ffff_ffff_fffb;

pub const SYSCALL_WOULD_BLOCK: u64 = 0xffff_ffff_ffff_fffa;

pub const SYSCALL_RETURN_BLOCK: u64 = 0xffff_ffff_ffff_fff9;

pub const SYSCALL_RETURN_FUTEX_WAIT: u64 = 0xffff_ffff_ffff_fff8;

pub const SYSCALL_RETURN_THREAD_EXIT: u64 = 0xffff_ffff_ffff_fff7;

pub const USER_ADDRESS_LIMIT: u64 = 0x0000_8000_0000_0000;

/// The registers of a program that has made a system call, as they are kept on
/// the kernel's stack. `rcx` holds the place to return to, `r11` the flags.
#[derive(Clone, Copy, Debug, PartialEq, Eq, Structural)]
pub struct Frame {
    pub rax: u64,
    pub rdi: u64,
    pub rsi: u64,
    pub rdx: u64,
    pub r8: u64,
    pub r9: u64,
    pub r10: u64,
    pub rcx: u64,
    pub r11: u64,
    pub rbx: u64,
    pub rbp: u64,
    pub r12: u64,
    pub r13: u64,
    pub r14: u64,
    pub r15: u64,
}

/// What a processor keeps for the system call that it works on. The stack that
/// system calls run on lies in the block itself, behind two words.
#[derive(Clone, Copy, Debug, PartialEq, Eq, Structural)]
pub struct CpuLocal {
    pub self_pointer: u64,
    pub syscall_stack_top: u64,
    pub cpu_index: usize,
    pub user_rsp: u64,
    pub exit_code: u64,
    pub frame: Frame,
    pub block_descriptor: u64,
    pub futex_uaddr: u64,
    pub futex_bitset: u32,
}

pub const SYSCALL_STACK_SIZE: u64 = 131_072;

/// Where the stack of a block begins in it.
pub const SYSCALL_STACK_OFFSET: u64 = 16;

/// Where the stack of the block at an address ends.
pub open spec fn stack_end(block: u64) -> int {
    block + SYSCALL_STACK_OFFSET + SYSCALL_STACK_SIZE
}

/// The block of a processor before its first system call, at an address.
pub open spec fn fresh_local(index: usize, block: u64) -> CpuLocal {
    CpuLocal {
        self_pointer: block,
        syscall_stack_top: (stack_end(block) / 16 * 16) as u64,
        cpu_index: index,
        user_rsp: 0,
        exit_code: 0,
        frame: Frame {
            rax: 0,
            rdi: 0,
            rsi: 0,
            rdx: 0,
            r8: 0,
            r9: 0,
            r10: 0,
            rcx: 0,
            r11: 0,
            rbx: 0,
            rbp: 0,
            r12: 0,
            r13: 0,
            r14: 0,
            r15: 0,
        },
        block_descriptor: 0,
        futex_uaddr: 0,
        futex_bitset: 0,
    }
}

/// The block of a processor that there is room for, at its address. Its stack
/// for system calls starts at the end of the block's own stack, where the
/// sixteen words of an entry leave it aligned as a call needs it.
pub fn initialize_cpu_local(index: usize, block: u64) -> (r: Option<CpuLocal>)
    requires
        stack_end(block) <= u64::MAX,
    ensures
        r == if index < MAX_CPUS {
            Some(fresh_local(index, block))
        } else {
            None
        },
        r matches Some(local) ==> {
            &&& local.syscall_stack_top % 16 == 0
            &&& (local.syscall_stack_top - 16 * 8) % 16 == 0
            &&& block % 16 == 0 ==> local.syscall_stack_top == stack_end(block)
        },
{
    if index >= MAX_CPUS {
        return None;
    }
    let frame = Frame {
        rax: 0,
        rdi: 0,
        rsi: 0,
        rdx: 0,
        r8: 0,
        r9: 0,
        r10: 0,
        rcx: 0,
        r11: 0,
        rbx: 0,
        rbp: 0,
        r12: 0,
        r13: 0,
        r14: 0,
        r15: 0,
    };
    Some(
        CpuLocal {
            self_pointer: block,
            syscall_stack_top: syscall_stack_top(block + SYSCALL_STACK_OFFSET),
            cpu_index: index,
            user_rsp: 0,
            exit_code: 0,
            frame,
            block_descriptor: 0,
            futex_uaddr: 0,
            futex_bitset: 0,
        },
    )
}

/// Where the stack for system calls starts: at its upper end, aligned as a
/// call needs it.
pub fn syscall_stack_top(stack: u64) -> (r: u64)
    requires
        stack + SYSCALL_STACK_SIZE <= u64::MAX,
    ensures
        r == (stack + SYSCALL_STACK_SIZE) / 16 * 16,
        r % 16 == 0,
{
    (stack + SYSCALL_STACK_SIZE) / 16 * 16
}

pub fn current_cpu_index(local: &CpuLocal) -> (r: usize)
    ensures
        r == local.cpu_index,
{
    local.cpu_index
}

/// The registers to return to, of a frame and a stack.
pub open spec fn context_of(f: Frame, stack_pointer: u64) -> UserContext {
    UserContext {
        return_value: 0,
        rbx: f.rbx,
        rbp: f.rbp,
        r12: f.r12,
        r13: f.r13,
        r14: f.r14,
        r15: f.r15,
        rdi: f.rdi,
        rsi: f.rsi,
        rdx: f.rdx,
        r8: f.r8,
        r9: f.r9,
        r10: f.r10,
        instruction_pointer: f.rcx,
        flags: f.r11,
        stack_pointer,
    }
}

pub fn user_context(f: &Frame, stack_pointer: u64) -> (r: UserContext)
    ensures
        r == context_of(*f, stack_pointer),
{
    UserContext {
        return_value: 0,
        rbx: f.rbx,
        rbp: f.rbp,
        r12: f.r12,
        r13: f.r13,
        r14: f.r14,
        r15: f.r15,
        rdi: f.rdi,
        rsi: f.rsi,
        rdx: f.rdx,
        r8: f.r8,
        r9: f.r9,
        r10: f.r10,
        instruction_pointer: f.rcx,
        flags: f.r11,
        stack_pointer,
    }
}

/// The registers of a child that goes on from a frame with another stack.
pub open spec fn child_registers(f: Frame, child_sp: u64) -> InterruptContext {
    InterruptContext {
        r15: f.r15,
        r14: f.r14,
        r13: f.r13,
        r12: f.r12,
        r11: f.r11,
        r10: f.r10,
        r9: f.r9,
        r8: f.r8,
        rdi: f.rdi,
        rsi: f.rsi,
        rbp: f.rbp,
        rdx: f.rdx,
        rcx: f.rcx,
        rbx: f.rbx,
        rax: 0,
        instruction_pointer: f.rcx,
        code_segment: 0x33,
        flags: f.r11 | 0x202,
        stack_pointer: child_sp,
        stack_segment: 0x2b,
    }
}

pub fn clone_interrupt_context(f: &Frame, child_sp: u64) -> (r: InterruptContext)
    ensures
        r == child_registers(*f, child_sp),
{
    let (code_segment, stack_segment) = crate::gdt::user_interrupt_selectors();
    InterruptContext::new(
        f.r15,
        f.r14,
        f.r13,
        f.r12,
        f.r11,
        f.r10,
        f.r9,
        f.r8,
        f.rdi,
        f.rsi,
        f.rbp,
        f.rdx,
        f.rcx,
        f.rbx,
        0,
        f.rcx,
        code_segment,
        f.r11 | 0x202,
        child_sp,
        stack_segment,
    )
}

/// What system calls work on.
pub struct Kernel {
    pub machine: Machine,
    pub scheduler: Option<Scheduler>,
    pub shared: Shared,
    pub cpu: CpuLocal,
}

#[verifier::ext_equal]
pub struct KernelView {
    pub machine: MachineView,
    pub scheduler: Option<SchedulerView>,
    pub shared: Shared,
    pub cpu: CpuLocal,
}

impl View for Kernel {
    type V = KernelView;

    open spec fn view(&self) -> KernelView {
        KernelView {
            machine: self.machine@,
            scheduler: scheduler::seen(self.scheduler),
            shared: self.shared,
            cpu: self.cpu,
        }
    }
}

impl Kernel {
    pub open spec fn wf(&self) -> bool {
        self.machine.wf() && scheduler::ready(self.scheduler)
    }
}

impl KernelView {
    pub open spec fn with_scheduler(self, s: SchedulerView) -> KernelView {
        KernelView { scheduler: Some(s), ..self }
    }
}

/// What a call of the file system is to change.
pub enum Change {
    CreateDirectory { path: Vec<u8> },
    Remove { path: Vec<u8> },
    Rename { from: Vec<u8>, to: Vec<u8> },
}

/// What a program asks of the display and the other devices.
#[derive(Clone, Copy, Debug, PartialEq, Eq, Structural)]
pub enum Device {
    DisplayInfo { pointer: u64 },
    Blit { x: u64, y: u64, width: u64, height: u64, pointer: u64 },
    Flush,
    PollInput { pointer: u64 },
}

/// A program to be started with arguments and given descriptors.
pub struct Launch {
    pub path: Vec<u8>,
    pub with_args: u64,
    pub arguments: crate::store::Store<Vec<u8>>,
    pub environment: crate::store::Store<Vec<u8>>,
    pub stdin: u64,
    pub stdout: u64,
    pub stderr: u64,
}

/// How a system call goes on: with a value for the program, or with something
/// that is done outside and answered.
pub enum Step {
    Done(u64),
    /// Bytes for the terminal; the program gets `length`.
    Print { bytes: Vec<u8>, length: u64 },
    /// A read from the terminal.
    ReadTty { fd: u64, pointer: u64, length: usize },
    /// A read from a connection.
    Receive { socket: usize, fd: u64, pointer: u64, length: usize },
    /// A write to a connection; if it fails, the bytes may be printed.
    Send { socket: usize, bytes: Vec<u8>, length: u64, fallback: bool },
    /// The contents of a file, to be stored.
    Store { path: Vec<u8>, contents: Vec<u8>, bytes: Vec<u8>, length: u64, fallback: bool },
    /// A connection that ends.
    Disconnect { connection: crate::network::TcpConnection },
    /// A connection to be made.
    Connect { fd: u64, address: u32, port: u16 },
    /// Files to be opened.
    Open { path: Vec<u8> },
    OpenNative { path: Vec<u8>, flags: u64 },
    OpenLinux { path: Vec<u8>, flags: u64 },
    StatLinux { path: Vec<u8>, pointer: u64 },
    Access { path: Vec<u8> },
    Change(Change),
    /// Programs to be started.
    Spawn { path: Vec<u8> },
    SpawnNative(Launch),
    /// A copy of the address space for a child.
    Fork { request: crate::scheduler::birth::CloneRequest },
    /// A change of the protection of pages; the program gets `value`, or an
    /// error if that counts and the change fails.
    Protect { address: u64, pages: u64, flags: u64, value: u64, strict: bool },
    /// The base of thread-local storage, to be set; the program gets zero.
    SetFsBase { address: u64 },
    Device(Device),
}

pub enum ChangeView {
    CreateDirectory { path: Seq<u8> },
    Remove { path: Seq<u8> },
    Rename { from: Seq<u8>, to: Seq<u8> },
}

#[verifier::ext_equal]
pub struct LaunchView {
    pub path: Seq<u8>,
    pub with_args: u64,
    pub arguments: Seq<Seq<u8>>,
    pub environment: Seq<Seq<u8>>,
    pub stdin: u64,
    pub stdout: u64,
    pub stderr: u64,
}

#[verifier::ext_equal]
pub enum StepView {
    Done(u64),
    Print { bytes: Seq<u8>, length: u64 },
    ReadTty { fd: u64, pointer: u64, length: usize },
    Receive { socket: usize, fd: u64, pointer: u64, length: usize },
    Send { socket: usize, bytes: Seq<u8>, length: u64, fallback: bool },
    Store { path: Seq<u8>, contents: Seq<u8>, bytes: Seq<u8>, length: u64, fallback: bool },
    Disconnect { connection: crate::network::TcpConnection },
    Connect { fd: u64, address: u32, port: u16 },
    Open { path: Seq<u8> },
    OpenNative { path: Seq<u8>, flags: u64 },
    OpenLinux { path: Seq<u8>, flags: u64 },
    StatLinux { path: Seq<u8>, pointer: u64 },
    Access { path: Seq<u8> },
    Change(ChangeView),
    Spawn { path: Seq<u8> },
    SpawnNative(LaunchView),
    Fork { request: crate::scheduler::birth::CloneRequest },
    Protect { address: u64, pages: u64, flags: u64, value: u64, strict: bool },
    SetFsBase { address: u64 },
    Device(Device),
}

impl View for Change {
    type V = ChangeView;

    open spec fn view(&self) -> ChangeView {
        match self {
            Change::CreateDirectory { path } => ChangeView::CreateDirectory { path: path@ },
            Change::Remove { path } => ChangeView::Remove { path: path@ },
            Change::Rename { from, to } => ChangeView::Rename { from: from@, to: to@ },
        }
    }
}

impl View for Launch {
    type V = LaunchView;

    open spec fn view(&self) -> LaunchView {
        LaunchView {
            path: self.path@,
            with_args: self.with_args,
            arguments: self.arguments@,
            environment: self.environment@,
            stdin: self.stdin,
            stdout: self.stdout,
            stderr: self.stderr,
        }
    }
}

impl View for Step {
    type V = StepView;

    open spec fn view(&self) -> StepView {
        match self {
            Step::Done(value) => StepView::Done(*value),
            Step::Print { bytes, length } => StepView::Print { bytes: bytes@, length: *length },
            Step::ReadTty { fd, pointer, length } => StepView::ReadTty {
                fd: *fd,
                pointer: *pointer,
                length: *length,
            },
            Step::Receive { socket, fd, pointer, length } => StepView::Receive {
                socket: *socket,
                fd: *fd,
                pointer: *pointer,
                length: *length,
            },
            Step::Send { socket, bytes, length, fallback } => StepView::Send {
                socket: *socket,
                bytes: bytes@,
                length: *length,
                fallback: *fallback,
            },
            Step::Store { path, contents, bytes, length, fallback } => StepView::Store {
                path: path@,
                contents: contents@,
                bytes: bytes@,
                length: *length,
                fallback: *fallback,
            },
            Step::Disconnect { connection } => StepView::Disconnect { connection: *connection },
            Step::Connect { fd, address, port } => StepView::Connect {
                fd: *fd,
                address: *address,
                port: *port,
            },
            Step::Open { path } => StepView::Open { path: path@ },
            Step::OpenNative { path, flags } => StepView::OpenNative { path: path@, flags: *flags },
            Step::OpenLinux { path, flags } => StepView::OpenLinux { path: path@, flags: *flags },
            Step::StatLinux { path, pointer } => StepView::StatLinux {
                path: path@,
                pointer: *pointer,
            },
            Step::Access { path } => StepView::Access { path: path@ },
            Step::Change(change) => StepView::Change(change@),
            Step::Spawn { path } => StepView::Spawn { path: path@ },
            Step::SpawnNative(launch) => StepView::SpawnNative(launch@),
            Step::Fork { request } => StepView::Fork { request: *request },
            Step::Protect { address, pages, flags, value, strict } => StepView::Protect {
                address: *address,
                pages: *pages,
                flags: *flags,
                value: *value,
                strict: *strict,
            },
            Step::SetFsBase { address } => StepView::SetFsBase { address: *address },
            Step::Device(device) => StepView::Device(*device),
        }
    }
}

/// A failure.
pub open spec fn refused() -> StepView {
    StepView::Done(SYSCALL_ERROR)
}

/// A number, or a failure.
pub open spec fn or_error(r: Result<u64, ()>) -> u64 {
    match r {
        Ok(value) => value,
        Err(_) => SYSCALL_ERROR,
    }
}

pub(crate) fn value_or_error(r: Result<u64, ()>) -> (v: u64)
    ensures
        v == or_error(r),
{
    match r {
        Ok(value) => value,
        Err(_) => SYSCALL_ERROR,
    }
}

} // verus!
