//! The tasks of a processor, what they share, and which of them runs.
use vstd::prelude::*;

pub mod birth;
pub mod channels;
pub mod descriptors;
pub mod endings;
pub mod handles;
pub mod io;
pub mod laws;
pub mod lifecycle;
pub mod signals;
pub mod switch;
pub mod transfer;

use crate::abi::{CapabilityId, Credentials, Rights};
use crate::gdt::user_interrupt_selectors;
use crate::network::TcpConnection;
use crate::paging::AddressSpace;
use crate::process::{Process, ProcessView};
use crate::store::Store;
use crate::syscall::UserContext;

verus! {

pub const TIMER_TICKS_PER_SLICE: u64 = 3;

pub const MAX_CPUS: usize = 8;

pub const MAX_TASKS: usize = 256;

pub const MAX_DESCRIPTORS: usize = 256;

pub const IPC_QUEUE_LIMIT: usize = 8;

pub const IPC_MESSAGE_LIMIT: usize = 256;

/// The registers of a program that was interrupted.
#[derive(Clone, Copy, Debug, PartialEq, Eq, Structural)]
pub struct InterruptContext {
    pub r15: u64,
    pub r14: u64,
    pub r13: u64,
    pub r12: u64,
    pub r11: u64,
    pub r10: u64,
    pub r9: u64,
    pub r8: u64,
    pub rdi: u64,
    pub rsi: u64,
    pub rbp: u64,
    pub rdx: u64,
    pub rcx: u64,
    pub rbx: u64,
    pub rax: u64,
    pub instruction_pointer: u64,
    pub code_segment: u64,
    pub flags: u64,
    pub stack_pointer: u64,
    pub stack_segment: u64,
}

/// The registers of a program that has not run yet.
pub open spec fn initial_registers(entry: u64, stack_pointer: u64) -> InterruptContext {
    InterruptContext {
        r15: 0,
        r14: 0,
        r13: 0,
        r12: 0,
        r11: 0,
        r10: 0,
        r9: 0,
        r8: 0,
        rdi: 0,
        rsi: 0,
        rbp: 0,
        rdx: 0,
        rcx: 0,
        rbx: 0,
        rax: 0,
        instruction_pointer: entry,
        code_segment: 0x33,
        flags: 0x202,
        stack_pointer,
        stack_segment: 0x2b,
    }
}

impl InterruptContext {
    pub fn new(
        r15: u64,
        r14: u64,
        r13: u64,
        r12: u64,
        r11: u64,
        r10: u64,
        r9: u64,
        r8: u64,
        rdi: u64,
        rsi: u64,
        rbp: u64,
        rdx: u64,
        rcx: u64,
        rbx: u64,
        rax: u64,
        instruction_pointer: u64,
        code_segment: u64,
        flags: u64,
        stack_pointer: u64,
        stack_segment: u64,
    ) -> (r: Self)
        ensures
            r == (InterruptContext {
                r15,
                r14,
                r13,
                r12,
                r11,
                r10,
                r9,
                r8,
                rdi,
                rsi,
                rbp,
                rdx,
                rcx,
                rbx,
                rax,
                instruction_pointer,
                code_segment,
                flags,
                stack_pointer,
                stack_segment,
            }),
    {
        InterruptContext {
            r15,
            r14,
            r13,
            r12,
            r11,
            r10,
            r9,
            r8,
            rdi,
            rsi,
            rbp,
            rdx,
            rcx,
            rbx,
            rax,
            instruction_pointer,
            code_segment,
            flags,
            stack_pointer,
            stack_segment,
        }
    }

    pub fn initial(entry: u64, stack_pointer: u64) -> (r: Self)
        ensures
            r == initial_registers(entry, stack_pointer),
    {
        let (code_segment, stack_segment) = user_interrupt_selectors();
        InterruptContext {
            r15: 0,
            r14: 0,
            r13: 0,
            r12: 0,
            r11: 0,
            r10: 0,
            r9: 0,
            r8: 0,
            rdi: 0,
            rsi: 0,
            rbp: 0,
            rdx: 0,
            rcx: 0,
            rbx: 0,
            rax: 0,
            instruction_pointer: entry,
            code_segment,
            flags: 0x202,
            stack_pointer,
            stack_segment,
        }
    }

    /// Whether a user program was interrupted: the lowest two bits of its code
    /// segment are its privilege level.
    pub fn interrupted_user_mode(&self) -> (r: bool)
        ensures
            r == (self.code_segment % 4 == 3),
    {
        self.code_segment % 4 == 3
    }
}

#[derive(Clone, Copy, Debug, PartialEq, Eq, Structural)]
pub enum TaskState {
    Runnable,
    Waiting { child_pid: u64, status_ptr: u64 },
    PipeWaiting { pipe_id: u64 },
    FutexWait { uaddr: u64, bitset: u32 },
    Zombie { exit_code: u64 },
    Reaped,
}

/// What a program has asked to be done on a signal.
#[derive(Clone, Copy, Debug, PartialEq, Eq, Structural)]
pub struct LinuxSigAction {
    pub sa_handler: u64,
    pub sa_flags: u64,
    pub sa_restorer: u64,
    pub sa_mask: u64,
}

/// The action of a signal that no program has set.
pub open spec fn no_action() -> LinuxSigAction {
    LinuxSigAction { sa_handler: 0, sa_flags: 0, sa_restorer: 0, sa_mask: 0 }
}

pub(crate) fn make_no_action() -> (r: LinuxSigAction)
    ensures
        r == no_action(),
{
    LinuxSigAction { sa_handler: 0, sa_flags: 0, sa_restorer: 0, sa_mask: 0 }
}

/// A task: a thread of a process. The process, the table of descriptors and
/// the signal actions may be shared with others, and are known by their places.
#[derive(Clone, Copy, Debug)]
pub struct Task {
    pub tid: u64,
    pub tgid: u64,
    pub parent_pid: Option<u64>,
    pub state: TaskState,
    pub process: Option<usize>,
    pub context: UserContext,
    pub interrupt_context: InterruptContext,
    pub descriptors: usize,
    pub credentials: Credentials,
    pub signal_actions: usize,
    pub fs_base: u64,
    pub blocked_mask: u64,
    pub pending_signals: u64,
    pub clear_child_tid: u64,
}

/// What a descriptor stands for; objects are known by their places.
#[derive(Clone, Copy, Debug, PartialEq, Eq, Structural)]
pub enum DescriptorResource {
    File(usize),
    Directory(usize),
    Serial,
    Tty,
    PipeRead(usize),
    PipeWrite(usize),
    Socket(usize),
    Ipc { channel: usize, send: bool },
    Epoll(usize),
    EventFd(usize),
    PtyMaster(usize),
    PtySlave(usize),
}

#[derive(Clone, Copy, Debug, PartialEq, Eq, Structural)]
pub struct FileDescriptor {
    pub capability: CapabilityId,
    pub rights: Rights,
    pub resource: DescriptorResource,
}

// ---------------------------------------------------------------------------
// What descriptors stand for
// ---------------------------------------------------------------------------
#[derive(Debug)]
pub struct OpenFile {
    pub path: Vec<u8>,
    pub contents: Vec<u8>,
    pub offset: usize,
    pub writable: bool,
}

#[verifier::ext_equal]
pub struct FileView {
    pub path: Seq<u8>,
    pub contents: Seq<u8>,
    pub offset: int,
    pub writable: bool,
}

impl View for OpenFile {
    type V = FileView;

    open spec fn view(&self) -> FileView {
        FileView {
            path: self.path@,
            contents: self.contents@,
            offset: self.offset as int,
            writable: self.writable,
        }
    }
}

pub struct OpenDirectory {
    pub entries: Store<Vec<u8>>,
    pub offset: usize,
}

#[verifier::ext_equal]
pub struct DirectoryView {
    pub entries: Seq<Seq<u8>>,
    pub offset: int,
}

impl View for OpenDirectory {
    type V = DirectoryView;

    open spec fn view(&self) -> DirectoryView {
        DirectoryView { entries: self.entries@, offset: self.offset as int }
    }
}

/// The bytes that were written to a pipe and not yet read.
#[derive(Debug)]
pub struct PipeState {
    pub id: u64,
    pub bytes: Vec<u8>,
    pub writer_open: bool,
}

#[verifier::ext_equal]
pub struct PipeView {
    pub id: u64,
    pub bytes: Seq<u8>,
    pub writer_open: bool,
}

impl View for PipeState {
    type V = PipeView;

    open spec fn view(&self) -> PipeView {
        PipeView { id: self.id, bytes: self.bytes@, writer_open: self.writer_open }
    }
}

#[derive(Clone, Copy, Debug)]
pub struct OpenSocket {
    pub connection: Option<TcpConnection>,
}

impl View for OpenSocket {
    type V = OpenSocket;

    open spec fn view(&self) -> OpenSocket {
        *self
    }
}

#[derive(Debug)]
pub struct IpcMessage {
    pub sender_pid: u64,
    pub bytes: Vec<u8>,
}

#[verifier::ext_equal]
pub struct MessageView {
    pub sender_pid: u64,
    pub bytes: Seq<u8>,
}

impl View for IpcMessage {
    type V = MessageView;

    open spec fn view(&self) -> MessageView {
        MessageView { sender_pid: self.sender_pid, bytes: self.bytes@ }
    }
}

pub struct IpcState {
    pub id: u64,
    pub queue: Store<IpcMessage>,
    pub revoked: bool,
}

#[verifier::ext_equal]
pub struct ChannelView {
    pub id: u64,
    pub queue: Seq<MessageView>,
    pub revoked: bool,
}

impl View for IpcState {
    type V = ChannelView;

    open spec fn view(&self) -> ChannelView {
        ChannelView { id: self.id, queue: self.queue@, revoked: self.revoked }
    }
}

#[derive(Clone, Copy, Debug, PartialEq, Eq, Structural)]
pub struct EpollItem {
    pub fd: u64,
    pub events: u32,
    pub data: u64,
}

#[derive(Debug)]
pub struct EpollInstance {
    pub items: Vec<EpollItem>,
}

impl View for EpollInstance {
    type V = Seq<EpollItem>;

    open spec fn view(&self) -> Seq<EpollItem> {
        self.items@
    }
}

#[derive(Clone, Copy, Debug, PartialEq, Eq, Structural)]
pub struct EventFdInstance {
    pub counter: u64,
    pub flags: u32,
}

impl View for EventFdInstance {
    type V = EventFdInstance;

    open spec fn view(&self) -> EventFdInstance {
        *self
    }
}

#[derive(Debug)]
pub struct PtyState {
    pub master_to_slave: Vec<u8>,
    pub slave_to_master: Vec<u8>,
    pub rows: u16,
    pub cols: u16,
    pub raw: bool,
}

#[verifier::ext_equal]
pub struct PtyView {
    pub master_to_slave: Seq<u8>,
    pub slave_to_master: Seq<u8>,
    pub rows: u16,
    pub cols: u16,
    pub raw: bool,
}

impl View for PtyState {
    type V = PtyView;

    open spec fn view(&self) -> PtyView {
        PtyView {
            master_to_slave: self.master_to_slave@,
            slave_to_master: self.slave_to_master@,
            rows: self.rows,
            cols: self.cols,
            raw: self.raw,
        }
    }
}

/// All objects that descriptors stand for.
pub struct Objects {
    pub files: Store<OpenFile>,
    pub directories: Store<OpenDirectory>,
    pub pipes: Store<PipeState>,
    pub sockets: Store<OpenSocket>,
    pub channels: Store<IpcState>,
    pub epolls: Store<EpollInstance>,
    pub event_fds: Store<EventFdInstance>,
    pub ptys: Store<PtyState>,
}

#[verifier::ext_equal]
pub struct ObjectsView {
    pub files: Seq<FileView>,
    pub directories: Seq<DirectoryView>,
    pub pipes: Seq<PipeView>,
    pub sockets: Seq<OpenSocket>,
    pub channels: Seq<ChannelView>,
    pub epolls: Seq<Seq<EpollItem>>,
    pub event_fds: Seq<EventFdInstance>,
    pub ptys: Seq<PtyView>,
}

impl View for Objects {
    type V = ObjectsView;

    open spec fn view(&self) -> ObjectsView {
        ObjectsView {
            files: self.files@,
            directories: self.directories@,
            pipes: self.pipes@,
            sockets: self.sockets@,
            channels: self.channels@,
            epolls: self.epolls@,
            event_fds: self.event_fds@,
            ptys: self.ptys@,
        }
    }
}

impl ObjectsView {
    /// Whether the object of a resource is there.
    pub open spec fn holds(self, resource: DescriptorResource) -> bool {
        match resource {
            DescriptorResource::File(k) => k < self.files.len(),
            DescriptorResource::Directory(k) => k < self.directories.len(),
            DescriptorResource::Serial => true,
            DescriptorResource::Tty => true,
            DescriptorResource::PipeRead(k) => k < self.pipes.len(),
            DescriptorResource::PipeWrite(k) => k < self.pipes.len(),
            DescriptorResource::Socket(k) => k < self.sockets.len(),
            DescriptorResource::Ipc { channel, .. } => channel < self.channels.len(),
            DescriptorResource::Epoll(k) => k < self.epolls.len(),
            DescriptorResource::EventFd(k) => k < self.event_fds.len(),
            DescriptorResource::PtyMaster(k) => k < self.ptys.len(),
            DescriptorResource::PtySlave(k) => k < self.ptys.len(),
        }
    }

    /// No file is read past its end, and no directory past its last entry.
    pub open spec fn sound(self) -> bool {
        &&& forall|i: int|
            0 <= i < self.files.len() ==> 0 <= (#[trigger] self.files[i]).offset
                <= self.files[i].contents.len()
        &&& forall|i: int|
            0 <= i < self.directories.len() ==> 0 <= (#[trigger] self.directories[i]).offset
                <= self.directories[i].entries.len()
    }

    /// Whether nothing of `other` is missing here.
    pub open spec fn keeps(self, other: ObjectsView) -> bool {
        &&& other.files.len() <= self.files.len()
        &&& other.directories.len() <= self.directories.len()
        &&& other.pipes.len() <= self.pipes.len()
        &&& other.sockets.len() <= self.sockets.len()
        &&& other.channels.len() <= self.channels.len()
        &&& other.epolls.len() <= self.epolls.len()
        &&& other.event_fds.len() <= self.event_fds.len()
        &&& other.ptys.len() <= self.ptys.len()
    }
}

// ---------------------------------------------------------------------------
// The scheduler
// ---------------------------------------------------------------------------
/// The tasks of one processor and what they share.
pub struct Scheduler {
    pub tasks: Vec<Task>,
    pub current: usize,
    pub kernel_space: AddressSpace,
    pub ticks: u64,
    pub slice_ticks: u64,
    pub processes: Store<Process>,
    pub tables: Store<Vec<Option<FileDescriptor>>>,
    pub actions: Store<Vec<LinuxSigAction>>,
    pub objects: Objects,
}

#[verifier::ext_equal]
pub struct SchedulerView {
    pub tasks: Seq<Task>,
    pub current: int,
    pub kernel_space: AddressSpace,
    pub ticks: u64,
    pub slice_ticks: u64,
    pub processes: Seq<ProcessView>,
    pub tables: Seq<Seq<Option<FileDescriptor>>>,
    pub actions: Seq<Seq<LinuxSigAction>>,
    pub objects: ObjectsView,
}

impl View for Scheduler {
    type V = SchedulerView;

    open spec fn view(&self) -> SchedulerView {
        SchedulerView {
            tasks: self.tasks@,
            current: self.current as int,
            kernel_space: self.kernel_space,
            ticks: self.ticks,
            slice_ticks: self.slice_ticks,
            processes: self.processes@,
            tables: self.tables@,
            actions: self.actions@,
            objects: self.objects@,
        }
    }
}

/// A task's places are all there, and one without a process has ended.
pub open spec fn task_ok(t: Task, s: SchedulerView) -> bool {
    &&& t.process is None ==> t.state is Zombie || t.state is Reaped
    &&& t.descriptors < s.tables.len()
    &&& t.signal_actions < s.actions.len()
    &&& t.process matches Some(p) ==> p < s.processes.len()
}

/// A table is not too long, and the objects of its descriptors are there.
pub open spec fn table_ok(table: Seq<Option<FileDescriptor>>, objects: ObjectsView) -> bool {
    &&& table.len() <= 256
    &&& forall|j: int|
        0 <= j < table.len() && (#[trigger] table[j]) is Some ==> objects.holds(table[j]->0.resource)
}

impl SchedulerView {
    pub open spec fn wf(self) -> bool {
        &&& 0 <= self.current < self.tasks.len() <= usize::MAX
        &&& self.slice_ticks < 3
        &&& forall|i: int| 0 <= i < self.tasks.len() ==> task_ok(#[trigger] self.tasks[i], self)
        &&& forall|i: int|
            0 <= i < self.tables.len() ==> table_ok(#[trigger] self.tables[i], self.objects)
        &&& forall|i: int| 0 <= i < self.actions.len() ==> (#[trigger] self.actions[i]).len() == 65
        &&& self.objects.sound()
    }

    /// The task that runs.
    pub open spec fn task(self) -> Task {
        self.tasks[self.current]
    }

    /// Its descriptors.
    pub open spec fn table(self) -> Seq<Option<FileDescriptor>> {
        self.tables[self.task().descriptors as int]
    }

    pub open spec fn with_task(self, i: int, t: Task) -> SchedulerView {
        SchedulerView { tasks: self.tasks.update(i, t), ..self }
    }

    pub open spec fn with_current(self, t: Task) -> SchedulerView {
        self.with_task(self.current, t)
    }

    pub open spec fn with_table(self, table: Seq<Option<FileDescriptor>>) -> SchedulerView {
        SchedulerView {
            tables: self.tables.update(self.task().descriptors as int, table),
            ..self
        }
    }

    pub open spec fn with_objects(self, objects: ObjectsView) -> SchedulerView {
        SchedulerView { objects, ..self }
    }
}

/// What a processor's scheduler stands for, if there is one.
pub open spec fn seen(s: Option<Scheduler>) -> Option<SchedulerView> {
    match s {
        Some(x) => Some(x@),
        None => None,
    }
}

pub open spec fn ready(s: Option<Scheduler>) -> bool {
    s matches Some(x) ==> x@.wf()
}

/// The numbers that are given out, over all processors, and the terminal.
#[derive(Clone, Copy, Debug, PartialEq, Eq, Structural)]
pub struct Shared {
    pub next_pid: u64,
    pub next_pipe_id: u64,
    pub next_ipc_id: u64,
    pub next_capability_slot: u64,
    pub tty_ctrl_held: bool,
    pub foreground_pid: u64,
}

pub open spec fn after(n: u64) -> u64 {
    if n == u64::MAX {
        0
    } else {
        (n + 1) as u64
    }
}

impl Shared {
    pub fn new() -> (r: Self)
        ensures
            r == (Shared {
                next_pid: 1,
                next_pipe_id: 1,
                next_ipc_id: 1,
                next_capability_slot: 1,
                tty_ctrl_held: false,
                foreground_pid: 0,
            }),
    {
        Shared {
            next_pid: 1,
            next_pipe_id: 1,
            next_ipc_id: 1,
            next_capability_slot: 1,
            tty_ctrl_held: false,
            foreground_pid: 0,
        }
    }

    pub(crate) fn allocate_pid(&mut self) -> (r: u64)
        ensures
            r == old(self).next_pid,
            *final(self) == (Shared { next_pid: after(r), ..*old(self) }),
    {
        let pid: u64 = self.next_pid;
        self.next_pid = pid.wrapping_add(1);
        pid
    }

    pub(crate) fn allocate_pipe_id(&mut self) -> (r: u64)
        ensures
            r == old(self).next_pipe_id,
            *final(self) == (Shared { next_pipe_id: after(r), ..*old(self) }),
    {
        let id: u64 = self.next_pipe_id;
        self.next_pipe_id = id.wrapping_add(1);
        id
    }

    pub(crate) fn allocate_ipc_id(&mut self) -> (r: u64)
        ensures
            r == old(self).next_ipc_id,
            *final(self) == (Shared { next_ipc_id: after(r), ..*old(self) }),
    {
        let id: u64 = self.next_ipc_id;
        self.next_ipc_id = id.wrapping_add(1);
        id
    }

    pub(crate) fn allocate_capability(&mut self) -> (r: CapabilityId)
        ensures
            r == capability(old(self).next_capability_slot),
            *final(self) == (Shared {
                next_capability_slot: after(old(self).next_capability_slot),
                ..*old(self)
            }),
    {
        let slot: u64 = self.next_capability_slot;
        self.next_capability_slot = slot.wrapping_add(1);
        CapabilityId::from_parts((slot % 0x1_0000_0000) as u32, 1)
    }
}

/// The capability of a slot, in its first generation.
pub open spec fn capability(slot: u64) -> CapabilityId {
    CapabilityId((0x1_0000_0000 + slot % 0x1_0000_0000) as u64)
}

/// Which scheduler a processor uses.
pub fn current_scheduler(cpu_index: usize) -> (r: usize)
    ensures
        r == if cpu_index < 8 {
            cpu_index as int
        } else {
            7
        },
{
    if cpu_index < MAX_CPUS {
        cpu_index
    } else {
        MAX_CPUS - 1
    }
}

// ---------------------------------------------------------------------------
// The running task
// ---------------------------------------------------------------------------
pub fn current_pid(scheduler: &Option<Scheduler>) -> (r: u64)
    requires
        ready(*scheduler),
    ensures
        r == (match seen(*scheduler) {
            Some(s) => s.task().tgid,
            None => 0,
        }),
{
    match scheduler {
        Some(s) => s.tasks[s.current].tgid,
        None => 0,
    }
}

pub fn current_tid(scheduler: &Option<Scheduler>) -> (r: u64)
    requires
        ready(*scheduler),
    ensures
        r == (match seen(*scheduler) {
            Some(s) => s.task().tid,
            None => 0,
        }),
{
    match scheduler {
        Some(s) => s.tasks[s.current].tid,
        None => 0,
    }
}

pub fn current_tgid(scheduler: &Option<Scheduler>) -> (r: u64)
    requires
        ready(*scheduler),
    ensures
        r == (match seen(*scheduler) {
            Some(s) => s.task().tgid,
            None => 0,
        }),
{
    match scheduler {
        Some(s) => s.tasks[s.current].tgid,
        None => 0,
    }
}

pub fn current_parent_pid(scheduler: &Option<Scheduler>) -> (r: u64)
    requires
        ready(*scheduler),
    ensures
        r == (match seen(*scheduler) {
            Some(s) => match s.task().parent_pid {
                Some(pid) => pid,
                None => 0,
            },
            None => 0,
        }),
{
    match scheduler {
        Some(s) => match s.tasks[s.current].parent_pid {
            Some(pid) => pid,
            None => 0,
        },
        None => 0,
    }
}

pub fn current_credentials(scheduler: &Option<Scheduler>) -> (r: Credentials)
    requires
        ready(*scheduler),
    ensures
        r == (match seen(*scheduler) {
            Some(s) => s.task().credentials,
            None => crate::abi::root_credentials(),
        }),
{
    match scheduler {
        Some(s) => s.tasks[s.current].credentials,
        None => Credentials::root(),
    }
}

pub fn current_fs_base(scheduler: &Option<Scheduler>) -> (r: u64)
    requires
        ready(*scheduler),
    ensures
        r == (match seen(*scheduler) {
            Some(s) => s.task().fs_base,
            None => 0,
        }),
{
    match scheduler {
        Some(s) => s.tasks[s.current].fs_base,
        None => 0,
    }
}

pub fn task_count(scheduler: &Option<Scheduler>) -> (r: usize)
    ensures
        r == (match seen(*scheduler) {
            Some(s) => s.tasks.len(),
            None => 0,
        }),
{
    match scheduler {
        Some(s) => s.tasks.len(),
        None => 0,
    }
}

/// The thread group of a task.
pub fn scheduler_pid(scheduler: &Option<Scheduler>, index: usize) -> (r: u64)
    requires
        scheduler matches Some(s) ==> index < s.tasks.len(),
    ensures
        r == (match seen(*scheduler) {
            Some(s) => s.tasks[index as int].tgid,
            None => 0,
        }),
{
    match scheduler {
        Some(s) => s.tasks[index].tgid,
        None => 0,
    }
}

pub fn scheduler_tid(scheduler: &Option<Scheduler>, index: usize) -> (r: u64)
    requires
        scheduler matches Some(s) ==> index < s.tasks.len(),
    ensures
        r == (match seen(*scheduler) {
            Some(s) => s.tasks[index as int].tid,
            None => 0,
        }),
{
    match scheduler {
        Some(s) => s.tasks[index].tid,
        None => 0,
    }
}

pub open spec fn personality_of(s: SchedulerView) -> crate::process::ProcessPersonality {
    match s.task().process {
        Some(p) => s.processes[p as int].personality,
        None => crate::process::ProcessPersonality::NativeVanta,
    }
}

/// The kind of program that runs.
pub fn current_personality(scheduler: &Option<Scheduler>) -> (r: crate::process::ProcessPersonality)
    requires
        ready(*scheduler),
    ensures
        r == (match seen(*scheduler) {
            Some(s) => personality_of(s),
            None => crate::process::ProcessPersonality::NativeVanta,
        }),
{
    match scheduler {
        Some(s) => {
            let task = s.tasks[s.current];
            assert(task_ok(s@.tasks[s@.current], s@));
            match task.process {
                Some(p) => s.processes.get(p).personality(),
                None => crate::process::ProcessPersonality::NativeVanta,
            }
        },
        None => crate::process::ProcessPersonality::NativeVanta,
    }
}

pub fn set_current_fs_base(scheduler: &mut Option<Scheduler>, fs_base: u64) -> (r: Result<(), ()>)
    requires
        ready(*old(scheduler)),
    ensures
        ready(*final(scheduler)),
        r is Ok <==> *old(scheduler) is Some,
        seen(*final(scheduler)) == (match seen(*old(scheduler)) {
            Some(s) => Some(s.with_current(Task { fs_base, ..s.task() })),
            None => None,
        }),
{
    match scheduler {
        Some(s) => {
            let current: usize = s.current;
            let task = s.tasks[current];
            assert(task_ok(s@.tasks[s@.current], s@));
            s.tasks[current] = Task { fs_base, ..task };
            Ok(())
        },
        None => Err(()),
    }
}

} // verus!
