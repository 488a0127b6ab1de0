//! How tasks come to be.
use vstd::prelude::*;

use crate::abi::{self, Credentials, Rights};
use crate::bytes;
use crate::linux;
use crate::paging::{AddressSpace, Machine, MachineView};
use crate::process::{self, Process, ProcessView};
use crate::scheduler::{
    self, make_no_action, DescriptorResource, FileDescriptor, InterruptContext, LinuxSigAction,
    MAX_TASKS, Objects, ObjectsView, Scheduler, SchedulerView, Shared, Task, TaskState,
};
use crate::scheduler::lifecycle::{self, release_process};
use crate::scheduler::switch::{self, Target};
use crate::store::Store;
use crate::syscall::UserContext;

verus! {

/// The registers that a program starts with.
pub open spec fn initial_context(entry: u64, stack_top: u64) -> UserContext {
    UserContext {
        return_value: 0,
        rbx: 0,
        rbp: 0,
        r12: stack_top,
        r13: 0,
        r14: 0,
        r15: 0,
        rdi: 0,
        rsi: 0,
        rdx: 0,
        r8: 0,
        r9: 0,
        r10: 0,
        instruction_pointer: entry,
        flags: 0x202,
        stack_pointer: stack_top,
    }
}

fn make_context(entry: u64, stack_top: u64) -> (r: UserContext)
    ensures
        r == initial_context(entry, stack_top),
{
    UserContext {
        return_value: 0,
        rbx: 0,
        rbp: 0,
        r12: stack_top,
        r13: 0,
        r14: 0,
        r15: 0,
        rdi: 0,
        rsi: 0,
        rdx: 0,
        r8: 0,
        r9: 0,
        r10: 0,
        instruction_pointer: entry,
        flags: 0x202,
        stack_pointer: stack_top,
    }
}

/// A table in which no signal has an action.
pub open spec fn no_actions() -> Seq<LinuxSigAction> {
    Seq::new(65, |i: int| scheduler::no_action())
}

fn make_no_actions() -> (r: Vec<LinuxSigAction>)
    ensures
        r@ == no_actions(),
{
    let mut actions: Vec<LinuxSigAction> = Vec::new();
    let mut i: usize = 0;
    while i < 65
        invariant
            i <= 65,
            actions.len() == i,
            forall|j: int| 0 <= j < i ==> actions@[j] == scheduler::no_action(),
        decreases 65 - i,
    {
        actions.push(make_no_action());
        i += 1;
    }
    assert(actions@ =~= no_actions());
    actions
}

/// Input, output and errors of a program, all at one device.
pub open spec fn standard(slot: u64, resource: DescriptorResource) -> Seq<Option<FileDescriptor>> {
    let second = scheduler::after(slot);
    seq![
        Some(FileDescriptor { capability: scheduler::capability(slot), rights: Rights(1u32 | 8u32), resource }),
        Some(
            FileDescriptor { capability: scheduler::capability(second), rights: Rights(2u32 | 8u32), resource },
        ),
        Some(
            FileDescriptor {
                capability: scheduler::capability(scheduler::after(second)),
                rights: Rights(2u32 | 8u32),
                resource,
            },
        ),
    ]
}

pub open spec fn device(native_tty: bool) -> DescriptorResource {
    if native_tty {
        DescriptorResource::Tty
    } else {
        DescriptorResource::Serial
    }
}

/// The counters after three capabilities were given out.
pub open spec fn three_taken(shared: Shared) -> Shared {
    Shared {
        next_capability_slot: scheduler::after(scheduler::after(scheduler::after(shared.next_capability_slot))),
        ..shared
    }
}

fn standard_descriptors(shared: &mut Shared, native_tty: bool) -> (r: Vec<Option<FileDescriptor>>)
    ensures
        r@ == standard(old(shared).next_capability_slot, device(native_tty)),
        *final(shared) == three_taken(*old(shared)),
{
    let resource = if native_tty {
        DescriptorResource::Tty
    } else {
        DescriptorResource::Serial
    };
    let mut table: Vec<Option<FileDescriptor>> = Vec::new();
    let capability = shared.allocate_capability();
    table.push(
        Some(FileDescriptor { capability, rights: Rights::READ() | Rights::TRANSFER(), resource }),
    );
    let capability = shared.allocate_capability();
    table.push(
        Some(FileDescriptor { capability, rights: Rights::WRITE() | Rights::TRANSFER(), resource }),
    );
    let capability = shared.allocate_capability();
    table.push(
        Some(FileDescriptor { capability, rights: Rights::WRITE() | Rights::TRANSFER(), resource }),
    );
    assert(table@ =~= standard(old(shared).next_capability_slot, device(native_tty)));
    table
}

/// The task that a program starts as.
pub open spec fn first_task(
    pid: u64,
    parent_pid: Option<u64>,
    credentials: Credentials,
    v: ProcessView,
    places: (usize, usize, usize),
) -> Task {
    let (p, d, a) = places;
    Task {
        tid: pid,
        tgid: pid,
        parent_pid,
        state: TaskState::Runnable,
        process: Some(p),
        context: initial_context(v.entry, v.user_stack_top),
        interrupt_context: scheduler::initial_registers(v.entry, v.user_stack_top),
        descriptors: d,
        credentials,
        signal_actions: a,
        fs_base: 0,
        blocked_mask: 0,
        pending_signals: 0,
        clear_child_tid: 0,
    }
}

/// A scheduler with one more process, table of descriptors and of actions.
pub open spec fn furnished(
    s: SchedulerView,
    v: ProcessView,
    table: Seq<Option<FileDescriptor>>,
) -> SchedulerView {
    SchedulerView {
        processes: s.processes.push(v),
        tables: s.tables.push(table),
        actions: s.actions.push(no_actions()),
        ..s
    }
}

/// The places of what was added last.
pub open spec fn new_places(s: SchedulerView) -> (usize, usize, usize) {
    (s.processes.len() as usize, s.tables.len() as usize, s.actions.len() as usize)
}

fn new_task(
    scheduler: &mut Scheduler,
    pid: u64,
    parent_pid: Option<u64>,
    credentials: Credentials,
    process: Process,
    descriptors: Vec<Option<FileDescriptor>>,
) -> (r: Task)
    requires
        old(scheduler)@.wf() || old(scheduler)@.tasks.len() == 0,
    ensures
        final(scheduler)@ == furnished(old(scheduler)@, process@, descriptors@),
        r == first_task(
            pid,
            parent_pid,
            credentials,
            process@,
            new_places(old(scheduler)@),
        ),
        scheduler::task_ok(r, final(scheduler)@),
{
    let entry: u64 = process.entry();
    let stack_top: u64 = process.user_stack_top();
    let p: usize = scheduler.processes.push(process);
    let d: usize = scheduler.tables.push(descriptors);
    let actions = make_no_actions();
    let a: usize = scheduler.actions.push(actions);
    Task {
        tid: pid,
        tgid: pid,
        parent_pid,
        state: TaskState::Runnable,
        process: Some(p),
        context: make_context(entry, stack_top),
        interrupt_context: InterruptContext::initial(entry, stack_top),
        descriptors: d,
        credentials,
        signal_actions: a,
        fs_base: 0,
        blocked_mask: 0,
        pending_signals: 0,
        clear_child_tid: 0,
    }
}

/// More things do not put a scheduler out of order.
pub proof fn lemma_furnished(s: SchedulerView, v: ProcessView, table: Seq<Option<FileDescriptor>>)
    requires
        s.wf(),
        scheduler::table_ok(table, s.objects),
    ensures
        furnished(s, v, table).wf(),
{
    let t = furnished(s, v, table);
    assert forall|i: int| 0 <= i < t.tasks.len() implies scheduler::task_ok(#[trigger] t.tasks[i], t) by {
        assert(scheduler::task_ok(s.tasks[i], s));
    }
    assert forall|i: int| 0 <= i < t.tables.len() implies scheduler::table_ok(
        #[trigger] t.tables[i],
        t.objects,
    ) by {
        if i < s.tables.len() {
            assert(scheduler::table_ok(s.tables[i], s.objects));
        }
    }
    assert forall|i: int| 0 <= i < t.actions.len() implies (#[trigger] t.actions[i]).len() == 65 by {
        if i < s.actions.len() {
            assert(s.actions[i].len() == 65);
        }
    }
}

/// The place of a new task: that of one that is gone for good, or a new one.
pub open spec fn room_from(tasks: Seq<Task>, i: int) -> Option<int>
    decreases tasks.len() - i,
{
    if i < 0 || i >= tasks.len() {
        if tasks.len() < MAX_TASKS {
            Some(tasks.len() as int)
        } else {
            None
        }
    } else if tasks[i].state == TaskState::Reaped {
        Some(i)
    } else {
        room_from(tasks, i + 1)
    }
}

pub open spec fn room(tasks: Seq<Task>) -> Option<int> {
    room_from(tasks, 0)
}

pub open spec fn placed(tasks: Seq<Task>, i: int, t: Task) -> Seq<Task> {
    if i < tasks.len() {
        tasks.update(i, t)
    } else {
        tasks.push(t)
    }
}

fn find_room(scheduler: &Scheduler) -> (r: Option<usize>)
    ensures
        match r {
            Some(i) => room(scheduler@.tasks) == Some(i as int) && i <= scheduler.tasks.len(),
            None => room(scheduler@.tasks) is None,
        },
{
    let mut i: usize = 0;
    while i < scheduler.tasks.len()
        invariant
            i <= scheduler.tasks.len(),
            room(scheduler@.tasks) == room_from(scheduler@.tasks, i as int),
        decreases scheduler.tasks.len() - i,
    {
        if scheduler.tasks[i].state == TaskState::Reaped {
            return Some(i);
        }
        i += 1;
    }
    if i < MAX_TASKS {
        Some(i)
    } else {
        None
    }
}

fn place_task(scheduler: &mut Scheduler, i: usize, task: Task)
    requires
        old(scheduler)@.wf(),
        i <= old(scheduler).tasks.len(),
        scheduler::task_ok(task, old(scheduler)@),
    ensures
        final(scheduler)@.wf(),
        final(scheduler)@ == (SchedulerView {
            tasks: placed(old(scheduler)@.tasks, i as int, task),
            ..old(scheduler)@
        }),
{
    let ghost s = scheduler@;
    if i < scheduler.tasks.len() {
        scheduler.tasks[i] = task;
    } else {
        scheduler.tasks.push(task);
    }
    proof {
        let t = scheduler@;
        assert(t.tasks.len() == scheduler.tasks.len());
        assert forall|j: int| 0 <= j < t.tasks.len() implies scheduler::task_ok(#[trigger] t.tasks[j], t) by {
            if j != i {
                assert(scheduler::task_ok(s.tasks[j], s));
            }
        }
    }
}

// ---------------------------------------------------------------------------
// Spawning
// ---------------------------------------------------------------------------
/// The rights of a child: the administrator's are not handed on.
pub open spec fn child_credentials(parent: Credentials) -> Credentials {
    if parent.uid == 0 {
        abi::vanta_credentials()
    } else {
        parent
    }
}

/// A child of the running task, with a table of descriptors.
pub open spec fn spawned(
    s: SchedulerView,
    shared: Shared,
    v: ProcessView,
    table: Seq<Option<FileDescriptor>>,
    place: int,
) -> SchedulerView {
    let t = first_task(
        shared.next_pid,
        Some(s.task().tgid),
        child_credentials(s.task().credentials),
        v,
        new_places(s),
    );
    let s1 = furnished(s, v, table);
    SchedulerView { tasks: placed(s.tasks, place, t), ..s1 }
}

fn copy_table(table: &Vec<Option<FileDescriptor>>) -> (r: Vec<Option<FileDescriptor>>)
    ensures
        r@ == table@,
{
    let mut copy: Vec<Option<FileDescriptor>> = Vec::new();
    let mut i: usize = 0;
    while i < table.len()
        invariant
            i <= table.len(),
            copy@ == table@.take(i as int),
        decreases table.len() - i,
    {
        copy.push(table[i]);
        i += 1;
        assert(copy@ =~= table@.take(i as int));
    }
    assert(copy@ =~= table@);
    copy
}

fn spawn(
    scheduler: &mut Scheduler,
    shared: &mut Shared,
    place: usize,
    process: Process,
    descriptors: Vec<Option<FileDescriptor>>,
) -> (r: u64)
    requires
        old(scheduler)@.wf(),
        room(old(scheduler)@.tasks) == Some(place as int),
        place <= old(scheduler).tasks.len(),
        scheduler::table_ok(descriptors@, old(scheduler)@.objects),
    ensures
        final(scheduler)@.wf(),
        r == old(shared).next_pid,
        *final(shared) == (Shared { next_pid: scheduler::after(r), foreground_pid: r, ..*old(shared) }),
        final(scheduler)@ == spawned(
            old(scheduler)@,
            *old(shared),
            process@,
            descriptors@,
            place as int,
        ),
{
    let parent = scheduler.tasks[scheduler.current];
    let credentials = if parent.credentials.is_root() {
        Credentials::vanta()
    } else {
        parent.credentials
    };
    proof {
        lemma_furnished(scheduler@, process@, descriptors@);
    }
    let pid: u64 = shared.allocate_pid();
    let task = new_task(scheduler, pid, Some(parent.tgid), credentials, process, descriptors);
    place_task(scheduler, place, task);
    shared.foreground_pid = pid;
    pid
}

/// Starts a child that has the descriptors of the running task. Without room
/// for it, its process is given up.
pub fn spawn_current(
    machine: &mut Machine,
    scheduler: &mut Option<Scheduler>,
    shared: &mut Shared,
    process: Process,
) -> (r: Result<u64, ()>)
    requires
        old(machine).wf(),
        scheduler::ready(*old(scheduler)),
    ensures
        final(machine).wf(),
        final(machine).same_place(old(machine)),
        scheduler::ready(*final(scheduler)),
        match scheduler::seen(*old(scheduler)) {
            None => {
                &&& r is Err
                &&& *final(scheduler) is None
                &&& *final(shared) == *old(shared)
                &&& final(machine)@ == process::cleaned_up(old(machine)@, process@).0
            },
            Some(s) => match room(s.tasks) {
                None => {
                    &&& r is Err
                    &&& scheduler::seen(*final(scheduler)) == Some(s)
                    &&& *final(shared) == (Shared {
                        next_pid: scheduler::after(old(shared).next_pid),
                        ..*old(shared)
                    })
                    &&& final(machine)@ == process::cleaned_up(old(machine)@, process@).0
                },
                Some(place) => {
                    let pid = old(shared).next_pid;
                    &&& r == Ok::<u64, ()>(pid)
                    &&& scheduler::seen(*final(scheduler)) == Some(
                        spawned(s, *old(shared), process@, s.table(), place),
                    )
                    &&& *final(shared) == (Shared {
                        next_pid: scheduler::after(pid),
                        foreground_pid: pid,
                        ..*old(shared)
                    })
                    &&& final(machine)@ == old(machine)@
                },
            },
        },
{
    match scheduler {
        None => {
            let mut process = process;
            let _ = process.destroy(machine);
            Err(())
        },
        Some(s) => match find_room(s) {
            None => {
                let _ = shared.allocate_pid();
                let mut process = process;
                let _ = process.destroy(machine);
                Err(())
            },
            Some(place) => {
                let task = s.tasks[s.current];
                assert(scheduler::task_ok(s@.tasks[s@.current], s@));
                let table = copy_table(s.tables.get(task.descriptors));
                Ok(spawn(s, shared, place, process, table))
            },
        },
    }
}

/// A table in which one descriptor also stands at another number. `u64::MAX`
/// leaves it as it is.
pub open spec fn redirected(
    table: Seq<Option<FileDescriptor>>,
    at: int,
    source: u64,
) -> Option<Seq<Option<FileDescriptor>>> {
    if source == u64::MAX {
        Some(table)
    } else if source < table.len() && table[source as int] is Some {
        let longer = if at < table.len() {
            table
        } else {
            table + Seq::new((at + 1 - table.len()) as nat, |i: int| None::<FileDescriptor>)
        };
        Some(longer.update(at, table[source as int]))
    } else {
        None
    }
}

/// All three redirected, one after the other.
pub open spec fn all_redirected(
    table: Seq<Option<FileDescriptor>>,
    stdin: u64,
    stdout: u64,
    stderr: u64,
) -> Option<Seq<Option<FileDescriptor>>> {
    match redirected(table, 0, stdin) {
        None => None,
        Some(t) => match redirected(t, 1, stdout) {
            None => None,
            Some(u) => redirected(u, 2, stderr),
        },
    }
}

fn redirect(
    table: &mut Vec<Option<FileDescriptor>>,
    at: usize,
    source: u64,
    Ghost(objects): Ghost<ObjectsView>,
) -> (r: bool)
    requires
        at < 3,
        scheduler::table_ok(old(table)@, objects),
    ensures
        match redirected(old(table)@, at as int, source) {
            Some(t) => r && final(table)@ == t && scheduler::table_ok(t, objects),
            None => !r,
        },
{
    if source == u64::MAX {
        return true;
    }
    if source >= table.len() as u64 {
        return false;
    }
    let descriptor = table[source as usize];
    if descriptor.is_none() {
        return false;
    }
    let ghost start = table@;
    while table.len() <= at
        invariant
            at < 3,
            start.len() <= table.len(),
            start.len() <= at ==> table.len() <= at + 1,
            start.len() > at ==> table@ == start,
            forall|j: int| 0 <= j < start.len() ==> table@[j] == start[j],
            forall|j: int| start.len() <= j < table.len() ==> table@[j] is None,
        decreases at + 1 - table.len(),
    {
        table.push(None);
    }
    table[at] = descriptor;
    assert(table@ =~= redirected(start, at as int, source)->0);
    true
}

/// Starts a child whose input, output and errors are given descriptors of the
/// running task.
pub fn spawn_with_stdio_current(
    machine: &mut Machine,
    scheduler: &mut Option<Scheduler>,
    shared: &mut Shared,
    process: Process,
    stdin: u64,
    stdout: u64,
    stderr: u64,
) -> (r: Result<u64, ()>)
    requires
        old(machine).wf(),
        scheduler::ready(*old(scheduler)),
    ensures
        final(machine).wf(),
        final(machine).same_place(old(machine)),
        scheduler::ready(*final(scheduler)),
        match scheduler::seen(*old(scheduler)) {
            None => {
                &&& r is Err
                &&& *final(scheduler) is None
                &&& *final(shared) == *old(shared)
                &&& final(machine)@ == process::cleaned_up(old(machine)@, process@).0
            },
            Some(s) => match (all_redirected(s.table(), stdin, stdout, stderr), room(s.tasks)) {
                (Some(table), Some(place)) => {
                    let pid = old(shared).next_pid;
                    &&& r == Ok::<u64, ()>(pid)
                    &&& scheduler::seen(*final(scheduler)) == Some(
                        spawned(s, *old(shared), process@, table, place),
                    )
                    &&& *final(shared) == (Shared {
                        next_pid: scheduler::after(pid),
                        foreground_pid: pid,
                        ..*old(shared)
                    })
                    &&& final(machine)@ == old(machine)@
                },
                (redirection, _) => {
                    &&& r is Err
                    &&& scheduler::seen(*final(scheduler)) == Some(s)
                    &&& *final(shared) == (if redirection is None {
                        *old(shared)
                    } else {
                        Shared { next_pid: scheduler::after(old(shared).next_pid), ..*old(shared) }
                    })
                    &&& final(machine)@ == process::cleaned_up(old(machine)@, process@).0
                },
            },
        },
{
    match scheduler {
        None => {
            let mut process = process;
            let _ = process.destroy(machine);
            Err(())
        },
        Some(s) => {
            let task = s.tasks[s.current];
            assert(scheduler::task_ok(s@.tasks[s@.current], s@));
            let mut table = copy_table(s.tables.get(task.descriptors));
            assert(scheduler::table_ok(s@.tables[task.descriptors as int], s@.objects));
            let ghost objects = s@.objects;
            if !redirect(&mut table, 0, stdin, Ghost(objects)) || !redirect(
                &mut table,
                1,
                stdout,
                Ghost(objects),
            ) || !redirect(&mut table, 2, stderr, Ghost(objects)) {
                let mut process = process;
                let _ = process.destroy(machine);
                return Err(());
            }
            match find_room(s) {
                None => {
                    let _ = shared.allocate_pid();
                    let mut process = process;
                    let _ = process.destroy(machine);
                    Err(())
                },
                Some(place) => Ok(spawn(s, shared, place, process, table)),
            }
        },
    }
}

// ---------------------------------------------------------------------------
// Cloning
// ---------------------------------------------------------------------------
/// Whether a flag, a power of two, is set.
pub open spec fn flag(flags: u64, bit: u64) -> bool {
    flags / bit % 2 == 1
}

fn has_flag(flags: u64, bit: u64) -> (r: bool)
    requires
        bit > 0,
    ensures
        r == flag(flags, bit),
{
    flags / bit % 2 == 1
}

/// What a program asks of a new thread or process.
#[derive(Clone, Copy, Debug, PartialEq, Eq, Structural)]
pub struct CloneRequest {
    pub flags: u64,
    pub child_stack: u64,
    pub parent_tidptr: u64,
    pub child_tidptr: u64,
    pub tls: u64,
}

/// The word that the child clears when it ends.
pub open spec fn word_to_clear(q: CloneRequest) -> u64 {
    if !flag(q.flags, linux::CLONE_CHILD_CLEARTID) {
        0
    } else if q.parent_tidptr >= 0x1000_0000 {
        q.parent_tidptr
    } else if q.child_tidptr != 0 {
        q.child_tidptr
    } else {
        q.parent_tidptr
    }
}

/// The child of a task: it goes on where the parent is, returning zero.
pub open spec fn cloned_task(
    t: Task,
    q: CloneRequest,
    tid: u64,
    context: UserContext,
    interrupt: InterruptContext,
    places: (usize, usize, usize),
) -> Task {
    let (p, d, a) = places;
    let thread = flag(q.flags, linux::CLONE_THREAD);
    let sp = if q.child_stack != 0 {
        q.child_stack
    } else {
        context.stack_pointer
    };
    Task {
        tid,
        tgid: if thread {
            t.tgid
        } else {
            tid
        },
        parent_pid: if thread {
            t.parent_pid
        } else {
            Some(t.tgid)
        },
        state: TaskState::Runnable,
        process: Some(p),
        context: UserContext {
            return_value: 0,
            instruction_pointer: interrupt.instruction_pointer,
            flags: context.flags | 0x202,
            stack_pointer: sp,
            ..context
        },
        interrupt_context: InterruptContext {
            rax: 0,
            flags: context.flags | 0x202,
            stack_pointer: sp,
            ..interrupt
        },
        descriptors: d,
        credentials: t.credentials,
        signal_actions: a,
        fs_base: if flag(q.flags, linux::CLONE_SETTLS) {
            q.tls
        } else {
            t.fs_base
        },
        blocked_mask: t.blocked_mask,
        pending_signals: 0,
        clear_child_tid: word_to_clear(q),
    }
}

/// The number of the child written where the parent asked for it.
pub open spec fn tids_written(m: MachineView, space: AddressSpace, q: CloneRequest, tid: u64) -> MachineView {
    let bytes = bytes::le32_bytes((tid % 0x1_0000_0000) as u32);
    let m1 = if flag(q.flags, linux::CLONE_PARENT_SETTID) && q.parent_tidptr != 0 {
        process::user_written(m, space, q.parent_tidptr as int, bytes).0
    } else {
        m
    };
    if flag(q.flags, linux::CLONE_CHILD_SETTID) && q.child_tidptr != 0 {
        process::user_written(m1, space, q.child_tidptr as int, bytes).0
    } else {
        m1
    }
}

/// What the child does not share with its parent is added to the scheduler;
/// where the child's things are.
pub open spec fn parts_cloned(s: SchedulerView, q: CloneRequest, space: AddressSpace) -> (
    SchedulerView,
    (usize, usize, usize),
) {
    let t = s.task();
    let p = t.process->0;
    let shares_memory = flag(q.flags, linux::CLONE_VM);
    let shares_files = flag(q.flags, linux::CLONE_FILES);
    let shares_actions = flag(q.flags, linux::CLONE_SIGHAND) || flag(q.flags, linux::CLONE_THREAD);
    (
        SchedulerView {
            processes: if shares_memory {
                s.processes
            } else {
                s.processes.push(
                    ProcessView { space, destroyed: false, ..s.processes[p as int] },
                )
            },
            tables: if shares_files {
                s.tables
            } else {
                s.tables.push(s.table())
            },
            actions: if shares_actions {
                s.actions
            } else {
                s.actions.push(s.actions[t.signal_actions as int])
            },
            ..s
        },
        (
            if shares_memory {
                p
            } else {
                s.processes.len() as usize
            },
            if shares_files {
                t.descriptors
            } else {
                s.tables.len() as usize
            },
            if shares_actions {
                t.signal_actions
            } else {
                s.actions.len() as usize
            },
        ),
    )
}

fn copy_actions(table: &Vec<LinuxSigAction>) -> (r: Vec<LinuxSigAction>)
    ensures
        r@ == table@,
{
    let mut copy: Vec<LinuxSigAction> = Vec::new();
    let mut i: usize = 0;
    while i < table.len()
        invariant
            i <= table.len(),
            copy@ == table@.take(i as int),
        decreases table.len() - i,
    {
        copy.push(table[i]);
        i += 1;
        assert(copy@ =~= table@.take(i as int));
    }
    assert(copy@ =~= table@);
    copy
}

fn clone_parts(scheduler: &mut Scheduler, q: CloneRequest, space: AddressSpace) -> (r: (
    usize,
    usize,
    usize,
))
    requires
        old(scheduler)@.wf(),
        old(scheduler)@.task().process is Some,
    ensures
        final(scheduler)@.wf(),
        (final(scheduler)@, r) == parts_cloned(old(scheduler)@, q, space),
        r.0 < final(scheduler)@.processes.len(),
        r.1 < final(scheduler)@.tables.len(),
        r.2 < final(scheduler)@.actions.len(),
{
    let ghost s = scheduler@;
    let task = scheduler.tasks[scheduler.current];
    assert(scheduler::task_ok(s.tasks[s.current], s));
    let mut p: usize = match task.process {
        Some(p) => p,
        None => 0,
    };
    if !has_flag(q.flags, linux::CLONE_VM) {
        let copy = scheduler.processes.get(p).clone_process(space);
        p = scheduler.processes.push(copy);
    }
    let mut d: usize = task.descriptors;
    if !has_flag(q.flags, linux::CLONE_FILES) {
        let copy = copy_table(scheduler.tables.get(d));
        d = scheduler.tables.push(copy);
    }
    let mut a: usize = task.signal_actions;
    if !has_flag(q.flags, linux::CLONE_SIGHAND) && !has_flag(q.flags, linux::CLONE_THREAD) {
        let copy = copy_actions(scheduler.actions.get(a));
        a = scheduler.actions.push(copy);
    }
    proof {
        let t = scheduler@;
        assert forall|i: int| 0 <= i < t.tasks.len() implies scheduler::task_ok(#[trigger] t.tasks[i], t) by {
            assert(scheduler::task_ok(s.tasks[i], s));
        }
        assert(scheduler::table_ok(s.tables[task.descriptors as int], s.objects));
        assert(s.actions[task.signal_actions as int].len() == 65);
        assert forall|i: int| 0 <= i < t.tables.len() implies scheduler::table_ok(
            #[trigger] t.tables[i],
            t.objects,
        ) by {
            if i < s.tables.len() {
                assert(scheduler::table_ok(s.tables[i], s.objects));
            }
        }
        assert forall|i: int| 0 <= i < t.actions.len() implies (#[trigger] t.actions[i]).len()
            == 65 by {
            if i < s.actions.len() {
                assert(s.actions[i].len() == 65);
            }
        }
    }
    (p, d, a)
}

fn write_tids(machine: &mut Machine, space: AddressSpace, q: CloneRequest, tid: u64)
    requires
        old(machine).wf(),
    ensures
        final(machine).wf(),
        final(machine).same_place(old(machine)),
        final(machine)@ == tids_written(old(machine)@, space, q, tid),
{
    let number: u32 = (tid % 0x1_0000_0000) as u32;
    if has_flag(q.flags, linux::CLONE_PARENT_SETTID) && q.parent_tidptr != 0 {
        let _ = process::write_user_u32_in(machine, space, q.parent_tidptr, number);
    }
    if has_flag(q.flags, linux::CLONE_CHILD_SETTID) && q.child_tidptr != 0 {
        let _ = process::write_user_u32_in(machine, space, q.child_tidptr, number);
    }
}

/// A clone of the running task: memory, the tasks and the counters afterwards,
/// and the number of the clone. Without a copy of memory that is not shared, or
/// without room, there is none.
pub open spec fn task_cloned(
    m: MachineView,
    s: SchedulerView,
    shared: Shared,
    q: CloneRequest,
    context: UserContext,
    interrupt: InterruptContext,
    copy: Result<AddressSpace, ()>,
) -> (MachineView, SchedulerView, Shared, Result<u64, ()>) {
    if s.task().process is None {
        (m, s, shared, Err(()))
    } else {
        let tid = shared.next_pid;
        let v = s.processes[s.task().process->0 as int];
        let m1 = tids_written(m, v.space, q, tid);
        let sh = Shared { next_pid: scheduler::after(tid), ..shared };
        if !flag(q.flags, linux::CLONE_VM) && copy is Err {
            (m, s, sh, Err(()))
        } else {
            match room(s.tasks) {
                None => {
                    let m2 = if flag(q.flags, linux::CLONE_VM) {
                        m1
                    } else {
                        process::cleaned_up(
                            m1,
                            ProcessView { space: copy->Ok_0, destroyed: false, ..v },
                        ).0
                    };
                    (m2, s, sh, Err(()))
                },
                Some(place) => {
                    let (s1, places) = parts_cloned(s, q, copy->Ok_0);
                    let t = cloned_task(s.task(), q, tid, context, interrupt, places);
                    (m1, SchedulerView { tasks: placed(s.tasks, place, t), ..s1 }, sh, Ok(tid))
                },
            }
        }
    }
}

/// Clones the running task. `copy` is the copy of its address space, which is
/// made where the child does not share its memory.
pub fn clone_task_current(
    machine: &mut Machine,
    scheduler: &mut Option<Scheduler>,
    shared: &mut Shared,
    q: CloneRequest,
    context: UserContext,
    interrupt_context: InterruptContext,
    copy: Result<AddressSpace, ()>,
) -> (r: Result<u64, ()>)
    requires
        old(machine).wf(),
        scheduler::ready(*old(scheduler)),
    ensures
        final(machine).wf(),
        final(machine).same_place(old(machine)),
        scheduler::ready(*final(scheduler)),
        match scheduler::seen(*old(scheduler)) {
            None => r is Err && *final(scheduler) is None && *final(shared) == *old(shared)
                && final(machine)@ == old(machine)@,
            Some(s) => {
                let (m, s1, sh, result) = task_cloned(
                    old(machine)@,
                    s,
                    *old(shared),
                    q,
                    context,
                    interrupt_context,
                    copy,
                );
                &&& final(machine)@ == m
                &&& scheduler::seen(*final(scheduler)) == Some(s1)
                &&& *final(shared) == sh
                &&& r == result
            },
        },
{
    match scheduler {
        None => Err(()),
        Some(s) => {
            let task = s.tasks[s.current];
            assert(scheduler::task_ok(s@.tasks[s@.current], s@));
            let p: usize = match task.process {
                None => {
                    return Err(());
                },
                Some(p) => p,
            };
            let child_tid: u64 = shared.allocate_pid();
            let shares: bool = has_flag(q.flags, linux::CLONE_VM);
            let parent_space = s.processes.get(p).address_space();
            let child_space = match copy {
                Ok(space) => space,
                Err(()) => {
                    if !shares {
                        return Err(());
                    }
                    parent_space
                },
            };
            write_tids(machine, parent_space, q, child_tid);
            let place: usize = match find_room(s) {
                None => {
                    if !shares {
                        let mut child = s.processes.get(p).clone_process(child_space);
                        let _ = child.destroy(machine);
                    }
                    return Err(());
                },
                Some(place) => place,
            };
            let (process, descriptors, signal_actions) = clone_parts(s, q, child_space);
            let thread: bool = has_flag(q.flags, linux::CLONE_THREAD);
            let sp: u64 = if q.child_stack != 0 {
                q.child_stack
            } else {
                context.stack_pointer
            };
            let clear_child_tid: u64 = if !has_flag(q.flags, linux::CLONE_CHILD_CLEARTID) {
                0
            } else if q.parent_tidptr >= 0x1000_0000 {
                q.parent_tidptr
            } else if q.child_tidptr != 0 {
                q.child_tidptr
            } else {
                q.parent_tidptr
            };
            let child = Task {
                tid: child_tid,
                tgid: if thread {
                    task.tgid
                } else {
                    child_tid
                },
                parent_pid: if thread {
                    task.parent_pid
                } else {
                    Some(task.tgid)
                },
                state: TaskState::Runnable,
                process: Some(process),
                context: UserContext {
                    return_value: 0,
                    instruction_pointer: interrupt_context.instruction_pointer,
                    flags: context.flags | 0x202,
                    stack_pointer: sp,
                    ..context
                },
                interrupt_context: InterruptContext {
                    rax: 0,
                    flags: context.flags | 0x202,
                    stack_pointer: sp,
                    ..interrupt_context
                },
                descriptors,
                credentials: task.credentials,
                signal_actions,
                fs_base: if has_flag(q.flags, linux::CLONE_SETTLS) {
                    q.tls
                } else {
                    task.fs_base
                },
                blocked_mask: task.blocked_mask,
                pending_signals: 0,
                clear_child_tid,
            };
            place_task(s, place, child);
            Ok(child_tid)
        },
    }
}

// ---------------------------------------------------------------------------
// Other programs
// ---------------------------------------------------------------------------
/// The running task goes on as another program, with descriptors of its own.
pub open spec fn replaced(s: SchedulerView, shared: Shared, v: ProcessView) -> SchedulerView {
    let (p, d, a) = new_places(s);
    let s1 = furnished(s, v, standard(shared.next_capability_slot, DescriptorResource::Serial));
    s1.with_current(
        Task {
            process: Some(p),
            context: initial_context(v.entry, v.user_stack_top),
            interrupt_context: scheduler::initial_registers(v.entry, v.user_stack_top),
            descriptors: d,
            signal_actions: a,
            blocked_mask: 0,
            pending_signals: 0,
            fs_base: 0,
            clear_child_tid: 0,
            ..s.task()
        },
    )
}

pub fn exec_current(
    machine: &mut Machine,
    scheduler: &mut Scheduler,
    shared: &mut Shared,
    process: Process,
) -> (r: Target)
    requires
        old(machine).wf(),
        old(scheduler)@.wf(),
    ensures
        final(machine).wf(),
        final(machine).same_place(old(machine)),
        final(scheduler)@.wf(),
        *final(shared) == three_taken(*old(shared)),
        ({
            let s = old(scheduler)@;
            let s1 = replaced(s, *old(shared), process@);
            (final(machine)@, final(scheduler)@) == match s.task().process {
                Some(p) => lifecycle::released(old(machine)@, s1, p),
                None => (old(machine)@, s1),
            }
        }),
        r == (Target {
            context: initial_context(process.entry, process.user_stack_top),
            space: process.space,
            fs_base: 0,
        }),
{
    let ghost s = scheduler@;
    let current: usize = scheduler.current;
    let task = scheduler.tasks[current];
    assert(scheduler::task_ok(s.tasks[s.current], s));
    let entry: u64 = process.entry();
    let stack_top: u64 = process.user_stack_top();
    let space = process.address_space();
    let descriptors = standard_descriptors(shared, false);
    proof {
        lemma_furnished(s, process@, descriptors@);
    }
    let fresh = new_task(scheduler, task.tid, task.parent_pid, task.credentials, process, descriptors);
    let replacement = Task {
        process: fresh.process,
        context: fresh.context,
        interrupt_context: fresh.interrupt_context,
        descriptors: fresh.descriptors,
        signal_actions: fresh.signal_actions,
        blocked_mask: 0,
        pending_signals: 0,
        fs_base: 0,
        clear_child_tid: 0,
        ..task
    };
    let ghost s1 = scheduler@;
    assert(scheduler::task_ok(task, s1));
    scheduler.tasks[current] = replacement;
    proof {
        let t = scheduler@;
        assert forall|i: int| 0 <= i < t.tasks.len() implies scheduler::task_ok(#[trigger] t.tasks[i], t) by {
            if i != current {
                assert(scheduler::task_ok(s1.tasks[i], s1));
            }
        }
    }
    if let Some(p) = task.process {
        release_process(machine, scheduler, p);
    }
    Target { context: fresh.context, space, fs_base: 0 }
}

// ---------------------------------------------------------------------------
// The first tasks
// ---------------------------------------------------------------------------
pub open spec fn no_objects() -> ObjectsView {
    ObjectsView {
        files: Seq::empty(),
        directories: Seq::empty(),
        pipes: Seq::empty(),
        sockets: Seq::empty(),
        channels: Seq::empty(),
        epolls: Seq::empty(),
        event_fds: Seq::empty(),
        ptys: Seq::empty(),
    }
}

pub open spec fn empty_scheduler(kernel_space: AddressSpace) -> SchedulerView {
    SchedulerView {
        tasks: Seq::empty(),
        current: 0,
        kernel_space,
        ticks: 0,
        slice_ticks: 0,
        processes: Seq::empty(),
        tables: Seq::empty(),
        actions: Seq::empty(),
        objects: no_objects(),
    }
}

/// The tasks of the first programs, one for each, in their order.
pub open spec fn started(
    kernel_space: AddressSpace,
    shared: Shared,
    programs: Seq<ProcessView>,
    native_tty: bool,
) -> (SchedulerView, Shared)
    decreases programs.len(),
{
    if programs.len() == 0 {
        (empty_scheduler(kernel_space), shared)
    } else {
        let (s, sh) = started(kernel_space, shared, programs.drop_last(), native_tty);
        let v = programs.last();
        let t = first_task(sh.next_pid, None, abi::root_credentials(), v, new_places(s));
        let s1 = furnished(s, v, standard(sh.next_capability_slot, device(native_tty)));
        (
            SchedulerView { tasks: s.tasks.push(t), ..s1 },
            three_taken(Shared { next_pid: scheduler::after(sh.next_pid), ..sh }),
        )
    }
}

/// Whether all but the running task are in order, in a scheduler that is
/// being filled.
spec fn filling(s: SchedulerView) -> bool {
    &&& s.current == 0
    &&& s.slice_ticks < 3
    &&& forall|i: int| 0 <= i < s.tasks.len() ==> scheduler::task_ok(#[trigger] s.tasks[i], s)
    &&& forall|i: int| 0 <= i < s.tables.len() ==> scheduler::table_ok(#[trigger] s.tables[i], s.objects)
    &&& forall|i: int| 0 <= i < s.actions.len() ==> (#[trigger] s.actions[i]).len() == 65
    &&& s.objects.sound()
}

fn start_one(scheduler: &mut Scheduler, shared: &mut Shared, process: Process, native_tty: bool)
    requires
        filling(old(scheduler)@),
    ensures
        filling(final(scheduler)@),
        ({
            let s = old(scheduler)@;
            let sh = *old(shared);
            let t = first_task(sh.next_pid, None, abi::root_credentials(), process@, new_places(s));
            let s1 = furnished(
                s,
                process@,
                standard(sh.next_capability_slot, device(native_tty)),
            );
            &&& final(scheduler)@ == (SchedulerView { tasks: s.tasks.push(t), ..s1 })
            &&& *final(shared) == three_taken(Shared { next_pid: scheduler::after(sh.next_pid), ..sh })
        }),
{
    let ghost s = scheduler@;
    let pid: u64 = shared.allocate_pid();
    let descriptors = standard_descriptors(shared, native_tty);
    let entry: u64 = process.entry();
    let stack_top: u64 = process.user_stack_top();
    let p: usize = scheduler.processes.push(process);
    let d: usize = scheduler.tables.push(descriptors);
    let actions = make_no_actions();
    let a: usize = scheduler.actions.push(actions);
    let task = Task {
        tid: pid,
        tgid: pid,
        parent_pid: None,
        state: TaskState::Runnable,
        process: Some(p),
        context: make_context(entry, stack_top),
        interrupt_context: InterruptContext::initial(entry, stack_top),
        descriptors: d,
        credentials: Credentials::root(),
        signal_actions: a,
        fs_base: 0,
        blocked_mask: 0,
        pending_signals: 0,
        clear_child_tid: 0,
    };
    scheduler.tasks.push(task);
    proof {
        let t = scheduler@;
        assert forall|i: int| 0 <= i < t.tasks.len() implies scheduler::task_ok(#[trigger] t.tasks[i], t) by {
            if i < s.tasks.len() {
                assert(scheduler::task_ok(s.tasks[i], s));
            }
        }
        assert forall|i: int| 0 <= i < t.tables.len() implies scheduler::table_ok(
            #[trigger] t.tables[i],
            t.objects,
        ) by {
            if i < s.tables.len() {
                assert(scheduler::table_ok(s.tables[i], s.objects));
            }
        }
        assert forall|i: int| 0 <= i < t.actions.len() implies (#[trigger] t.actions[i]).len()
            == 65 by {
            if i < s.actions.len() {
                assert(s.actions[i].len() == 65);
            }
        }
    }
}

/// A scheduler with one task for each of the programs, of which the first
/// runs; none if there is no program.
pub fn start_on_current_cpu(
    kernel_space: AddressSpace,
    shared: &mut Shared,
    programs: Vec<Process>,
    native_tty: bool,
) -> (r: Option<(Scheduler, Target)>)
    ensures
        match r {
            None => programs@.len() == 0 && *final(shared) == *old(shared),
            Some((s, t)) => {
                &&& programs@.len() > 0
                &&& s@.wf()
                &&& (s@, *final(shared)) == started(
                    kernel_space,
                    *old(shared),
                    crate::store::views(programs@),
                    native_tty,
                )
                &&& t == switch::target(s@, 0)
            },
        },
{
    let ghost all = crate::store::views(programs@);
    let mut programs = programs;
    let mut scheduler = Scheduler {
        tasks: Vec::new(),
        current: 0,
        kernel_space,
        ticks: 0,
        slice_ticks: 0,
        processes: Store::new(),
        tables: Store::new(),
        actions: Store::new(),
        objects: Objects {
            files: Store::new(),
            directories: Store::new(),
            pipes: Store::new(),
            sockets: Store::new(),
            channels: Store::new(),
            epolls: Store::new(),
            event_fds: Store::new(),
            ptys: Store::new(),
        },
    };
    assert(scheduler@ =~= empty_scheduler(kernel_space));
    assert(all.take(0) =~= Seq::empty());
    let count: usize = programs.len();
    let mut i: usize = 0;
    while i < count
        invariant
            i <= count,
            count == all.len(),
            programs.len() == count - i,
            crate::store::views(programs@) == all.skip(i as int),
            filling(scheduler@),
            scheduler.tasks.len() == i,
            (scheduler@, *shared) == started(
                kernel_space,
                *old(shared),
                all.take(i as int),
                native_tty,
            ),
            i > 0 ==> scheduler@.tasks[0].process is Some,
        decreases count - i,
    {
        let ghost before = programs@;
        let process = programs.remove(0);
        proof {
            assert forall|j: int| 0 <= j < programs@.len() implies crate::store::views(programs@)[j]
                == #[trigger] all.skip(i + 1)[j] by {
                assert(programs@[j] == before[j + 1]);
                assert(crate::store::views(before)[j + 1] == all.skip(i as int)[j + 1]);
            }
            assert(process@ == all[i as int]) by {
                assert(all.skip(i as int)[0] == all[i as int]);
            }
            assert(crate::store::views(programs@) =~= all.skip(i + 1));
            assert(all.take(i + 1).drop_last() =~= all.take(i as int));
            assert(all.take(i + 1).last() == all[i as int]);
        }
        start_one(&mut scheduler, shared, process, native_tty);
        i += 1;
    }
    assert(all.take(count as int) =~= all);
    if count == 0 {
        return None;
    }
    assert(scheduler@.tasks.len() == scheduler.tasks.len());
    let t = crate::scheduler::switch::current_target(&scheduler);
    Some((scheduler, t))
}

/// The first programs of the processor that the system starts on.
pub fn start(kernel_space: AddressSpace, shared: &mut Shared, programs: Vec<Process>) -> (r: Option<
    (Scheduler, Target),
>)
    ensures
        match r {
            None => programs@.len() == 0 && *final(shared) == *old(shared),
            Some((s, t)) => {
                &&& programs@.len() > 0
                &&& s@.wf()
                &&& (s@, *final(shared)) == started(
                    kernel_space,
                    *old(shared),
                    crate::store::views(programs@),
                    false,
                )
                &&& t == switch::target(s@, 0)
            },
        },
{
    start_on_current_cpu(kernel_space, shared, programs, false)
}

/// The first programs, at the terminal.
pub fn start_native(kernel_space: AddressSpace, shared: &mut Shared, programs: Vec<Process>) -> (r: Option<
    (Scheduler, Target),
>)
    ensures
        match r {
            None => programs@.len() == 0 && *final(shared) == *old(shared),
            Some((s, t)) => {
                &&& programs@.len() > 0
                &&& s@.wf()
                &&& (s@, *final(shared)) == started(
                    kernel_space,
                    *old(shared),
                    crate::store::views(programs@),
                    true,
                )
                &&& t == switch::target(s@, 0)
            },
        },
{
    start_on_current_cpu(kernel_space, shared, programs, true)
}

/// Starts the programs that another processor was handed.
pub fn start_ap(kernel_space: AddressSpace, shared: &mut Shared, programs: Vec<Process>) -> (r: Option<
    (Scheduler, Target),
>)
    ensures
        match r {
            None => programs@.len() == 0 && *final(shared) == *old(shared),
            Some((s, t)) => {
                &&& programs@.len() > 0
                &&& s@.wf()
                &&& (s@, *final(shared)) == started(
                    kernel_space,
                    *old(shared),
                    crate::store::views(programs@),
                    false,
                )
                &&& t == switch::target(s@, 0)
            },
        },
{
    start_on_current_cpu(kernel_space, shared, programs, false)
}

} // verus!
