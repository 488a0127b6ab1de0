//! How tasks come to be and how they end.
use vstd::prelude::*;

use crate::bytes;
use crate::linux;
use crate::paging::{self, Machine, MachineView};
use crate::process::{self, ProcessPersonality};
use crate::scheduler::{self, InterruptContext, Scheduler, SchedulerView, Shared, Task, TaskState};
use crate::scheduler::switch::{self, futex_wake_unlocked, Target};
use crate::syscall::UserContext;

verus! {

// ---------------------------------------------------------------------------
// Parts that ends have in common
// ---------------------------------------------------------------------------
/// Whether a task runs in a process.
pub open spec fn held(tasks: Seq<Task>, p: usize) -> bool {
    exists|i: int| 0 <= i < tasks.len() && (#[trigger] tasks[i]).process == Some(p)
}

/// Whether as many tasks and processes are there, and the same task runs.
pub open spec fn same_shape(a: SchedulerView, b: SchedulerView) -> bool {
    &&& a.tasks.len() == b.tasks.len()
    &&& a.processes.len() == b.processes.len()
    &&& a.current == b.current
    &&& a.kernel_space == b.kernel_space
}

/// A process that no task runs in any longer gives up its memory.
#[verifier::opaque]
pub open spec fn released(m: MachineView, s: SchedulerView, p: usize) -> (MachineView, SchedulerView) {
    if held(s.tasks, p) {
        (m, s)
    } else {
        let (m1, v, _) = process::cleaned_up(m, s.processes[p as int]);
        (m1, SchedulerView { processes: s.processes.update(p as int, v), ..s })
    }
}

pub(crate) fn release_process(machine: &mut Machine, scheduler: &mut Scheduler, p: usize)
    requires
        old(machine).wf(),
        old(scheduler)@.wf(),
        p < old(scheduler)@.processes.len(),
    ensures
        same_shape(final(scheduler)@, old(scheduler)@),
        final(machine).wf(),
        final(machine).same_place(old(machine)),
        final(scheduler)@.wf(),
        (final(machine)@, final(scheduler)@) == released(old(machine)@, old(scheduler)@, p),
{
    proof {
        reveal(released);
    }
    let mut i: usize = 0;
    while i < scheduler.tasks.len()
        invariant
            i <= scheduler.tasks.len(),
            forall|j: int| 0 <= j < i ==> (#[trigger] scheduler@.tasks[j]).process != Some(p),
            *scheduler == *old(scheduler),
            *machine == *old(machine),
            machine.wf(),
            scheduler@.wf(),
        decreases scheduler.tasks.len() - i,
    {
        if let Some(q) = scheduler.tasks[i].process {
            if q == p {
                assert(scheduler@.tasks[i as int].process == Some(p));
                proof {
                    reveal(released);
                }
                return;
            }
        }
        i += 1;
    }
    assert(!held(scheduler@.tasks, p));
    let ghost s = scheduler@;
    let _ = scheduler.processes.at_mut(p).destroy(machine);
    proof {
        lemma_still_ok(s, scheduler@);
    }
}

/// Tasks stay in order when their places do.
pub proof fn lemma_still_ok(s: SchedulerView, t: SchedulerView)
    requires
        s.wf(),
        t.tasks == s.tasks,
        t.current == s.current,
        t.slice_ticks == s.slice_ticks,
        t.tables == s.tables,
        t.actions == s.actions,
        t.objects == s.objects,
        s.processes.len() <= t.processes.len(),
    ensures
        t.wf(),
{
    assert forall|i: int| 0 <= i < t.tasks.len() implies scheduler::task_ok(#[trigger] t.tasks[i], t) by {
        assert(scheduler::task_ok(s.tasks[i], s));
    }
}

/// A thread that ends sets the word that it was to clear to zero; which word
/// that was.
#[verifier::opaque]
pub open spec fn tid_cleared(m: MachineView, s: SchedulerView, i: int) -> (
    MachineView,
    SchedulerView,
    Option<u64>,
) {
    let t = s.tasks[i];
    if t.clear_child_tid == 0 {
        (m, s, None)
    } else {
        (
            match t.process {
                Some(p) => process::user_written(
                    m,
                    s.processes[p as int].space,
                    t.clear_child_tid as int,
                    bytes::le32_bytes(0),
                ).0,
                None => m,
            },
            s.with_task(i, Task { clear_child_tid: 0, ..t }),
            Some(t.clear_child_tid),
        )
    }
}

fn clear_tid(machine: &mut Machine, scheduler: &mut Scheduler, i: usize) -> (r: Option<u64>)
    requires
        old(machine).wf(),
        old(scheduler)@.wf(),
        i < old(scheduler).tasks.len(),
    ensures
        same_shape(final(scheduler)@, old(scheduler)@),
        final(machine).wf(),
        final(machine).same_place(old(machine)),
        final(scheduler)@.wf(),
        (final(machine)@, final(scheduler)@, r) == tid_cleared(
            old(machine)@,
            old(scheduler)@,
            i as int,
        ),
{
    proof {
        reveal(tid_cleared);
    }
    let task = scheduler.tasks[i];
    assert(scheduler::task_ok(scheduler@.tasks[i as int], scheduler@));
    if task.clear_child_tid == 0 {
        return None;
    }
    if let Some(p) = task.process {
        let space = scheduler.processes.get(p).address_space();
        let _ = process::write_user_u32_in(machine, space, task.clear_child_tid, 0);
    }
    scheduler.tasks[i] = Task { clear_child_tid: 0, ..task };
    Some(task.clear_child_tid)
}

/// One waiter at the word that a thread has cleared can run again.
#[verifier::opaque]
pub open spec fn tid_woken(s: SchedulerView, address: Option<u64>) -> SchedulerView {
    match address {
        None => s,
        Some(uaddr) => SchedulerView {
            tasks: switch::futex_woken(s.tasks, uaddr, 1, linux::FUTEX_BITSET_MATCH_ANY, 0).0,
            ..s
        },
    }
}

fn wake_tid(scheduler: &mut Scheduler, address: Option<u64>)
    requires
        old(scheduler)@.wf(),
    ensures
        same_shape(final(scheduler)@, old(scheduler)@),
        final(scheduler)@.wf(),
        final(scheduler)@ == tid_woken(old(scheduler)@, address),
        final(scheduler).tasks.len() == old(scheduler).tasks.len(),
        forall|j: int|
            #![auto]
            0 <= j < final(scheduler).tasks.len() ==> final(scheduler)@.tasks[j].process == old(
                scheduler,
            )@.tasks[j].process,
{
    proof {
        reveal(tid_woken);
    }
    if let Some(uaddr) = address {
        let _ = futex_wake_unlocked(scheduler, uaddr, 1, linux::FUTEX_BITSET_MATCH_ANY);
    }
}

/// A task without its process, waiting to be asked how it ended.
#[verifier::opaque]
pub open spec fn ended(s: SchedulerView, i: int, exit_code: u64) -> SchedulerView {
    s.with_task(
        i,
        Task { process: None, state: TaskState::Zombie { exit_code }, ..s.tasks[i] },
    )
}

fn end_task(scheduler: &mut Scheduler, i: usize, exit_code: u64)
    requires
        old(scheduler)@.wf(),
        i < old(scheduler).tasks.len(),
    ensures
        same_shape(final(scheduler)@, old(scheduler)@),
        final(scheduler)@.wf(),
        final(scheduler)@ == ended(old(scheduler)@, i as int, exit_code),
{
    proof {
        reveal(ended);
    }
    let task = scheduler.tasks[i];
    assert(scheduler::task_ok(scheduler@.tasks[i as int], scheduler@));
    scheduler.tasks[i] = Task { process: None, state: TaskState::Zombie { exit_code }, ..task };
}

/// A thread that is ended from outside: its word is cleared, and its process
/// released. Which word that was.
pub open spec fn thread_ended(m: MachineView, s: SchedulerView, i: int, exit_code: u64) -> (
    MachineView,
    SchedulerView,
    Option<u64>,
) {
    let (m1, s1, address) = tid_cleared(m, s, i);
    let s2 = ended(s1, i, exit_code);
    match s.tasks[i].process {
        Some(p) => {
            let (m3, s3) = released(m1, s2, p);
            (m3, s3, address)
        },
        None => (m1, s2, address),
    }
}

pub(crate) fn end_thread(
    machine: &mut Machine,
    scheduler: &mut Scheduler,
    i: usize,
    exit_code: u64,
) -> (r: Option<u64>)
    requires
        old(machine).wf(),
        old(scheduler)@.wf(),
        i < old(scheduler).tasks.len(),
    ensures
        same_shape(final(scheduler)@, old(scheduler)@),
        final(machine).wf(),
        final(machine).same_place(old(machine)),
        final(scheduler)@.wf(),
        final(scheduler).tasks.len() == old(scheduler).tasks.len(),
        (final(machine)@, final(scheduler)@, r) == thread_ended(
            old(machine)@,
            old(scheduler)@,
            i as int,
            exit_code,
        ),
{
    let process = scheduler.tasks[i].process;
    assert(scheduler::task_ok(scheduler@.tasks[i as int], scheduler@));
    let address = clear_tid(machine, scheduler, i);
    end_task(scheduler, i, exit_code);
    if let Some(p) = process {
        release_process(machine, scheduler, p);
    }
    address
}

pub(crate) fn wake_after(scheduler: &mut Scheduler, address: Option<u64>)
    requires
        old(scheduler)@.wf(),
    ensures
        same_shape(final(scheduler)@, old(scheduler)@),
        final(scheduler)@.wf(),
        final(scheduler)@ == tid_woken(old(scheduler)@, address),
        final(scheduler).tasks.len() == old(scheduler).tasks.len(),
{
    wake_tid(scheduler, address);
}

// ---------------------------------------------------------------------------
// Telling the parent
// ---------------------------------------------------------------------------
/// Whether a task waits for a child of a process.
pub open spec fn waits_for(t: Task, parent: u64, child: u64) -> bool {
    t.tgid == parent && match t.state {
        TaskState::Waiting { child_pid, .. } => child_pid == child || child_pid == u64::MAX
            || child_pid == 0,
        _ => false,
    }
}

pub open spec fn first_waiting(tasks: Seq<Task>, parent: u64, child: u64, i: int) -> Option<int>
    decreases tasks.len() - i,
{
    if i < 0 || i >= tasks.len() {
        None
    } else if waits_for(tasks[i], parent, child) {
        Some(i)
    } else {
        first_waiting(tasks, parent, child, i + 1)
    }
}

/// The first task of the parent that waits for the child can run again. It
/// learns the child's number, or the code if it is a native program, and gets
/// the status where it asked for it.
#[verifier::opaque]
pub open spec fn parent_told(
    m: MachineView,
    s: SchedulerView,
    parent: u64,
    child: u64,
    code: u64,
    status: u32,
) -> (MachineView, SchedulerView) {
    match first_waiting(s.tasks, parent, child, 0) {
        None => (m, s),
        Some(i) => {
            let t = s.tasks[i];
            let m1 = match (t.state, t.process) {
                (TaskState::Waiting { status_ptr, .. }, Some(p)) => if status_ptr != 0 {
                    process::user_written(
                        m,
                        s.processes[p as int].space,
                        status_ptr as int,
                        bytes::le32_bytes(status),
                    ).0
                } else {
                    m
                },
                _ => m,
            };
            let linux = match t.process {
                Some(p) => s.processes[p as int].personality != ProcessPersonality::NativeVanta,
                None => false,
            };
            let value = if linux {
                child
            } else {
                code
            };
            (
                m1,
                s.with_task(
                    i,
                    Task {
                        state: TaskState::Runnable,
                        context: UserContext { return_value: value, ..t.context },
                        interrupt_context: InterruptContext {
                            rax: value,
                            ..t.interrupt_context
                        },
                        ..t
                    },
                ),
            )
        },
    }
}

pub(crate) fn tell_parent(
    machine: &mut Machine,
    scheduler: &mut Scheduler,
    parent: u64,
    child: u64,
    code: u64,
    status: u32,
)
    requires
        old(machine).wf(),
        old(scheduler)@.wf(),
    ensures
        same_shape(final(scheduler)@, old(scheduler)@),
        final(machine).wf(),
        final(machine).same_place(old(machine)),
        final(scheduler)@.wf(),
        (final(machine)@, final(scheduler)@) == parent_told(
            old(machine)@,
            old(scheduler)@,
            parent,
            child,
            code,
            status,
        ),
{
    proof {
        reveal(parent_told);
    }
    let ghost s0 = scheduler@;
    let ghost m0 = machine@;
    let mut i: usize = 0;
    while i < scheduler.tasks.len()
        invariant
            i <= scheduler.tasks.len(),
            *machine == *old(machine),
            *scheduler == *old(scheduler),
            s0 == old(scheduler)@,
            m0 == old(machine)@,
            machine.wf(),
            scheduler@.wf(),
            first_waiting(s0.tasks, parent, child, 0) == first_waiting(
                s0.tasks,
                parent,
                child,
                i as int,
            ),
        decreases scheduler.tasks.len() - i,
    {
        let task = scheduler.tasks[i];
        assert(scheduler::task_ok(scheduler@.tasks[i as int], scheduler@));
        if task.tgid == parent {
            if let TaskState::Waiting { child_pid, status_ptr } = task.state {
                if child_pid == child || child_pid == u64::MAX || child_pid == 0 {
                    let mut value: u64 = code;
                    if let Some(p) = task.process {
                        let space = scheduler.processes.get(p).address_space();
                        if scheduler.processes.get(p).personality()
                            != ProcessPersonality::NativeVanta {
                            value = child;
                        }
                        if status_ptr != 0 {
                            let _ = process::write_user_u32_in(machine, space, status_ptr, status);
                        }
                    }
                    scheduler.tasks[i] = Task {
                        state: TaskState::Runnable,
                        context: UserContext { return_value: value, ..task.context },
                        interrupt_context: InterruptContext {
                            rax: value,
                            ..task.interrupt_context
                        },
                        ..task
                    };
                    proof {
                        reveal(parent_told);
                    }
                    return;
                }
            }
        }
        i += 1;
    }
}

// ---------------------------------------------------------------------------
// Exit
// ---------------------------------------------------------------------------
/// Whether a thread of a group has not ended.
pub open spec fn group_alive(tasks: Seq<Task>, tgid: u64) -> bool {
    exists|i: int|
        0 <= i < tasks.len() && (#[trigger] tasks[i]).tgid == tgid && tasks[i].process is Some
}

fn is_group_alive(scheduler: &Scheduler, tgid: u64) -> (r: bool)
    ensures
        r == group_alive(scheduler@.tasks, tgid),
{
    let mut i: usize = 0;
    while i < scheduler.tasks.len()
        invariant
            i <= scheduler.tasks.len(),
            forall|j: int|
                0 <= j < i ==> !((#[trigger] scheduler@.tasks[j]).tgid == tgid
                    && scheduler@.tasks[j].process is Some),
        decreases scheduler.tasks.len() - i,
    {
        if scheduler.tasks[i].tgid == tgid && scheduler.tasks[i].process.is_some() {
            assert(scheduler@.tasks[i as int].tgid == tgid);
            return true;
        }
        i += 1;
    }
    false
}

/// The status that a parent gets of a child that has ended by itself.
pub open spec fn exit_status(code: u64) -> u32 {
    (code % 256 * 256) as u32
}

/// How the running task ends: its word is cleared; the parent learns of it if
/// it was the last thread; and the next task runs.
pub open spec fn exited(m: MachineView, s: SchedulerView, shared: Shared, code: u64) -> (
    MachineView,
    SchedulerView,
    Shared,
) {
    let t = s.task();
    let (m1, s1, address) = tid_cleared(m, s, s.current);
    let s2 = ended(tid_woken(s1, address), s.current, code);
    let shared1 = if shared.foreground_pid == t.tgid || shared.foreground_pid == t.tid {
        Shared { foreground_pid: 0, ..shared }
    } else {
        shared
    };
    let parent = match t.parent_pid {
        Some(pid) => pid,
        None => 0,
    };
    let (m3, s3) = if group_alive(s2.tasks, t.tgid) {
        (m1, s2)
    } else {
        parent_told(m1, s2, parent, t.tgid, code, exit_status(code))
    };
    let m4 = MachineView { cr3: s.kernel_space.pml4_phys, ..m3 };
    let s4 = SchedulerView { current: switch::next_or_same(s3), ..s3 };
    let (m5, s5) = released(m4, s4, t.process->0);
    (m5, s5, shared1)
}

fn leave(machine: &mut Machine, scheduler: &mut Scheduler, shared: &mut Shared, code: u64) -> (r: bool)
    requires
        old(machine).wf(),
        old(scheduler)@.wf(),
        old(scheduler)@.task().process is Some,
    ensures
        final(machine).wf(),
        final(scheduler)@.wf(),
        (final(machine)@, final(scheduler)@, *final(shared)) == exited(
            old(machine)@,
            old(scheduler)@,
            *old(shared),
            code,
        ),
        r == (final(scheduler)@.task().state == TaskState::Runnable),
{
    let current: usize = scheduler.current;
    let task = scheduler.tasks[current];
    assert(scheduler::task_ok(scheduler@.tasks[current as int], scheduler@));
    let address = clear_tid(machine, scheduler, current);
    wake_tid(scheduler, address);
    end_task(scheduler, current, code);
    if shared.foreground_pid == task.tgid || shared.foreground_pid == task.tid {
        shared.foreground_pid = 0;
    }
    if !is_group_alive(scheduler, task.tgid) {
        let parent: u64 = match task.parent_pid {
            Some(pid) => pid,
            None => 0,
        };
        tell_parent(machine, scheduler, parent, task.tgid, code, (code % 256 * 256) as u32);
    }
    let kernel_space = scheduler.kernel_space;
    paging::activate(machine, kernel_space);
    let next = crate::scheduler::switch::next_task(scheduler, current);
    proof {
        if next is None && scheduler@.task().state == TaskState::Runnable {
            crate::scheduler::switch::law_runnable_task_found(
                scheduler@.tasks,
                current as int,
                current as int,
            );
        }
    }
    if let Some(i) = next {
        scheduler.current = i;
    }
    let ghost tasks = scheduler@.tasks;
    if let Some(p) = task.process {
        release_process(machine, scheduler, p);
    }
    proof {
        reveal(released);
    }
    next.is_some()
}

/// Ends the running task. Returns what the processor goes on with; with no
/// task that can run, the scheduler ends too.
pub fn exit_current(
    machine: &mut Machine,
    scheduler: &mut Option<Scheduler>,
    shared: &mut Shared,
    code: u64,
) -> (r: Option<Target>)
    requires
        old(machine).wf(),
        scheduler::ready(*old(scheduler)),
        *old(scheduler) is Some,
        scheduler::seen(*old(scheduler))->0.task().process is Some,
    ensures
        final(machine).wf(),
        scheduler::ready(*final(scheduler)),
        ({
            let (m, s, sh) = exited(
                old(machine)@,
                scheduler::seen(*old(scheduler))->0,
                *old(shared),
                code,
            );
            &&& final(machine)@ == m
            &&& *final(shared) == sh
            &&& if s.task().state == TaskState::Runnable {
                scheduler::seen(*final(scheduler)) == Some(s) && r == Some(switch::target(s, s.current))
            } else {
                *final(scheduler) is None && r is None
            }
        }),
{
    let next = match scheduler {
        None => None,
        Some(s) => {
            if leave(machine, s, shared, code) {
                Some(crate::scheduler::switch::current_target(s))
            } else {
                None
            }
        },
    };
    if next.is_none() {
        *scheduler = None;
    }
    next
}

/// The threads of a group ended but for one that is spared, from the `i`-th
/// task on; the words that they cleared.
pub open spec fn others_ended(
    m: MachineView,
    s: SchedulerView,
    tgid: u64,
    spared: Option<u64>,
    code: u64,
    i: int,
) -> (MachineView, SchedulerView, Seq<u64>)
    decreases s.tasks.len() - i,
{
    if i < 0 || i >= s.tasks.len() {
        (m, s, Seq::empty())
    } else {
        let t = s.tasks[i];
        if t.tgid == tgid && t.process is Some && spared != Some(t.tid) {
            let (m1, s1, address) = thread_ended(m, s, i, code);
            if s1.tasks.len() != s.tasks.len() {
                (m1, s1, Seq::empty())
            } else {
                let (m2, s2, rest) = others_ended(m1, s1, tgid, spared, code, i + 1);
                (
                    m2,
                    s2,
                    match address {
                        Some(a) => seq![a] + rest,
                        None => rest,
                    },
                )
            }
        } else {
            others_ended(m, s, tgid, spared, code, i + 1)
        }
    }
}

/// One waiter at each of the words can run again, from the `k`-th on.
pub open spec fn all_woken(s: SchedulerView, words: Seq<u64>) -> SchedulerView
    decreases words.len(),
{
    if words.len() == 0 {
        s
    } else {
        all_woken(tid_woken(s, Some(words[0])), words.skip(1))
    }
}

/// The other threads of the running task's group have ended.
pub open spec fn group_left(m: MachineView, s: SchedulerView, code: u64) -> (
    MachineView,
    SchedulerView,
) {
    let (m1, s1, words) = others_ended(m, s, s.task().tgid, Some(s.task().tid), code, 0);
    (m1, all_woken(s1, words))
}

pub(crate) fn wake_all(scheduler: &mut Scheduler, words: &Vec<u64>)
    requires
        old(scheduler)@.wf(),
    ensures
        same_shape(final(scheduler)@, old(scheduler)@),
        final(scheduler)@.wf(),
        final(scheduler)@ == all_woken(old(scheduler)@, words@),
{
    let mut k: usize = 0;
    assert(words@.skip(0) =~= words@);
    while k < words.len()
        invariant
            k <= words.len(),
            scheduler@.wf(),
            same_shape(scheduler@, old(scheduler)@),
            all_woken(old(scheduler)@, words@) == all_woken(scheduler@, words@.skip(k as int)),
        decreases words.len() - k,
    {
        wake_tid(scheduler, Some(words[k]));
        assert(words@.skip(k as int).skip(1) =~= words@.skip(k + 1));
        k += 1;
    }
}

pub(crate) fn end_group(
    machine: &mut Machine,
    scheduler: &mut Scheduler,
    tgid: u64,
    spared: Option<u64>,
    code: u64,
)
    requires
        old(machine).wf(),
        old(scheduler)@.wf(),
    ensures
        same_shape(final(scheduler)@, old(scheduler)@),
        final(machine).wf(),
        final(machine).same_place(old(machine)),
        final(scheduler)@.wf(),
        ({
            let (m, s, words) = others_ended(
                old(machine)@,
                old(scheduler)@,
                tgid,
                spared,
                code,
                0,
            );
            (final(machine)@, final(scheduler)@) == (m, all_woken(s, words))
        }),
{
    let ghost goal = others_ended(machine@, scheduler@, tgid, spared, code, 0);
    let mut words: Vec<u64> = Vec::new();
    let mut i: usize = 0;
    proof {
        let (m, s, rest) = goal;
        assert(words@ + rest =~= rest);
    }
    while i < scheduler.tasks.len()
        invariant
            i <= scheduler.tasks.len(),
            machine.wf(),
            machine.same_place(old(machine)),
            scheduler@.wf(),
            same_shape(scheduler@, old(scheduler)@),
            ({
                let (m, s, rest) = others_ended(machine@, scheduler@, tgid, spared, code, i as int);
                goal == (m, s, words@ + rest)
            }),
        decreases scheduler.tasks.len() - i,
    {
        let task = scheduler.tasks[i];
        let ghost rest = others_ended(machine@, scheduler@, tgid, spared, code, i as int).2;
        let kept: bool = match spared {
            Some(tid) => task.tid == tid,
            None => false,
        };
        if task.tgid == tgid && task.process.is_some() && !kept {
            let ghost before = words@;
            if let Some(a) = end_thread(machine, scheduler, i, code) {
                words.push(a);
            }
            proof {
                let after = others_ended(machine@, scheduler@, tgid, spared, code, i + 1).2;
                assert(words@ + after =~= before + rest);
            }
        }
        i += 1;
    }
    assert(words@ + Seq::<u64>::empty() =~= words@);
    wake_all(scheduler, &words);
}

/// Waking changes nothing of a task but its state.
proof fn lemma_woken_process(tasks: Seq<Task>, uaddr: u64, left: int, bitset: u32, i: int, c: int)
    requires
        0 <= c < tasks.len(),
        0 <= i,
    ensures
        ({
            let t = switch::futex_woken(tasks, uaddr, left, bitset, i).0;
            t.len() == tasks.len() && t[c].process == tasks[c].process && t[c].tid == tasks[c].tid
        }),
    decreases tasks.len() - i,
{
    if i < tasks.len() && left > 0 {
        lemma_woken_process(tasks, uaddr, left, bitset, i + 1, c);
        lemma_woken_process(
            tasks.update(i, Task { state: TaskState::Runnable, ..tasks[i] }),
            uaddr,
            left - 1,
            bitset,
            i + 1,
            c,
        );
    }
}

proof fn lemma_all_woken_process(s: SchedulerView, words: Seq<u64>, c: int)
    requires
        0 <= c < s.tasks.len(),
    ensures
        ({
            let t = all_woken(s, words);
            t.tasks.len() == s.tasks.len() && t.current == s.current && t.tasks[c].process
                == s.tasks[c].process
        }),
    decreases words.len(),
{
    reveal(tid_woken);
    if words.len() > 0 {
        lemma_woken_process(s.tasks, words[0], 1, linux::FUTEX_BITSET_MATCH_ANY, 0, c);
        lemma_all_woken_process(tid_woken(s, Some(words[0])), words.skip(1), c);
    }
}

/// The thread that is spared goes on.
proof fn lemma_spared(
    m: MachineView,
    s: SchedulerView,
    tgid: u64,
    tid: u64,
    code: u64,
    i: int,
    c: int,
)
    requires
        0 <= c < s.tasks.len(),
        0 <= i,
        s.tasks[c].tid == tid,
    ensures
        ({
            let (_, t, _) = others_ended(m, s, tgid, Some(tid), code, i);
            t.tasks.len() == s.tasks.len() && t.current == s.current && t.tasks[c] == s.tasks[c]
        }),
    decreases s.tasks.len() - i,
{
    reveal(released);
    reveal(tid_cleared);
    reveal(ended);
    if i < s.tasks.len() {
        let t = s.tasks[i];
        if t.tgid == tgid && t.process is Some && t.tid != tid {
            let (m1, s1, address) = thread_ended(m, s, i, code);
            assert(i != c);
            assert(s1.tasks.len() == s.tasks.len());
            assert(s1.tasks[c] == s.tasks[c]);
            lemma_spared(m1, s1, tgid, tid, code, i + 1, c);
        } else {
            lemma_spared(m, s, tgid, tid, code, i + 1, c);
        }
    }
}

/// Ends all threads of the running task's group.
pub fn exit_group_current(
    machine: &mut Machine,
    scheduler: &mut Option<Scheduler>,
    shared: &mut Shared,
    code: u64,
) -> (r: Option<Target>)
    requires
        old(machine).wf(),
        scheduler::ready(*old(scheduler)),
        *old(scheduler) is Some,
        scheduler::seen(*old(scheduler))->0.task().process is Some,
    ensures
        final(machine).wf(),
        scheduler::ready(*final(scheduler)),
        ({
            let (m1, s1) = group_left(old(machine)@, scheduler::seen(*old(scheduler))->0, code);
            let (m, s, sh) = exited(m1, s1, *old(shared), code);
            &&& final(machine)@ == m
            &&& *final(shared) == sh
            &&& if s.task().state == TaskState::Runnable {
                scheduler::seen(*final(scheduler)) == Some(s) && r == Some(switch::target(s, s.current))
            } else {
                *final(scheduler) is None && r is None
            }
        }),
{
    if let Some(s) = scheduler {
        let task = s.tasks[s.current];
        proof {
            let words = others_ended(machine@, s@, task.tgid, Some(task.tid), code, 0);
            lemma_spared(machine@, s@, task.tgid, task.tid, code, 0, s@.current);
            lemma_all_woken_process(words.1, words.2, s@.current);
        }
        end_group(machine, s, task.tgid, Some(task.tid), code);
    }
    exit_current(machine, scheduler, shared, code)
}

// ---------------------------------------------------------------------------
// Children that have ended
// ---------------------------------------------------------------------------
/// Whether a task is a child of a process, of those that are asked for.
pub open spec fn child_of(t: Task, parent: u64, target: u64) -> bool {
    t.parent_pid == Some(parent) && (target == u64::MAX || target == 0 || t.tgid == target)
}

pub open spec fn has_child(tasks: Seq<Task>, parent: u64, target: u64) -> bool {
    exists|i: int| 0 <= i < tasks.len() && child_of(#[trigger] tasks[i], parent, target)
}

pub open spec fn first_ended(tasks: Seq<Task>, parent: u64, target: u64, i: int) -> Option<int>
    decreases tasks.len() - i,
{
    if i < 0 || i >= tasks.len() {
        None
    } else if child_of(tasks[i], parent, target) && tasks[i].state is Zombie {
        Some(i)
    } else {
        first_ended(tasks, parent, target, i + 1)
    }
}

/// What a parent learns of its children: that there is none, that none has
/// ended, or which has and how.
pub open spec fn child_reaped(s: SchedulerView, target: u64) -> (
    SchedulerView,
    Result<Option<(u64, u64)>, ()>,
) {
    let parent = s.task().tgid;
    if !has_child(s.tasks, parent, target) {
        (s, Err(()))
    } else {
        match first_ended(s.tasks, parent, target, 0) {
            None => (s, Ok(None)),
            Some(i) => {
                let t = s.tasks[i];
                (
                    s.with_task(i, Task { state: TaskState::Reaped, ..t }),
                    Ok(Some((t.tgid, t.state->exit_code))),
                )
            },
        }
    }
}

fn reap(s: &mut Scheduler, child_target: u64) -> (r: Result<Option<(u64, u64)>, ()>)
    requires
        old(s)@.wf(),
    ensures
        final(s)@.wf(),
        (final(s)@, r) == child_reaped(old(s)@, child_target),
{
    let parent: u64 = s.tasks[s.current].tgid;
    let ghost tasks = s@.tasks;
    let ghost s0 = s@;
    let mut found: bool = false;
    let mut i: usize = 0;
    while i < s.tasks.len()
        invariant
            i <= s.tasks.len(),
            tasks == s@.tasks,
            *s == *old(s),
            s@ == s0,
            s@.wf(),
            child_reaped(s0, child_target) == (if has_child(tasks, parent, child_target) {
                match first_ended(tasks, parent, child_target, i as int) {
                    None => (s0, Ok(None)),
                    Some(k) => (
                        s0.with_task(k, Task { state: TaskState::Reaped, ..tasks[k] }),
                        Ok(Some((tasks[k].tgid, tasks[k].state->exit_code))),
                    ),
                }
            } else {
                (s0, Err(()))
            }),
            !found ==> forall|j: int|
                0 <= j < i ==> !child_of(#[trigger] tasks[j], parent, child_target),
            found ==> has_child(tasks, parent, child_target),
        decreases s.tasks.len() - i,
    {
        let task = s.tasks[i];
        assert(scheduler::task_ok(s@.tasks[i as int], s@));
        let mine: bool = match task.parent_pid {
            Some(p) => p == parent,
            None => false,
        };
        if mine && (child_target == u64::MAX || child_target == 0 || task.tgid
            == child_target) {
            assert(child_of(tasks[i as int], parent, child_target));
            found = true;
            if let TaskState::Zombie { exit_code } = task.state {
                s.tasks[i] = Task { state: TaskState::Reaped, ..task };
                return Ok(Some((task.tgid, exit_code)));
            }
        }
        i += 1;
    }
    if found {
        Ok(None)
    } else {
        Err(())
    }
}

pub fn wait_child_current(scheduler: &mut Option<Scheduler>, child_target: u64) -> (r: Result<
    Option<(u64, u64)>,
    (),
>)
    requires
        scheduler::ready(*old(scheduler)),
    ensures
        scheduler::ready(*final(scheduler)),
        match scheduler::seen(*old(scheduler)) {
            None => r is Err && *final(scheduler) is None,
            Some(s) => (scheduler::seen(*final(scheduler)), r) == (
                Some(child_reaped(s, child_target).0),
                child_reaped(s, child_target).1,
            ),
        },
{
    match scheduler {
        None => Err(()),
        Some(s) => reap(s, child_target),
    }
}

proof fn lemma_first_ended(tasks: Seq<Task>, parent: u64, target: u64, i: int)
    requires
        0 <= i,
    ensures
        first_ended(tasks, parent, target, i) matches Some(k) ==> i <= k < tasks.len() && child_of(
            tasks[k],
            parent,
            target,
        ) && tasks[k].state is Zombie,
    decreases tasks.len() - i,
{
    if i < tasks.len() {
        lemma_first_ended(tasks, parent, target, i + 1);
    }
}

/// A child that a parent learns of had ended with the code that is told, and
/// is not told of again.
pub proof fn law_reaped_once(s: SchedulerView, target: u64, pid: u64, code: u64)
    requires
        child_reaped(s, target).1 == Ok::<Option<(u64, u64)>, ()>(Some((pid, code))),
    ensures
        exists|i: int|
            0 <= i < s.tasks.len() && child_of(#[trigger] s.tasks[i], s.task().tgid, target)
                && s.tasks[i].state == (TaskState::Zombie { exit_code: code }) && s.tasks[i].tgid
                == pid && child_reaped(s, target).0.tasks[i].state is Reaped && forall|j: int|
                0 <= j < s.tasks.len() && j != i ==> #[trigger] child_reaped(s, target).0.tasks[j]
                    == s.tasks[j],
{
    lemma_first_ended(s.tasks, s.task().tgid, target, 0);
    let i = first_ended(s.tasks, s.task().tgid, target, 0)->0;
    assert(child_of(s.tasks[i], s.task().tgid, target));
}

} // verus!
