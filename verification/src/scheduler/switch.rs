//! Which task runs next, and how it stops and goes on.
use vstd::prelude::*;

use crate::gdt::user_interrupt_selectors;
use crate::paging::AddressSpace;
use crate::scheduler::{
    self, InterruptContext, Scheduler, SchedulerView, TIMER_TICKS_PER_SLICE, Task, TaskState,
};
use crate::syscall::{SYSCALL_WOULD_BLOCK, UserContext};

verus! {

/// What the processor goes on with: the registers, the address space and the
/// base of thread-local storage.
#[derive(Clone, Copy, Debug, PartialEq, Eq, Structural)]
pub struct Target {
    pub context: UserContext,
    pub space: AddressSpace,
    pub fs_base: u64,
}

/// The first runnable task, `offset` or more after `current`, going round once.
pub open spec fn next_from(tasks: Seq<Task>, current: int, offset: int) -> Option<int>
    decreases tasks.len() + 1 - offset,
{
    if offset > tasks.len() {
        None
    } else {
        let index = (current + offset) % (tasks.len() as int);
        if tasks[index].state == TaskState::Runnable {
            Some(index)
        } else {
            next_from(tasks, current, offset + 1)
        }
    }
}

/// The task after `current` that can run; itself is the last choice.
pub open spec fn next_runnable(tasks: Seq<Task>, current: int) -> Option<int> {
    next_from(tasks, current, 1)
}

pub proof fn lemma_next_from(tasks: Seq<Task>, current: int, offset: int)
    requires
        tasks.len() > 0,
        0 <= current,
        0 <= offset,
    ensures
        next_from(tasks, current, offset) matches Some(i) ==> 0 <= i < tasks.len()
            && tasks[i].state == TaskState::Runnable,
    decreases tasks.len() + 1 - offset,
{
    if offset <= tasks.len() {
        lemma_next_from(tasks, current, offset + 1);
        let index = (current + offset) % (tasks.len() as int);
        vstd::arithmetic::div_mod::lemma_mod_bound(current + offset, tasks.len() as int);
    }
}

/// Which task is next depends on the states of the tasks alone.
proof fn lemma_next_same(a: Seq<Task>, b: Seq<Task>, current: int, offset: int)
    requires
        a.len() == b.len(),
        a.len() > 0,
        forall|i: int| 0 <= i < a.len() ==> (#[trigger] a[i]).state == b[i].state,
    ensures
        next_from(a, current, offset) == next_from(b, current, offset),
    decreases a.len() + 1 - offset,
{
    if offset <= a.len() {
        vstd::arithmetic::div_mod::lemma_mod_bound(current + offset, a.len() as int);
        let index = (current + offset) % (a.len() as int);
        assert(a[index].state == b[index].state);
        lemma_next_same(a, b, current, offset + 1);
    }
}

/// The clock does not put a scheduler out of order.
proof fn lemma_clock(s: SchedulerView, t: SchedulerView)
    requires
        s.wf(),
        t == (SchedulerView { ticks: t.ticks, slice_ticks: t.slice_ticks, ..s }),
        t.slice_ticks < 3,
    ensures
        t.wf(),
{
    assert forall|i: int| 0 <= i < t.tasks.len() implies scheduler::task_ok(#[trigger] t.tasks[i], t) by {
        assert(scheduler::task_ok(s.tasks[i], s));
    }
}

/// A task that can run is found, if there is one.
pub proof fn law_runnable_task_found(tasks: Seq<Task>, current: int, i: int)
    requires
        0 <= current < tasks.len(),
        0 <= i < tasks.len(),
        tasks[i].state == TaskState::Runnable,
    ensures
        next_runnable(tasks, current) is Some,
{
    let n = tasks.len() as int;
    let offset = if i > current {
        i - current
    } else {
        i - current + n
    };
    assert((current + offset) % n == i) by {
        if i > current {
            vstd::arithmetic::div_mod::lemma_small_mod(i as nat, n as nat);
        } else {
            vstd::arithmetic::div_mod::lemma_mod_add_multiples_vanish(i, n);
            vstd::arithmetic::div_mod::lemma_small_mod(i as nat, n as nat);
        }
    }
    lemma_found(tasks, current, offset, 1);
}

proof fn lemma_found(tasks: Seq<Task>, current: int, offset: int, from: int)
    requires
        1 <= from <= offset <= tasks.len(),
        tasks[(current + offset) % (tasks.len() as int)].state == TaskState::Runnable,
    ensures
        next_from(tasks, current, from) is Some,
    decreases offset - from,
{
    if from < offset {
        lemma_found(tasks, current, offset, from + 1);
    }
}

fn next_alive(scheduler: &Scheduler, current: usize) -> (r: Option<usize>)
    requires
        scheduler.tasks.len() > 0,
        current < scheduler.tasks.len(),
    ensures
        match r {
            Some(i) => next_runnable(scheduler.tasks@, current as int) == Some(i as int) && i
                < scheduler.tasks.len() && scheduler.tasks@[i as int].state == TaskState::Runnable,
            None => next_runnable(scheduler.tasks@, current as int) is None,
        },
{
    let count: usize = scheduler.tasks.len();
    let mut index: usize = current;
    let mut offset: usize = 0;
    proof {
        vstd::arithmetic::div_mod::lemma_small_mod(current as nat, count as nat);
    }
    while offset < count
        invariant
            offset <= count,
            count == scheduler.tasks.len(),
            current < count,
            index < count,
            index == (current + offset) % (count as int),
            next_runnable(scheduler.tasks@, current as int) == next_from(
                scheduler.tasks@,
                current as int,
                offset + 1,
            ),
        decreases count - offset,
    {
        proof {
            let a = current + offset;
            let n = count as int;
            assert((a + 1) % n == (if index + 1 == n {
                0
            } else {
                index + 1
            })) by {
                vstd::arithmetic::div_mod::lemma_add_mod_noop(a as int, 1, n);
                if n == 1 {
                    vstd::arithmetic::div_mod::lemma_mod_multiples_basic(a + 1, 1);
                } else {
                    vstd::arithmetic::div_mod::lemma_small_mod(1, n as nat);
                    if index + 1 < n {
                        vstd::arithmetic::div_mod::lemma_small_mod((index + 1) as nat, n as nat);
                    } else {
                        vstd::arithmetic::div_mod::lemma_mod_self_0(n);
                    }
                }
            }
        }
        index = if index + 1 == count {
            0
        } else {
            index + 1
        };
        offset += 1;
        if scheduler.tasks[index].state == TaskState::Runnable {
            return Some(index);
        }
    }
    None
}

pub(crate) fn next_task(scheduler: &Scheduler, current: usize) -> (r: Option<usize>)
    requires
        current < scheduler.tasks.len(),
    ensures
        match r {
            Some(i) => next_runnable(scheduler.tasks@, current as int) == Some(i as int) && i
                < scheduler.tasks.len() && scheduler.tasks@[i as int].state == TaskState::Runnable,
            None => next_runnable(scheduler.tasks@, current as int) is None,
        },
{
    next_alive(scheduler, current)
}

/// The address space of a task's process.
pub open spec fn space_of(s: SchedulerView, i: int) -> AddressSpace {
    s.processes[s.tasks[i].process->0 as int].space
}

pub open spec fn target(s: SchedulerView, i: int) -> Target {
    Target { context: s.tasks[i].context, space: space_of(s, i), fs_base: s.tasks[i].fs_base }
}

fn target_of(scheduler: &Scheduler, i: usize) -> (r: Target)
    requires
        scheduler@.wf(),
        i < scheduler.tasks.len(),
        scheduler.tasks@[i as int].process is Some,
    ensures
        r == target(scheduler@, i as int),
{
    let task = scheduler.tasks[i];
    assert(scheduler::task_ok(scheduler@.tasks[i as int], scheduler@));
    match task.process {
        Some(p) => Target {
            context: task.context,
            space: scheduler.processes.get(p).address_space(),
            fs_base: task.fs_base,
        },
        None => Target {
            context: task.context,
            space: scheduler.kernel_space,
            fs_base: task.fs_base,
        },
    }
}

/// The target of the task that runs.
pub fn current_target(scheduler: &Scheduler) -> (r: Target)
    requires
        scheduler@.wf(),
        scheduler@.task().process is Some,
    ensures
        r == target(scheduler@, scheduler@.current),
{
    target_of(scheduler, scheduler.current)
}

// ---------------------------------------------------------------------------
// Giving up the processor
// ---------------------------------------------------------------------------
/// The registers of a task that has given up the processor by a system call.
pub open spec fn registers_kept(t: Task, c: UserContext) -> Task {
    Task {
        context: c,
        interrupt_context: InterruptContext {
            rbx: c.rbx,
            rbp: c.rbp,
            r12: c.r12,
            r13: c.r13,
            r14: c.r14,
            r15: c.r15,
            rax: c.return_value,
            instruction_pointer: c.instruction_pointer,
            flags: c.flags,
            stack_pointer: c.stack_pointer,
            ..t.interrupt_context
        },
        ..t
    }
}

/// The same of one that waits: it goes on in user mode, with interrupts.
pub open spec fn registers_parked(t: Task, c: UserContext, state: TaskState) -> Task {
    let kept = registers_kept(t, c);
    Task {
        state,
        interrupt_context: InterruptContext {
            flags: c.flags | 0x202,
            code_segment: 0x33,
            stack_segment: 0x2b,
            ..kept.interrupt_context
        },
        ..kept
    }
}

fn keep_registers(t: Task, c: UserContext) -> (r: Task)
    ensures
        r == registers_kept(t, c),
{
    Task {
        context: c,
        interrupt_context: InterruptContext {
            rbx: c.rbx,
            rbp: c.rbp,
            r12: c.r12,
            r13: c.r13,
            r14: c.r14,
            r15: c.r15,
            rax: c.return_value,
            instruction_pointer: c.instruction_pointer,
            flags: c.flags,
            stack_pointer: c.stack_pointer,
            ..t.interrupt_context
        },
        ..t
    }
}

fn park_registers(t: Task, c: UserContext, state: TaskState) -> (r: Task)
    ensures
        r == registers_parked(t, c, state),
{
    let kept = keep_registers(t, c);
    let (code_segment, stack_segment) = user_interrupt_selectors();
    Task {
        state,
        interrupt_context: InterruptContext {
            flags: c.flags | 0x202,
            code_segment,
            stack_segment,
            ..kept.interrupt_context
        },
        ..kept
    }
}

pub open spec fn run(s: SchedulerView, next: int) -> SchedulerView {
    SchedulerView { current: next, slice_ticks: 0, ..s }
}

/// The task after the current one; the current one if there is no other.
pub open spec fn next_or_same(s: SchedulerView) -> int {
    match next_runnable(s.tasks, s.current) {
        Some(i) => i,
        None => s.current,
    }
}

/// The running task gives way to the next.
pub open spec fn yielded(s: SchedulerView, c: UserContext) -> SchedulerView {
    let s1 = s.with_current(registers_kept(s.task(), c));
    run(s1, next_or_same(s1))
}

pub fn yield_current(scheduler: &mut Scheduler, context: UserContext) -> (r: Target)
    requires
        old(scheduler)@.wf(),
        old(scheduler)@.task().process is Some || next_runnable(
            old(scheduler)@.tasks,
            old(scheduler)@.current,
        ) is Some,
    ensures
        final(scheduler)@.wf(),
        final(scheduler)@ == yielded(old(scheduler)@, context),
        r == target(final(scheduler)@, final(scheduler)@.current),
{
    let previous: usize = scheduler.current;
    let task = scheduler.tasks[previous];
    assert(scheduler::task_ok(scheduler@.tasks[previous as int], scheduler@));
    let ghost before = scheduler@.tasks;
    scheduler.tasks[previous] = keep_registers(task, context);
    proof {
        lemma_next_same(before, scheduler@.tasks, previous as int, 1);
    }
    let next: usize = match next_alive(scheduler, previous) {
        Some(i) => i,
        None => previous,
    };
    scheduler.current = next;
    scheduler.slice_ticks = 0;
    assert(scheduler::task_ok(scheduler@.tasks[next as int], scheduler@));
    target_of(scheduler, next)
}

/// The registers of a system call that stand for those of an interrupt.
pub open spec fn as_context(i: InterruptContext) -> UserContext {
    UserContext {
        return_value: i.rax,
        rbx: i.rbx,
        rbp: i.rbp,
        r12: i.r12,
        r13: i.r13,
        r14: i.r14,
        r15: i.r15,
        rdi: i.rdi,
        rsi: i.rsi,
        rdx: i.rdx,
        r8: i.r8,
        r9: i.r9,
        r10: i.r10,
        instruction_pointer: i.instruction_pointer,
        flags: i.flags,
        stack_pointer: i.stack_pointer,
    }
}

/// What the processor goes on with after an interrupt.
#[derive(Clone, Copy, Debug, PartialEq, Eq, Structural)]
pub struct Preemption {
    pub context: InterruptContext,
    pub space: AddressSpace,
    pub fs_base: u64,
}

/// What a tick of the timer does: the slice of the running task gets shorter;
/// at its end the next task runs.
pub open spec fn ticked(s: SchedulerView, c: InterruptContext) -> (
    SchedulerView,
    Option<Preemption>,
) {
    let s1 = SchedulerView { ticks: super::after(s.ticks), ..s };
    if s.slice_ticks + 1 < TIMER_TICKS_PER_SLICE {
        (SchedulerView { slice_ticks: (s.slice_ticks + 1) as u64, ..s1 }, None)
    } else {
        let s2 = SchedulerView { slice_ticks: 0, ..s1 };
        let next = next_or_same(s2);
        if next == s.current {
            (s2, None)
        } else {
            let s3 = SchedulerView {
                current: next,
                ..s2.with_current(
                    Task { interrupt_context: c, context: as_context(c), ..s.task() },
                )
            };
            (
                s3,
                Some(
                    Preemption {
                        context: s3.task().interrupt_context,
                        space: space_of(s3, next),
                        fs_base: s3.task().fs_base,
                    },
                ),
            )
        }
    }
}

/// A tick of the timer that interrupted `context`; returns what the processor
/// goes on with, if that is something else.
pub fn timer_tick(scheduler: &mut Option<Scheduler>, context: &InterruptContext) -> (r: Option<
    Preemption,
>)
    requires
        scheduler::ready(*old(scheduler)),
    ensures
        scheduler::ready(*final(scheduler)),
        match scheduler::seen(*old(scheduler)) {
            Some(s) => if context.code_segment % 4 == 3 {
                (scheduler::seen(*final(scheduler)), r) == (
                    Some(ticked(s, *context).0),
                    ticked(s, *context).1,
                )
            } else {
                scheduler::seen(*final(scheduler)) == Some(s) && r is None
            },
            None => *final(scheduler) is None && r is None,
        },
{
    if !context.interrupted_user_mode() {
        return None;
    }
    match scheduler {
        None => None,
        Some(s) => {
            s.ticks = s.ticks.wrapping_add(1);
            s.slice_ticks = s.slice_ticks + 1;
            if s.slice_ticks < TIMER_TICKS_PER_SLICE {
                proof {
                    lemma_clock(scheduler::seen(*old(scheduler))->0, s@);
                }
                return None;
            }
            let previous: usize = s.current;
            s.slice_ticks = 0;
            proof {
                lemma_clock(scheduler::seen(*old(scheduler))->0, s@);
            }
            let next: usize = match next_alive(s, previous) {
                Some(i) => i,
                None => previous,
            };
            if previous == next {
                return None;
            }
            let task = s.tasks[previous];
            assert(scheduler::task_ok(s@.tasks[previous as int], s@));
            let i = *context;
            s.tasks[previous] = Task {
                interrupt_context: i,
                context: UserContext {
                    return_value: i.rax,
                    rbx: i.rbx,
                    rbp: i.rbp,
                    r12: i.r12,
                    r13: i.r13,
                    r14: i.r14,
                    r15: i.r15,
                    rdi: i.rdi,
                    rsi: i.rsi,
                    rdx: i.rdx,
                    r8: i.r8,
                    r9: i.r9,
                    r10: i.r10,
                    instruction_pointer: i.instruction_pointer,
                    flags: i.flags,
                    stack_pointer: i.stack_pointer,
                },
                ..task
            };
            s.current = next;
            let t = target_of(s, next);
            Some(
                Preemption {
                    context: s.tasks[next].interrupt_context,
                    space: t.space,
                    fs_base: t.fs_base,
                },
            )
        },
    }
}

/// The running task waits until a pipe or channel changes; if no other can
/// run, it does not wait.
pub open spec fn pipe_blocked(s: SchedulerView, pipe_id: u64, c: UserContext) -> SchedulerView {
    let c1 = UserContext { return_value: SYSCALL_WOULD_BLOCK, ..c };
    let t = registers_parked(s.task(), c1, TaskState::PipeWaiting { pipe_id });
    let s1 = s.with_current(t);
    match next_runnable(s1.tasks, s.current) {
        Some(next) => run(s1, next),
        None => s.with_current(Task { state: TaskState::Runnable, ..t }),
    }
}

pub fn block_on_pipe(scheduler: &mut Scheduler, pipe_id: u64, context: UserContext) -> (r: Target)
    requires
        old(scheduler)@.wf(),
        old(scheduler)@.task().process is Some,
    ensures
        final(scheduler)@.wf(),
        final(scheduler)@ == pipe_blocked(old(scheduler)@, pipe_id, context),
        r == target(final(scheduler)@, final(scheduler)@.current),
{
    let context = UserContext { return_value: SYSCALL_WOULD_BLOCK, ..context };
    let previous: usize = scheduler.current;
    let task = scheduler.tasks[previous];
    assert(scheduler::task_ok(scheduler@.tasks[previous as int], scheduler@));
    let parked = park_registers(task, context, TaskState::PipeWaiting { pipe_id });
    scheduler.tasks[previous] = parked;
    match next_alive(scheduler, previous) {
        None => {
            scheduler.tasks[previous] = Task { state: TaskState::Runnable, ..parked };
            assert(scheduler@.tasks =~= old(scheduler)@.tasks.update(
                previous as int,
                Task { state: TaskState::Runnable, ..parked },
            ));
            target_of(scheduler, previous)
        },
        Some(next) => {
            scheduler.current = next;
            scheduler.slice_ticks = 0;
            target_of(scheduler, next)
        },
    }
}

/// The running task waits at a futex.
pub open spec fn futex_waiting(s: SchedulerView, uaddr: u64, bitset: u32, c: UserContext) -> SchedulerView {
    let c1 = UserContext { return_value: 0, ..c };
    let s1 = s.with_current(registers_parked(s.task(), c1, TaskState::FutexWait { uaddr, bitset }));
    run(s1, next_or_same(s1))
}

pub fn futex_wait_current(scheduler: &mut Scheduler, uaddr: u64, bitset: u32, context: UserContext) -> (r:
    Target)
    requires
        old(scheduler)@.wf(),
        old(scheduler)@.task().process is Some,
    ensures
        final(scheduler)@.wf(),
        final(scheduler)@ == futex_waiting(old(scheduler)@, uaddr, bitset, context),
        r == target(final(scheduler)@, final(scheduler)@.current),
{
    let context = UserContext { return_value: 0, ..context };
    let previous: usize = scheduler.current;
    let task = scheduler.tasks[previous];
    assert(scheduler::task_ok(scheduler@.tasks[previous as int], scheduler@));
    scheduler.tasks[previous] = park_registers(
        task,
        context,
        TaskState::FutexWait { uaddr, bitset },
    );
    let next: usize = match next_alive(scheduler, previous) {
        Some(i) => i,
        None => previous,
    };
    scheduler.current = next;
    scheduler.slice_ticks = 0;
    target_of(scheduler, next)
}

/// The running task waits for a child.
pub open spec fn child_waiting(s: SchedulerView, pid: u64, status_ptr: u64, c: UserContext) -> SchedulerView {
    let s1 = s.with_current(
        registers_parked(s.task(), c, TaskState::Waiting { child_pid: pid, status_ptr }),
    );
    run(s1, next_or_same(s1))
}

pub fn wait_current(scheduler: &mut Scheduler, pid: u64, status_ptr: u64, context: UserContext) -> (r:
    Target)
    requires
        old(scheduler)@.wf(),
        ({
            let s = old(scheduler)@;
            let waiting = registers_parked(
                s.task(),
                context,
                TaskState::Waiting { child_pid: pid, status_ptr },
            );
            next_runnable(s.tasks.update(s.current, waiting), s.current) is Some
        }),
        old(scheduler)@.task().process is Some,
    ensures
        final(scheduler)@.wf(),
        final(scheduler)@ == child_waiting(old(scheduler)@, pid, status_ptr, context),
        r == target(final(scheduler)@, final(scheduler)@.current),
{
    let previous: usize = scheduler.current;
    let task = scheduler.tasks[previous];
    assert(scheduler::task_ok(scheduler@.tasks[previous as int], scheduler@));
    scheduler.tasks[previous] = park_registers(
        task,
        context,
        TaskState::Waiting { child_pid: pid, status_ptr },
    );
    let next: usize = match next_alive(scheduler, previous) {
        Some(i) => i,
        None => previous,
    };
    scheduler.current = next;
    scheduler.slice_ticks = 0;
    target_of(scheduler, next)
}

// ---------------------------------------------------------------------------
// Waking
// ---------------------------------------------------------------------------
/// Every task that waits at a pipe can run again.
pub open spec fn pipe_woken(tasks: Seq<Task>, pipe_id: u64) -> Seq<Task> {
    Seq::new(
        tasks.len(),
        |i: int|
            if tasks[i].state == (TaskState::PipeWaiting { pipe_id }) {
                Task { state: TaskState::Runnable, ..tasks[i] }
            } else {
                tasks[i]
            },
    )
}

pub(crate) fn wake_pipe_waiters(scheduler: &mut Scheduler, pipe_id: u64)
    requires
        old(scheduler)@.wf(),
    ensures
        final(scheduler)@.wf(),
        final(scheduler)@ == (SchedulerView {
            tasks: pipe_woken(old(scheduler)@.tasks, pipe_id),
            ..old(scheduler)@
        }),
{
    let mut i: usize = 0;
    while i < scheduler.tasks.len()
        invariant
            i <= scheduler.tasks.len(),
            scheduler.tasks.len() == old(scheduler).tasks.len(),
            scheduler@ == (SchedulerView { tasks: scheduler@.tasks, ..old(scheduler)@ }),
            forall|j: int|
                0 <= j < i ==> scheduler@.tasks[j] == pipe_woken(old(scheduler)@.tasks, pipe_id)[j],
            forall|j: int|
                i <= j < scheduler.tasks.len() ==> scheduler@.tasks[j] == old(scheduler)@.tasks[j],
        decreases scheduler.tasks.len() - i,
    {
        let task = scheduler.tasks[i];
        if task.state == (TaskState::PipeWaiting { pipe_id }) {
            scheduler.tasks[i] = Task { state: TaskState::Runnable, ..task };
        }
        i += 1;
    }
    assert(scheduler@.tasks =~= pipe_woken(old(scheduler)@.tasks, pipe_id));
    proof {
        let s = old(scheduler)@;
        assert forall|j: int| 0 <= j < scheduler@.tasks.len() implies scheduler::task_ok(
            #[trigger] scheduler@.tasks[j],
            scheduler@,
        ) by {
            assert(scheduler::task_ok(s.tasks[j], s));
        }
    }
}

/// The tasks from the `i`-th on that wait at a futex can run again, `left` of
/// them at most; how many they were.
pub open spec fn futex_woken(tasks: Seq<Task>, uaddr: u64, left: int, bitset: u32, i: int) -> (
    Seq<Task>,
    int,
)
    decreases tasks.len() - i,
{
    if i < 0 || i >= tasks.len() || left <= 0 {
        (tasks, 0)
    } else {
        match tasks[i].state {
            TaskState::FutexWait { uaddr: at, bitset: mask } => if at == uaddr && mask & bitset
                != 0 {
                let (t, n) = futex_woken(
                    tasks.update(i, Task { state: TaskState::Runnable, ..tasks[i] }),
                    uaddr,
                    left - 1,
                    bitset,
                    i + 1,
                );
                (t, n + 1)
            } else {
                futex_woken(tasks, uaddr, left, bitset, i + 1)
            },
            _ => futex_woken(tasks, uaddr, left, bitset, i + 1),
        }
    }
}

pub(crate) fn futex_wake_unlocked(scheduler: &mut Scheduler, uaddr: u64, count: u32, bitset: u32) -> (r:
    u64)
    requires
        old(scheduler)@.wf(),
    ensures
        final(scheduler)@.wf(),
        ({
            let (tasks, n) = futex_woken(old(scheduler)@.tasks, uaddr, count as int, bitset, 0);
            final(scheduler)@ == (SchedulerView { tasks, ..old(scheduler)@ }) && r == n
        }),
        final(scheduler).tasks.len() == old(scheduler).tasks.len(),
        forall|j: int|
            #![auto]
            0 <= j < final(scheduler).tasks.len() ==> final(scheduler)@.tasks[j].process == old(
                scheduler,
            )@.tasks[j].process,
{
    let ghost goal = futex_woken(scheduler@.tasks, uaddr, count as int, bitset, 0);
    let mut woken: u64 = 0;
    let mut i: usize = 0;
    while i < scheduler.tasks.len() && woken < count as u64
        invariant
            i <= scheduler.tasks.len(),
            woken <= count,
            scheduler.tasks.len() == old(scheduler).tasks.len(),
            scheduler@ == (SchedulerView { tasks: scheduler@.tasks, ..old(scheduler)@ }),
            scheduler@.wf(),
            ({
                let (t, n) = futex_woken(scheduler@.tasks, uaddr, count - woken, bitset, i as int);
                goal == (t, n + woken)
            }),
            forall|j: int|
                #![auto]
                0 <= j < scheduler.tasks.len() ==> scheduler@.tasks[j].process == old(
                    scheduler,
                )@.tasks[j].process,
        decreases scheduler.tasks.len() - i,
    {
        let task = scheduler.tasks[i];
        assert(scheduler::task_ok(scheduler@.tasks[i as int], scheduler@));
        if let TaskState::FutexWait { uaddr: at, bitset: mask } = task.state {
            if at == uaddr && mask & bitset != 0 {
                scheduler.tasks[i] = Task { state: TaskState::Runnable, ..task };
                woken += 1;
            }
        }
        i += 1;
    }
    woken
}

/// Wakes tasks that wait at a futex; returns how many.
pub fn futex_wake(scheduler: &mut Option<Scheduler>, uaddr: u64, count: u32, bitset: u32) -> (r: u64)
    requires
        scheduler::ready(*old(scheduler)),
    ensures
        scheduler::ready(*final(scheduler)),
        match scheduler::seen(*old(scheduler)) {
            Some(s) => {
                let (tasks, n) = futex_woken(s.tasks, uaddr, count as int, bitset, 0);
                scheduler::seen(*final(scheduler)) == Some(SchedulerView { tasks, ..s }) && r == n
            },
            None => r == 0 && *final(scheduler) is None,
        },
{
    match scheduler {
        None => 0,
        Some(s) => futex_wake_unlocked(s, uaddr, count, bitset),
    }
}

/// No more tasks are woken at a futex than was asked for.
pub proof fn law_futex_wakes_at_most(tasks: Seq<Task>, uaddr: u64, left: int, bitset: u32, i: int)
    requires
        0 <= left,
        0 <= i,
    ensures
        0 <= futex_woken(tasks, uaddr, left, bitset, i).1 <= left,
    decreases tasks.len() - i,
{
    if i < tasks.len() && left > 0 {
        law_futex_wakes_at_most(tasks, uaddr, left, bitset, i + 1);
        law_futex_wakes_at_most(
            tasks.update(i, Task { state: TaskState::Runnable, ..tasks[i] }),
            uaddr,
            left - 1,
            bitset,
            i + 1,
        );
    }
}

} // verus!
