//! Signals: what they do, who gets them, and who has them blocked.
use vstd::prelude::*;

use crate::paging::{Machine, MachineView};
use crate::scheduler::{
    self, current_pid, make_no_action, LinuxSigAction, Scheduler, SchedulerView, Shared, Task,
    TaskState,
};
use crate::scheduler::lifecycle::{self, end_group, end_thread, tell_parent, wake_after};

verus! {

/// The signals that cannot be blocked: kill and stop.
pub const UNBLOCKABLE_SIGNALS_MASK: u64 = 0x4_0100;

#[derive(Clone, Copy, Debug, PartialEq, Eq, Structural)]
pub enum SignalDefaultAction {
    Terminate,
    CoreDump,
    Ignore,
    Stop,
    Continue,
}

/// What a signal does to a program that has not set an action.
pub open spec fn default_of(signo: u64) -> SignalDefaultAction {
    if signo == 17 || signo == 23 || signo == 28 {
        SignalDefaultAction::Ignore
    } else if 19 <= signo <= 22 {
        SignalDefaultAction::Stop
    } else if signo == 18 {
        SignalDefaultAction::Continue
    } else if 3 <= signo <= 8 || signo == 11 || signo == 31 {
        SignalDefaultAction::CoreDump
    } else {
        SignalDefaultAction::Terminate
    }
}

pub fn default_signal_action(signo: u64) -> (r: SignalDefaultAction)
    ensures
        r == default_of(signo),
{
    match signo {
        17 | 23 | 28 => SignalDefaultAction::Ignore,
        19 | 20 | 21 | 22 => SignalDefaultAction::Stop,
        18 => SignalDefaultAction::Continue,
        3 | 4 | 5 | 6 | 7 | 8 | 11 | 31 => SignalDefaultAction::CoreDump,
        _ => SignalDefaultAction::Terminate,
    }
}

/// Whether a signal without an action ends a program.
pub open spec fn deadly(signo: u64) -> bool {
    default_of(signo) == SignalDefaultAction::Terminate || default_of(signo)
        == SignalDefaultAction::CoreDump
}

// ---------------------------------------------------------------------------
// The running task
// ---------------------------------------------------------------------------
pub fn current_blocked_mask(scheduler: &Option<Scheduler>) -> (r: u64)
    requires
        scheduler::ready(*scheduler),
    ensures
        r == (match scheduler::seen(*scheduler) {
            Some(s) => s.task().blocked_mask,
            None => 0,
        }),
{
    match scheduler {
        Some(s) => s.tasks[s.current].blocked_mask,
        None => 0,
    }
}

pub fn current_pending_signals(scheduler: &Option<Scheduler>) -> (r: u64)
    requires
        scheduler::ready(*scheduler),
    ensures
        r == (match scheduler::seen(*scheduler) {
            Some(s) => s.task().pending_signals,
            None => 0,
        }),
{
    match scheduler {
        Some(s) => s.tasks[s.current].pending_signals,
        None => 0,
    }
}

/// What may be blocked of a set of signals.
pub open spec fn blockable(mask: u64) -> u64 {
    mask & !UNBLOCKABLE_SIGNALS_MASK
}

pub fn set_current_blocked_mask(scheduler: &mut Option<Scheduler>, mask: u64)
    requires
        scheduler::ready(*old(scheduler)),
    ensures
        scheduler::ready(*final(scheduler)),
        scheduler::seen(*final(scheduler)) == (match scheduler::seen(*old(scheduler)) {
            Some(s) => Some(s.with_current(Task { blocked_mask: blockable(mask), ..s.task() })),
            None => None,
        }),
{
    if let Some(s) = scheduler {
        let current: usize = s.current;
        let task = s.tasks[current];
        assert(scheduler::task_ok(s@.tasks[s@.current], s@));
        s.tasks[current] = Task { blocked_mask: mask & !UNBLOCKABLE_SIGNALS_MASK, ..task };
    }
}

/// Kill and stop are never blocked.
pub proof fn law_never_blocked(mask: u64)
    ensures
        blockable(mask) & UNBLOCKABLE_SIGNALS_MASK == 0,
        blockable(blockable(mask)) == blockable(mask),
{
    assert((mask & !0x4_0100u64) & 0x4_0100u64 == 0) by (bit_vector);
    assert((mask & !0x4_0100u64) & !0x4_0100u64 == mask & !0x4_0100u64) by (bit_vector);
}

/// The actions of the running task.
pub open spec fn actions_of(s: SchedulerView) -> Seq<LinuxSigAction> {
    s.actions[s.task().signal_actions as int]
}

pub open spec fn with_action(s: SchedulerView, signal: u64, action: LinuxSigAction) -> SchedulerView {
    SchedulerView {
        actions: s.actions.update(
            s.task().signal_actions as int,
            actions_of(s).update(signal as int, action),
        ),
        ..s
    }
}

pub fn signal_action(scheduler: &Option<Scheduler>, signal: u64) -> (r: Option<LinuxSigAction>)
    requires
        scheduler::ready(*scheduler),
    ensures
        r == (match scheduler::seen(*scheduler) {
            Some(s) => if signal == 0 || signal > 64 {
                None
            } else {
                Some(actions_of(s)[signal as int])
            },
            None => None,
        }),
{
    match scheduler {
        None => None,
        Some(s) => {
            if signal == 0 || signal > 64 {
                return None;
            }
            let task = s.tasks[s.current];
            assert(scheduler::task_ok(s@.tasks[s@.current], s@));
            assert(s@.actions[task.signal_actions as int].len() == 65);
            Some(s.actions.get(task.signal_actions)[signal as usize])
        },
    }
}

fn put_action(s: &mut Scheduler, signal: u64, action: LinuxSigAction) -> (r: LinuxSigAction)
    requires
        old(s)@.wf(),
        signal <= 64,
    ensures
        final(s)@.wf(),
        r == actions_of(old(s)@)[signal as int],
        final(s)@ == with_action(old(s)@, signal, action),
{
    let ghost before = s@;
    let task = s.tasks[s.current];
    assert(scheduler::task_ok(s@.tasks[s@.current], s@));
    assert(s@.actions[task.signal_actions as int].len() == 65);
    let table = s.actions.at_mut(task.signal_actions);
    let previous = table[signal as usize];
    table[signal as usize] = action;
    proof {
        assert forall|i: int| 0 <= i < s@.tasks.len() implies scheduler::task_ok(#[trigger] s@.tasks[i], s@) by {
            assert(scheduler::task_ok(before.tasks[i], before));
        }
        assert forall|i: int| 0 <= i < s@.actions.len() implies (#[trigger] s@.actions[i]).len()
            == 65 by {
            assert(before.actions[i].len() == 65);
        }
    }
    previous
}

/// Sets the action of a signal; returns what it was. Kill and stop have none.
pub fn set_signal_action(scheduler: &mut Option<Scheduler>, signal: u64, action: LinuxSigAction) -> (r:
    Result<LinuxSigAction, ()>)
    requires
        scheduler::ready(*old(scheduler)),
    ensures
        scheduler::ready(*final(scheduler)),
        match scheduler::seen(*old(scheduler)) {
            None => r is Err && *final(scheduler) is None,
            Some(s) => if signal == 0 || signal > 64 || signal == 9 || signal == 19 {
                r is Err && scheduler::seen(*final(scheduler)) == Some(s)
            } else {
                r == Ok::<LinuxSigAction, ()>(actions_of(s)[signal as int]) && scheduler::seen(
                    *final(scheduler),
                ) == Some(with_action(s, signal, action))
            },
        },
{
    match scheduler {
        None => Err(()),
        Some(s) => {
            if signal == 0 || signal > 64 {
                return Err(());
            }
            if signal == 9 || signal == 19 {
                return Err(());
            }
            Ok(put_action(s, signal, action))
        },
    }
}

pub fn reset_signal_action(scheduler: &mut Option<Scheduler>, signal: u64)
    requires
        scheduler::ready(*old(scheduler)),
    ensures
        scheduler::ready(*final(scheduler)),
        scheduler::seen(*final(scheduler)) == (match scheduler::seen(*old(scheduler)) {
            None => None,
            Some(s) => if signal == 0 || signal > 64 {
                Some(s)
            } else {
                Some(with_action(s, signal, scheduler::no_action()))
            },
        }),
{
    if let Some(s) = scheduler {
        if signal >= 1 && signal <= 64 {
            let _ = put_action(s, signal, make_no_action());
        }
    }
}

// ---------------------------------------------------------------------------
// Delivery
// ---------------------------------------------------------------------------
/// The lowest bit that is set, from the `i`-th on; 64 if none is.
pub open spec fn lowest_bit(x: u64, i: u64) -> u64
    decreases 64 - i,
{
    if i >= 64 {
        64
    } else if (x >> i) & 1 == 1 {
        i
    } else {
        lowest_bit(x, (i + 1) as u64)
    }
}

fn find_lowest_bit(x: u64) -> (r: u64)
    ensures
        r == lowest_bit(x, 0),
        r <= 64,
{
    let mut i: u64 = 0;
    while i < 64
        invariant
            i <= 64,
            lowest_bit(x, 0) == lowest_bit(x, i),
        decreases 64 - i,
    {
        if (x >> i) & 1 == 1 {
            return i;
        }
        i += 1;
    }
    64
}

/// The signal that the running task gets next: the lowest that is pending and
/// not blocked. It is pending no longer.
pub open spec fn signal_taken(s: SchedulerView) -> (SchedulerView, Option<(u64, LinuxSigAction)>) {
    let t = s.task();
    let bit = lowest_bit(t.pending_signals & !t.blocked_mask, 0);
    if t.process is None || bit >= 64 {
        (s, None)
    } else {
        (
            s.with_current(Task { pending_signals: t.pending_signals & !(1u64 << bit), ..t }),
            Some(((bit + 1) as u64, actions_of(s)[bit + 1])),
        )
    }
}

pub fn check_pending_signal_to_deliver(scheduler: &mut Option<Scheduler>) -> (r: Option<
    (u64, LinuxSigAction),
>)
    requires
        scheduler::ready(*old(scheduler)),
    ensures
        scheduler::ready(*final(scheduler)),
        match scheduler::seen(*old(scheduler)) {
            None => r is None && *final(scheduler) is None,
            Some(s) => (scheduler::seen(*final(scheduler)), r) == (Some(signal_taken(s).0), signal_taken(s).1),
        },
{
    match scheduler {
        None => None,
        Some(s) => {
            let current: usize = s.current;
            let task = s.tasks[current];
            assert(scheduler::task_ok(s@.tasks[s@.current], s@));
            if task.process.is_none() {
                return None;
            }
            let bit: u64 = find_lowest_bit(task.pending_signals & !task.blocked_mask);
            if bit >= 64 {
                return None;
            }
            assert(s@.actions[task.signal_actions as int].len() == 65);
            let action = s.actions.get(task.signal_actions)[(bit + 1) as usize];
            s.tasks[current] = Task {
                pending_signals: task.pending_signals & !(1u64 << bit),
                ..task
            };
            Some((bit + 1, action))
        },
    }
}

// ---------------------------------------------------------------------------
// Sending
// ---------------------------------------------------------------------------
/// The first task of a process that has not ended, from the `i`-th on.
pub open spec fn first_alive(tasks: Seq<Task>, tgid: u64, i: int) -> Option<int>
    decreases tasks.len() - i,
{
    if i < 0 || i >= tasks.len() {
        None
    } else if tasks[i].tgid == tgid && tasks[i].process is Some {
        Some(i)
    } else {
        first_alive(tasks, tgid, i + 1)
    }
}

/// The thread of a number that has not ended, from the `i`-th task on.
pub open spec fn thread_alive(tasks: Seq<Task>, tid: u64, i: int) -> Option<int>
    decreases tasks.len() - i,
{
    if i < 0 || i >= tasks.len() {
        None
    } else if tasks[i].tid == tid && tasks[i].process is Some {
        Some(i)
    } else {
        thread_alive(tasks, tid, i + 1)
    }
}

fn find_alive(scheduler: &Scheduler, tgid: u64) -> (r: Option<usize>)
    ensures
        match r {
            Some(i) => first_alive(scheduler@.tasks, tgid, 0) == Some(i as int) && i
                < scheduler.tasks.len(),
            None => first_alive(scheduler@.tasks, tgid, 0) is None,
        },
{
    let mut i: usize = 0;
    while i < scheduler.tasks.len()
        invariant
            i <= scheduler.tasks.len(),
            first_alive(scheduler@.tasks, tgid, 0) == first_alive(
                scheduler@.tasks,
                tgid,
                i as int,
            ),
        decreases scheduler.tasks.len() - i,
    {
        if scheduler.tasks[i].tgid == tgid && scheduler.tasks[i].process.is_some() {
            return Some(i);
        }
        i += 1;
    }
    None
}

fn find_thread(scheduler: &Scheduler, tid: u64) -> (r: Option<usize>)
    ensures
        match r {
            Some(i) => thread_alive(scheduler@.tasks, tid, 0) == Some(i as int) && i
                < scheduler.tasks.len(),
            None => thread_alive(scheduler@.tasks, tid, 0) is None,
        },
{
    let mut i: usize = 0;
    while i < scheduler.tasks.len()
        invariant
            i <= scheduler.tasks.len(),
            thread_alive(scheduler@.tasks, tid, 0) == thread_alive(
                scheduler@.tasks,
                tid,
                i as int,
            ),
        decreases scheduler.tasks.len() - i,
    {
        if scheduler.tasks[i].tid == tid && scheduler.tasks[i].process.is_some() {
            return Some(i);
        }
        i += 1;
    }
    None
}

/// A signal that a task is to get; it does not go on waiting for a pipe or a
/// futex.
pub open spec fn signalled(t: Task, signal: u64) -> Task {
    Task {
        pending_signals: t.pending_signals | (1u64 << ((signal - 1) as u64)),
        state: match t.state {
            TaskState::PipeWaiting { .. } => TaskState::Runnable,
            TaskState::FutexWait { .. } => TaskState::Runnable,
            other => other,
        },
        ..t
    }
}

fn signal_task(scheduler: &mut Scheduler, i: usize, signal: u64)
    requires
        old(scheduler)@.wf(),
        i < old(scheduler).tasks.len(),
        1 <= signal <= 64,
    ensures
        final(scheduler)@.wf(),
        final(scheduler)@ == old(scheduler)@.with_task(
            i as int,
            signalled(old(scheduler)@.tasks[i as int], signal),
        ),
{
    let task = scheduler.tasks[i];
    assert(scheduler::task_ok(scheduler@.tasks[i as int], scheduler@));
    let state = match task.state {
        TaskState::PipeWaiting { .. } => TaskState::Runnable,
        TaskState::FutexWait { .. } => TaskState::Runnable,
        other => other,
    };
    scheduler.tasks[i] = Task {
        pending_signals: task.pending_signals | (1u64 << (signal - 1)),
        state,
        ..task
    };
}

/// What happens to a process that a signal ends: all its threads end, and its
/// parent learns of it.
pub open spec fn process_killed(
    m: MachineView,
    s: SchedulerView,
    shared: Shared,
    tgid: u64,
    first: int,
    signal: u64,
) -> (MachineView, SchedulerView, Shared) {
    let code = (128 + signal) as u64;
    let (m1, s1, words) = lifecycle::others_ended(m, s, tgid, None, code, 0);
    let s2 = lifecycle::all_woken(s1, words);
    let shared1 = if shared.foreground_pid == tgid {
        Shared { foreground_pid: 0, ..shared }
    } else {
        shared
    };
    let (m3, s3) = match s.tasks[first].parent_pid {
        None => (m1, s2),
        Some(parent) => lifecycle::parent_told(m1, s2, parent, tgid, code, (signal % 128) as u32),
    };
    (m3, s3, shared1)
}

/// A signal sent to a process. `None` stands for the case that there is no
/// such process or signal.
pub open spec fn process_signalled(
    m: MachineView,
    s: SchedulerView,
    shared: Shared,
    pid: u64,
    signal: u64,
) -> Option<(MachineView, SchedulerView, Shared)> {
    let tgid = if pid == 0 {
        s.task().tgid
    } else {
        pid
    };
    if signal > 64 {
        None
    } else {
        match first_alive(s.tasks, tgid, 0) {
            None => None,
            Some(i) => {
                let handler = s.actions[s.tasks[i].signal_actions as int][signal as int].sa_handler;
                if signal == 0 {
                    Some((m, s, shared))
                } else if signal == 9 || (handler == 0 && deadly(signal)) {
                    Some(process_killed(m, s, shared, tgid, i, signal))
                } else if handler == 1 || (handler == 0 && default_of(signal)
                    == SignalDefaultAction::Ignore) {
                    Some((m, s, shared))
                } else {
                    Some((m, s.with_task(i, signalled(s.tasks[i], signal)), shared))
                }
            },
        }
    }
}

fn kill_group(
    machine: &mut Machine,
    s: &mut Scheduler,
    shared: &mut Shared,
    pid: u64,
    signal: u64,
) -> (r: Result<(), ()>)
    requires
        old(machine).wf(),
        old(s)@.wf(),
    ensures
        final(machine).wf(),
        final(machine).same_place(old(machine)),
        final(s)@.wf(),
        match process_signalled(old(machine)@, old(s)@, *old(shared), pid, signal) {
            None => r is Err && final(machine)@ == old(machine)@ && final(s)@ == old(s)@
                && *final(shared) == *old(shared),
            Some(after) => r is Ok && (final(machine)@, final(s)@, *final(shared)) == after,
        },
{
    if signal > 64 {
        return Err(());
    }
    let tgid: u64 = if pid == 0 {
        s.tasks[s.current].tgid
    } else {
        pid
    };
    let first: usize = match find_alive(s, tgid) {
        None => {
            return Err(());
        },
        Some(i) => i,
    };
    if signal == 0 {
        return Ok(());
    }
    let task = s.tasks[first];
    assert(scheduler::task_ok(s@.tasks[first as int], s@));
    assert(s@.actions[task.signal_actions as int].len() == 65);
    let action = s.actions.get(task.signal_actions)[signal as usize];
    let default = default_signal_action(signal);
    if signal == 9 || (action.sa_handler == 0 && (default == SignalDefaultAction::Terminate
        || default == SignalDefaultAction::CoreDump)) {
        end_group(machine, s, tgid, None, 128 + signal);
        if shared.foreground_pid == tgid {
            shared.foreground_pid = 0;
        }
        if let Some(parent) = task.parent_pid {
            tell_parent(machine, s, parent, tgid, 128 + signal, (signal % 128) as u32);
        }
        return Ok(());
    }
    if action.sa_handler == 1 || (action.sa_handler == 0 && default
        == SignalDefaultAction::Ignore) {
        return Ok(());
    }
    signal_task(s, first, signal);
    Ok(())
}

/// Sends a signal to a process; zero stands for that of the running task.
pub fn kill_process(
    machine: &mut Machine,
    scheduler: &mut Option<Scheduler>,
    shared: &mut Shared,
    pid: u64,
    signal: u64,
) -> (r: Result<(), ()>)
    requires
        old(machine).wf(),
        scheduler::ready(*old(scheduler)),
    ensures
        final(machine).wf(),
        final(machine).same_place(old(machine)),
        scheduler::ready(*final(scheduler)),
        match scheduler::seen(*old(scheduler)) {
            None => r is Err && *final(scheduler) is None && final(machine)@ == old(machine)@
                && *final(shared) == *old(shared),
            Some(s) => match process_signalled(old(machine)@, s, *old(shared), pid, signal) {
                None => r is Err && final(machine)@ == old(machine)@ && scheduler::seen(*final(scheduler))
                    == Some(s) && *final(shared) == *old(shared),
                Some((m, s1, sh)) => r is Ok && final(machine)@ == m && scheduler::seen(*final(scheduler))
                    == Some(s1) && *final(shared) == sh,
            },
        },
{
    match scheduler {
        None => Err(()),
        Some(s) => kill_group(machine, s, shared, pid, signal),
    }
}

/// A signal sent to a thread.
pub open spec fn thread_signalled(m: MachineView, s: SchedulerView, tid: u64, signal: u64) -> Option<
    (MachineView, SchedulerView),
> {
    if signal > 64 {
        None
    } else {
        match thread_alive(s.tasks, tid, 0) {
            None => None,
            Some(i) => {
                let handler = s.actions[s.tasks[i].signal_actions as int][signal as int].sa_handler;
                if signal == 0 {
                    Some((m, s))
                } else if signal == 9 || (handler == 0 && deadly(signal)) {
                    let (m1, s1, address) = lifecycle::thread_ended(m, s, i, (128 + signal) as u64);
                    Some((m1, lifecycle::tid_woken(s1, address)))
                } else if handler == 1 || (handler == 0 && default_of(signal)
                    == SignalDefaultAction::Ignore) {
                    Some((m, s))
                } else {
                    Some((m, s.with_task(i, signalled(s.tasks[i], signal))))
                }
            },
        }
    }
}

/// Sends a signal to a thread.
pub fn kill_thread(machine: &mut Machine, scheduler: &mut Option<Scheduler>, tid: u64, signal: u64) -> (r:
    Result<(), ()>)
    requires
        old(machine).wf(),
        scheduler::ready(*old(scheduler)),
    ensures
        final(machine).wf(),
        final(machine).same_place(old(machine)),
        scheduler::ready(*final(scheduler)),
        match scheduler::seen(*old(scheduler)) {
            None => r is Err && *final(scheduler) is None && final(machine)@ == old(machine)@,
            Some(s) => match thread_signalled(old(machine)@, s, tid, signal) {
                None => r is Err && final(machine)@ == old(machine)@ && scheduler::seen(*final(scheduler))
                    == Some(s),
                Some((m, s1)) => r is Ok && final(machine)@ == m && scheduler::seen(*final(scheduler))
                    == Some(s1),
            },
        },
{
    if signal > 64 {
        return Err(());
    }
    match scheduler {
        None => Err(()),
        Some(s) => {
            let i: usize = match find_thread(s, tid) {
                None => {
                    return Err(());
                },
                Some(i) => i,
            };
            if signal == 0 {
                return Ok(());
            }
            let task = s.tasks[i];
            assert(scheduler::task_ok(s@.tasks[i as int], s@));
            assert(s@.actions[task.signal_actions as int].len() == 65);
            let action = s.actions.get(task.signal_actions)[signal as usize];
            let default = default_signal_action(signal);
            if signal == 9 || (action.sa_handler == 0 && (default == SignalDefaultAction::Terminate
                || default == SignalDefaultAction::CoreDump)) {
                let address = end_thread(machine, s, i, 128 + signal);
                wake_after(s, address);
                return Ok(());
            }
            if action.sa_handler == 1 || (action.sa_handler == 0 && default
                == SignalDefaultAction::Ignore) {
                return Ok(());
            }
            signal_task(s, i, signal);
            Ok(())
        },
    }
}

/// Sends a signal to the process in the foreground of the terminal; to that of
/// the running task if there is none. Returns which that was.
pub fn interrupt_current(
    machine: &mut Machine,
    scheduler: &mut Option<Scheduler>,
    shared: &mut Shared,
    signal: u64,
) -> (r: Option<u64>)
    requires
        old(machine).wf(),
        scheduler::ready(*old(scheduler)),
    ensures
        final(machine).wf(),
        final(machine).same_place(old(machine)),
        scheduler::ready(*final(scheduler)),
        r is Some <==> 1 <= signal <= 64,
        match r {
            None => *final(scheduler) == *old(scheduler) && *final(shared) == *old(shared)
                && *final(machine) == *old(machine),
            Some(pid) => {
                &&& pid == (if old(shared).foreground_pid != 0 {
                    old(shared).foreground_pid
                } else {
                    match scheduler::seen(*old(scheduler)) {
                        Some(s) => s.task().tgid,
                        None => 0,
                    }
                })
                &&& match scheduler::seen(*old(scheduler)) {
                    None => *final(scheduler) is None && final(machine)@ == old(machine)@
                        && *final(shared) == *old(shared),
                    Some(s) => match process_signalled(
                        old(machine)@,
                        s,
                        *old(shared),
                        pid,
                        signal,
                    ) {
                        None => final(machine)@ == old(machine)@ && scheduler::seen(*final(scheduler)) == Some(
                            s,
                        ) && *final(shared) == *old(shared),
                        Some((m, s1, sh)) => final(machine)@ == m && scheduler::seen(*final(scheduler))
                            == Some(s1) && *final(shared) == sh,
                    },
                }
            },
        },
{
    if signal == 0 || signal > 64 {
        return None;
    }
    let pid: u64 = if shared.foreground_pid == 0 {
        current_pid(scheduler)
    } else {
        shared.foreground_pid
    };
    let _ = kill_process(machine, scheduler, shared, pid, signal);
    Some(pid)
}

} // verus!
