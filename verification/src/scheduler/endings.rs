//! What holds of tasks that end, wait and are woken.
use vstd::prelude::*;

use crate::bytes;
use crate::paging::MachineView;
use crate::process::{self, ProcessPersonality};
use crate::scheduler::{InterruptContext, SchedulerView, Shared, Task, TaskState};
use crate::scheduler::laws;
use crate::scheduler::lifecycle;
use crate::scheduler::signals;
use crate::scheduler::switch;
use crate::syscall::{SYSCALL_WOULD_BLOCK, UserContext};

verus! {

// ---------------------------------------------------------------------------
// Waiting and waking
// ---------------------------------------------------------------------------
/// Whether a task waits at a futex for one of a set of events.
pub open spec fn waits_at(t: Task, uaddr: u64, bitset: u32) -> bool {
    match t.state {
        TaskState::FutexWait { uaddr: at, bitset: mask } => at == uaddr && mask & bitset != 0,
        _ => false,
    }
}

/// How many of the tasks before the `n`-th were changed.
pub open spec fn changed(before: Seq<Task>, after: Seq<Task>, n: int) -> int
    decreases n,
{
    if n <= 0 {
        0
    } else if before[n - 1] == after[n - 1] {
        changed(before, after, n - 1)
    } else {
        changed(before, after, n - 1) + 1
    }
}

proof fn lemma_changed_step(before: Seq<Task>, mid: Seq<Task>, after: Seq<Task>, i: int, n: int)
    requires
        0 <= i < before.len(),
        mid.len() == before.len(),
        after.len() == before.len(),
        n <= before.len(),
        mid == before.update(i, mid[i]),
        before[i] != mid[i],
        after[i] == mid[i],
        forall|j: int| 0 <= j < i ==> #[trigger] after[j] == mid[j],
    ensures
        changed(before, after, n) == changed(mid, after, n) + (if n > i {
            1int
        } else {
            0int
        }),
    decreases n,
{
    if n > 0 {
        lemma_changed_step(before, mid, after, i, n - 1);
    }
}

proof fn lemma_unchanged(tasks: Seq<Task>, n: int)
    ensures
        changed(tasks, tasks, n) == 0,
    decreases n,
{
    if n > 0 {
        lemma_unchanged(tasks, n - 1);
    }
}

proof fn lemma_futex_woken(tasks: Seq<Task>, uaddr: u64, left: int, bitset: u32, i: int)
    requires
        0 <= i,
        0 <= left,
    ensures
        ({
            let (after, n) = switch::futex_woken(tasks, uaddr, left, bitset, i);
            &&& after.len() == tasks.len()
            &&& 0 <= n <= left
            &&& forall|j: int|
                0 <= j < tasks.len() ==> {
                    ||| #[trigger] after[j] == tasks[j]
                    ||| j >= i && waits_at(tasks[j], uaddr, bitset) && after[j] == Task {
                        state: TaskState::Runnable,
                        ..tasks[j]
                    }
                }
            &&& n < left ==> forall|j: int|
                i <= j < tasks.len() && waits_at(tasks[j], uaddr, bitset) ==> (
                #[trigger] after[j]).state is Runnable
            &&& n == changed(tasks, after, tasks.len() as int)
        }),
    decreases tasks.len() - i,
{
    lemma_unchanged(tasks, tasks.len() as int);
    if i < tasks.len() && left > 0 {
        if waits_at(tasks[i], uaddr, bitset) {
            let mid = tasks.update(i, Task { state: TaskState::Runnable, ..tasks[i] });
            lemma_futex_woken(mid, uaddr, left - 1, bitset, i + 1);
            let (after, n) = switch::futex_woken(mid, uaddr, left - 1, bitset, i + 1);
            assert(after[i] == mid[i]);
            assert forall|j: int| 0 <= j < i implies #[trigger] after[j] == mid[j] by {}
            lemma_changed_step(tasks, mid, after, i, tasks.len() as int);
            assert forall|j: int| 0 <= j < tasks.len() implies {
                ||| #[trigger] after[j] == tasks[j]
                ||| j >= i && waits_at(tasks[j], uaddr, bitset) && after[j] == Task {
                    state: TaskState::Runnable,
                    ..tasks[j]
                }
            } by {
                if j != i {
                    assert(mid[j] == tasks[j]);
                }
            }
            if n + 1 < left {
                assert forall|j: int|
                    i <= j < tasks.len() && waits_at(tasks[j], uaddr, bitset) implies (
                #[trigger] after[j]).state is Runnable by {
                    if j != i {
                        assert(mid[j] == tasks[j]);
                    }
                }
            }
        } else {
            lemma_futex_woken(tasks, uaddr, left, bitset, i + 1);
        }
    }
}

/// Waking at a futex: only tasks that wait there for one of the events are
/// woken, as many as the call says, which is no more than was asked for; if it
/// is less, none is left waiting. A task that is woken can run; nothing else of
/// it changes.
pub proof fn law_futex_wakes_waiters(tasks: Seq<Task>, uaddr: u64, count: u32, bitset: u32)
    ensures
        ({
            let (after, n) = switch::futex_woken(tasks, uaddr, count as int, bitset, 0);
            &&& after.len() == tasks.len()
            &&& 0 <= n <= count
            &&& n == changed(tasks, after, tasks.len() as int)
            &&& forall|j: int|
                0 <= j < tasks.len() ==> {
                    ||| #[trigger] after[j] == tasks[j]
                    ||| waits_at(tasks[j], uaddr, bitset) && after[j] == Task {
                        state: TaskState::Runnable,
                        ..tasks[j]
                    }
                }
            &&& n < count ==> forall|j: int|
                0 <= j < tasks.len() && waits_at(tasks[j], uaddr, bitset) ==> (
                #[trigger] after[j]).state is Runnable
        }),
{
    lemma_futex_woken(tasks, uaddr, count as int, bitset, 0);
}

/// A task that waits at a futex does not run until it is woken there; it then
/// goes on after the call, which gives zero.
pub proof fn law_futex_wait_then_wake(
    s: SchedulerView,
    uaddr: u64,
    bitset: u32,
    c: UserContext,
    other: int,
)
    requires
        0 <= s.current < s.tasks.len(),
        0 <= other < s.tasks.len(),
        other != s.current,
        s.tasks[other].state is Runnable,
    ensures
        ({
            let after = switch::futex_waiting(s, uaddr, bitset, c);
            let t = after.tasks[s.current];
            &&& after.current != s.current
            &&& after.task().state is Runnable
            &&& waits_at(t, uaddr, bitset) <==> bitset != 0
            &&& t.context == UserContext { return_value: 0, ..c }
            &&& t.interrupt_context.rax == 0
            &&& t.interrupt_context.instruction_pointer == c.instruction_pointer
            &&& t.interrupt_context.stack_pointer == c.stack_pointer
            &&& t.interrupt_context.code_segment % 4 == 3
            &&& forall|j: int| 0 <= j < s.tasks.len() && j != s.current ==> #[trigger] after.tasks[j]
                == s.tasks[j]
        }),
{
    let parked = switch::registers_parked(
        s.task(),
        UserContext { return_value: 0, ..c },
        TaskState::FutexWait { uaddr, bitset },
    );
    assert(bitset & bitset == bitset) by (bit_vector);
    laws::law_next_is_nearest(s.tasks.update(s.current, parked), s.current, other);
}

/// A task that waits at a pipe does not run until it is woken there; it then
/// goes on after the call, which tells it to try again. All that wait at the
/// pipe are woken, and none else.
pub proof fn law_pipe_block_then_wake(s: SchedulerView, id: u64, c: UserContext, other: int)
    requires
        0 <= s.current < s.tasks.len(),
        0 <= other < s.tasks.len(),
        other != s.current,
        s.tasks[other].state is Runnable,
    ensures
        ({
            let after = switch::pipe_blocked(s, id, c);
            let t = after.tasks[s.current];
            let woken = switch::pipe_woken(after.tasks, id);
            &&& after.current != s.current
            &&& after.task().state is Runnable
            &&& !(t.state is Runnable)
            &&& woken[s.current] == Task { state: TaskState::Runnable, ..t }
            &&& t.context == UserContext { return_value: SYSCALL_WOULD_BLOCK, ..c }
            &&& t.interrupt_context.rax == SYSCALL_WOULD_BLOCK
            &&& t.interrupt_context.instruction_pointer == c.instruction_pointer
            &&& t.interrupt_context.stack_pointer == c.stack_pointer
            &&& t.interrupt_context.code_segment % 4 == 3
            &&& woken.len() == s.tasks.len()
            &&& forall|j: int|
                0 <= j < s.tasks.len() && j != s.current ==> #[trigger] woken[j] == (if s.tasks[j].state
                    == (TaskState::PipeWaiting { pipe_id: id }) {
                    Task { state: TaskState::Runnable, ..s.tasks[j] }
                } else {
                    s.tasks[j]
                })
        }),
{
    let parked = switch::registers_parked(
        s.task(),
        UserContext { return_value: SYSCALL_WOULD_BLOCK, ..c },
        TaskState::PipeWaiting { pipe_id: id },
    );
    laws::law_next_is_nearest(s.tasks.update(s.current, parked), s.current, other);
}

/// A task that waits for a child does not run until it is told of one that it
/// waits for. It then goes on after the call, which gives a Linux program the
/// number of the child and a native one its code; nothing else of it changes.
pub proof fn law_wait_then_told(
    s: SchedulerView,
    target: u64,
    status_ptr: u64,
    c: UserContext,
    other: int,
    m: MachineView,
    child: u64,
    code: u64,
    status: u32,
)
    requires
        0 <= s.current < s.tasks.len(),
        0 <= other < s.tasks.len(),
        other != s.current,
        s.tasks[other].state is Runnable,
        s.task().process is Some,
        target == child || target == 0 || target == u64::MAX,
        forall|j: int|
            0 <= j < s.tasks.len() && j != s.current ==> !lifecycle::waits_for(
                #[trigger] s.tasks[j],
                s.task().tgid,
                child,
            ),
    ensures
        ({
            let waiting = switch::child_waiting(s, target, status_ptr, c);
            let told = lifecycle::parent_told(m, waiting, s.task().tgid, child, code, status).1;
            let t = told.tasks[s.current];
            let value = if s.processes[s.task().process->0 as int].personality
                == ProcessPersonality::NativeVanta {
                code
            } else {
                child
            };
            &&& waiting.current != s.current
            &&& !(waiting.tasks[s.current].state is Runnable)
            &&& t.state is Runnable
            &&& t.context == UserContext { return_value: value, ..c }
            &&& t.interrupt_context.rax == value
            &&& t.interrupt_context.instruction_pointer == c.instruction_pointer
            &&& t.interrupt_context.stack_pointer == c.stack_pointer
            &&& t.interrupt_context.code_segment % 4 == 3
            &&& forall|j: int| 0 <= j < s.tasks.len() && j != s.current ==> #[trigger] told.tasks[j]
                == s.tasks[j]
        }),
{
    reveal(lifecycle::parent_told);
    let waiting = switch::child_waiting(s, target, status_ptr, c);
    let parked = switch::registers_parked(
        s.task(),
        c,
        TaskState::Waiting { child_pid: target, status_ptr },
    );
    laws::law_next_is_nearest(s.tasks.update(s.current, parked), s.current, other);
    assert forall|j: int| 0 <= j < s.current implies !lifecycle::waits_for(
        #[trigger] waiting.tasks[j],
        s.task().tgid,
        child,
    ) by {
        assert(waiting.tasks[j] == s.tasks[j]);
    }
    lemma_first_waiting(waiting.tasks, s.task().tgid, child, s.current, 0);
}

proof fn lemma_first_waiting(tasks: Seq<Task>, parent: u64, child: u64, w: int, i: int)
    requires
        0 <= i <= w < tasks.len(),
        lifecycle::waits_for(tasks[w], parent, child),
        forall|j: int|
            i <= j < w ==> !lifecycle::waits_for(#[trigger] tasks[j], parent, child),
    ensures
        lifecycle::first_waiting(tasks, parent, child, i) == Some(w),
    decreases w - i,
{
    if i < w {
        lemma_first_waiting(tasks, parent, child, w, i + 1);
    }
}

proof fn lemma_none_waiting(tasks: Seq<Task>, parent: u64, child: u64, i: int)
    requires
        0 <= i,
    ensures
        lifecycle::first_waiting(tasks, parent, child, i) matches Some(w) ==> i <= w < tasks.len()
            && lifecycle::waits_for(tasks[w], parent, child),
    decreases tasks.len() - i,
{
    if i < tasks.len() {
        lemma_none_waiting(tasks, parent, child, i + 1);
    }
}

/// The status of a child is where the parent asked for it, as four bytes.
pub proof fn law_status_is_stored(
    m: MachineView,
    s: SchedulerView,
    w: int,
    parent: u64,
    child: u64,
    code: u64,
    status: u32,
)
    requires
        0 <= w < s.tasks.len(),
        lifecycle::waits_for(s.tasks[w], parent, child),
        forall|j: int|
            0 <= j < w ==> !lifecycle::waits_for(#[trigger] s.tasks[j], parent, child),
        s.tasks[w].process is Some,
        s.tasks[w].state->status_ptr != 0,
        process::is_memory(
            m,
            s.processes[s.tasks[w].process->0 as int].space,
            s.tasks[w].state->status_ptr as int,
            4,
        ),
    ensures
        process::user_read(
            lifecycle::parent_told(m, s, parent, child, code, status).0,
            s.processes[s.tasks[w].process->0 as int].space,
            s.tasks[w].state->status_ptr as int,
            4,
        ) == Some(
            seq![
                (status % 256) as u8,
                (status / 256 % 256) as u8,
                (status / 65536 % 256) as u8,
                (status / 16777216) as u8,
            ],
        ),
{
    reveal(lifecycle::parent_told);
    lemma_first_waiting(s.tasks, parent, child, w, 0);
    process::law_user_write_then_read(
        m,
        s.processes[s.tasks[w].process->0 as int].space,
        s.tasks[w].state->status_ptr as int,
        bytes::le32_bytes(status),
    );
    assert(bytes::le32_bytes(status) =~= seq![
        (status % 256) as u8,
        (status / 256 % 256) as u8,
        (status / 65536 % 256) as u8,
        (status / 16777216) as u8,
    ]);
}

// ---------------------------------------------------------------------------
// Ending
// ---------------------------------------------------------------------------
/// A task that has ended and has not been asked for.
pub open spec fn gone(t: Task, code: u64) -> Task {
    Task {
        process: None,
        state: TaskState::Zombie { exit_code: code },
        clear_child_tid: 0,
        ..t
    }
}

pub(crate) proof fn lemma_thread_ended(m: MachineView, s: SchedulerView, i: int, code: u64)
    requires
        0 <= i < s.tasks.len(),
    ensures
        ({
            let after = lifecycle::thread_ended(m, s, i, code).1;
            &&& after.tasks == s.tasks.update(i, gone(s.tasks[i], code))
            &&& after.current == s.current
        }),
{
    reveal(lifecycle::tid_cleared);
    reveal(lifecycle::ended);
    reveal(lifecycle::released);
    let after = lifecycle::thread_ended(m, s, i, code).1;
    assert(after.tasks =~= s.tasks.update(i, gone(s.tasks[i], code)));
}

/// Whether a task is a thread of a group that has not ended and is not spared.
pub open spec fn is_hit(t: Task, tgid: u64, spared: Option<u64>) -> bool {
    t.tgid == tgid && t.process is Some && spared != Some(t.tid)
}

proof fn lemma_others_ended(
    m: MachineView,
    s: SchedulerView,
    tgid: u64,
    spared: Option<u64>,
    code: u64,
    i: int,
)
    requires
        0 <= i,
    ensures
        ({
            let after = lifecycle::others_ended(m, s, tgid, spared, code, i).1;
            &&& after.tasks.len() == s.tasks.len()
            &&& after.current == s.current
            &&& forall|j: int|
                0 <= j < s.tasks.len() ==> #[trigger] after.tasks[j] == (if j >= i && is_hit(
                    s.tasks[j],
                    tgid,
                    spared,
                ) {
                    gone(s.tasks[j], code)
                } else {
                    s.tasks[j]
                })
        }),
    decreases s.tasks.len() - i,
{
    if i < s.tasks.len() {
        if is_hit(s.tasks[i], tgid, spared) {
            lemma_thread_ended(m, s, i, code);
            let (m1, s1, _) = lifecycle::thread_ended(m, s, i, code);
            lemma_others_ended(m1, s1, tgid, spared, code, i + 1);
            let after = lifecycle::others_ended(m, s, tgid, spared, code, i).1;
            assert forall|j: int| 0 <= j < s.tasks.len() implies #[trigger] after.tasks[j] == (if j
                >= i && is_hit(s.tasks[j], tgid, spared) {
                gone(s.tasks[j], code)
            } else {
                s.tasks[j]
            }) by {
                if j != i {
                    assert(s1.tasks[j] == s.tasks[j]);
                }
            }
        } else {
            lemma_others_ended(m, s, tgid, spared, code, i + 1);
        }
    }
}

/// Whether a task is as it was, or waited at a futex and can run again.
pub open spec fn same_or_woken(before: Task, after: Task) -> bool {
    after == before || (before.state is FutexWait && after == Task {
        state: TaskState::Runnable,
        ..before
    })
}

pub(crate) proof fn lemma_tid_woken(s: SchedulerView, address: Option<u64>)
    ensures
        ({
            let after = lifecycle::tid_woken(s, address);
            &&& after.tasks.len() == s.tasks.len()
            &&& after == SchedulerView { tasks: after.tasks, ..s }
            &&& forall|j: int|
                0 <= j < s.tasks.len() ==> same_or_woken(s.tasks[j], #[trigger] after.tasks[j])
        }),
{
    reveal(lifecycle::tid_woken);
    if let Some(uaddr) = address {
        lemma_futex_woken(s.tasks, uaddr, 1, crate::linux::FUTEX_BITSET_MATCH_ANY, 0);
    }
}

proof fn lemma_all_woken(s: SchedulerView, words: Seq<u64>)
    ensures
        ({
            let after = lifecycle::all_woken(s, words);
            &&& after.tasks.len() == s.tasks.len()
            &&& after == SchedulerView { tasks: after.tasks, ..s }
            &&& forall|j: int|
                0 <= j < s.tasks.len() ==> same_or_woken(s.tasks[j], #[trigger] after.tasks[j])
        }),
    decreases words.len(),
{
    if words.len() > 0 {
        lemma_tid_woken(s, Some(words[0]));
        let next = lifecycle::tid_woken(s, Some(words[0]));
        lemma_all_woken(next, words.skip(1));
        let after = lifecycle::all_woken(s, words);
        assert forall|j: int| 0 <= j < s.tasks.len() implies same_or_woken(
            s.tasks[j],
            #[trigger] after.tasks[j],
        ) by {
            assert(same_or_woken(s.tasks[j], next.tasks[j]));
        }
    }
}

/// Whether a task waited for a child and was told of it.
pub open spec fn is_told(before: Task, after: Task) -> bool {
    &&& before.state is Waiting
    &&& after.state is Runnable
    &&& after.tid == before.tid
    &&& after.process == before.process
}

proof fn lemma_parent_told(
    m: MachineView,
    s: SchedulerView,
    parent: u64,
    child: u64,
    code: u64,
    status: u32,
)
    ensures
        ({
            let after = lifecycle::parent_told(m, s, parent, child, code, status).1;
            &&& after.tasks.len() == s.tasks.len()
            &&& after == SchedulerView { tasks: after.tasks, ..s }
            &&& forall|j: int|
                0 <= j < s.tasks.len() ==> #[trigger] after.tasks[j] == s.tasks[j] || is_told(
                    s.tasks[j],
                    after.tasks[j],
                )
        }),
{
    reveal(lifecycle::parent_told);
    lemma_none_waiting(s.tasks, parent, child, 0);
}

/// A task that exits has ended with its code: its process is gone from it, the
/// code is kept for its parent, and the processor goes to a task that can run.
/// No other task ends.
pub proof fn law_exit_ends_one(
    m: MachineView,
    s: SchedulerView,
    shared: Shared,
    code: u64,
    other: int,
)
    requires
        0 <= s.current < s.tasks.len(),
        s.task().state is Runnable,
        0 <= other < s.tasks.len(),
        other != s.current,
        s.tasks[other].state is Runnable,
    ensures
        ({
            let (_, after, sh) = lifecycle::exited(m, s, shared, code);
            let t = s.task();
            &&& after.tasks.len() == s.tasks.len()
            &&& after.tasks[s.current] == gone(t, code)
            &&& after.current != s.current
            &&& after.task().state is Runnable
            &&& forall|j: int|
                0 <= j < s.tasks.len() && j != s.current ==> same_or_woken(
                    s.tasks[j],
                    #[trigger] after.tasks[j],
                ) || is_told(s.tasks[j], after.tasks[j])
            &&& sh.foreground_pid == t.tgid || sh.foreground_pid == t.tid ==> sh.foreground_pid == 0
            &&& sh == Shared { foreground_pid: sh.foreground_pid, ..shared }
        }),
{
    lemma_exited(m, s, shared, code);
    let after = lifecycle::exited(m, s, shared, code).1;
    assert(same_or_woken(s.tasks[other], after.tasks[other]));
    assert(after.tasks[other].state is Runnable);
    laws::law_next_is_nearest(after.tasks, s.current, other);
}

/// What exiting does to the tasks.
proof fn lemma_exited(m: MachineView, s: SchedulerView, shared: Shared, code: u64)
    requires
        0 <= s.current < s.tasks.len(),
        s.task().state is Runnable,
    ensures
        ({
            let after = lifecycle::exited(m, s, shared, code).1;
            &&& after.tasks.len() == s.tasks.len()
            &&& after.tasks[s.current] == gone(s.task(), code)
            &&& after.current == (match switch::next_runnable(after.tasks, s.current) {
                Some(i) => i,
                None => s.current,
            })
            &&& forall|j: int|
                0 <= j < s.tasks.len() && j != s.current ==> same_or_woken(
                    s.tasks[j],
                    #[trigger] after.tasks[j],
                ) || is_told(s.tasks[j], after.tasks[j])
        }),
{
    reveal(lifecycle::tid_cleared);
    reveal(lifecycle::ended);
    reveal(lifecycle::released);
    let t = s.task();
    let (m1, s1, address) = lifecycle::tid_cleared(m, s, s.current);
    lemma_tid_woken(s1, address);
    let woken = lifecycle::tid_woken(s1, address);
    let s2 = lifecycle::ended(woken, s.current, code);
    let parent = match t.parent_pid {
        Some(pid) => pid,
        None => 0,
    };
    assert(same_or_woken(s1.tasks[s.current], woken.tasks[s.current]));
    assert(s2.tasks[s.current] == gone(t, code));
    lemma_parent_told(m1, s2, parent, t.tgid, code, lifecycle::exit_status(code));
    let after = lifecycle::exited(m, s, shared, code).1;
    assert forall|j: int| 0 <= j < s.tasks.len() && j != s.current implies same_or_woken(
        s.tasks[j],
        #[trigger] after.tasks[j],
    ) || is_told(s.tasks[j], after.tasks[j]) by {
        assert(s1.tasks[j] == s.tasks[j]);
        assert(same_or_woken(s1.tasks[j], woken.tasks[j]));
        assert(s2.tasks[j] == woken.tasks[j]);
    }
}

/// One that waits at the word of a thread that exits goes on, if it is the only
/// one that waits at a futex.
pub(crate) proof fn lemma_joiner_woken(
    m: MachineView,
    s: SchedulerView,
    shared: Shared,
    code: u64,
    w: int,
    word: u64,
)
    requires
        0 <= s.current < s.tasks.len(),
        s.task().state is Runnable,
        s.task().clear_child_tid == word,
        word != 0,
        0 <= w < s.tasks.len(),
        waits_at(s.tasks[w], word, 0xffff_ffff),
        forall|j: int|
            0 <= j < s.tasks.len() && j != w ==> !((#[trigger] s.tasks[j]).state is FutexWait),
    ensures
        lifecycle::exited(m, s, shared, code).1.tasks[w].state is Runnable,
        lifecycle::exited(m, s, shared, code).1.tasks[s.current] == gone(s.task(), code),
{
    reveal(lifecycle::tid_cleared);
    reveal(lifecycle::tid_woken);
    reveal(lifecycle::ended);
    reveal(lifecycle::released);
    lemma_exited(m, s, shared, code);
    let t = s.task();
    let (m1, s1, address) = lifecycle::tid_cleared(m, s, s.current);
    let any = crate::linux::FUTEX_BITSET_MATCH_ANY;
    lemma_futex_woken(s1.tasks, word, 1, any, 0);
    let (woken, n) = switch::futex_woken(s1.tasks, word, 1, any, 0);
    assert(s1.tasks[w] == s.tasks[w]);
    if n == 1 {
        if woken[w] == s1.tasks[w] {
            assert forall|j: int| 0 <= j < s1.tasks.len() implies #[trigger] woken[j]
                == s1.tasks[j] by {
                if j != w && j != s.current {
                    assert(s1.tasks[j] == s.tasks[j]);
                }
            }
            assert(woken =~= s1.tasks);
            lemma_unchanged(s1.tasks, s1.tasks.len() as int);
        }
    } else {
        assert(woken[w].state is Runnable);
    }
    let s2 = lifecycle::ended(lifecycle::tid_woken(s1, address), s.current, code);
    assert(s2.tasks[w].state is Runnable);
    let parent = match t.parent_pid {
        Some(pid) => pid,
        None => 0,
    };
    lemma_parent_told(m1, s2, parent, t.tgid, code, lifecycle::exit_status(code));
}

/// The last thread of a process that exits tells the parent that waits for it:
/// the parent goes on, with the number of the child or, if it is native, its
/// code, in both of its sets of registers.
pub proof fn law_exit_tells_waiting_parent(
    m: MachineView,
    s: SchedulerView,
    shared: Shared,
    code: u64,
    w: int,
)
    requires
        0 <= s.current < s.tasks.len(),
        s.task().state is Runnable,
        s.task().parent_pid is Some,
        0 <= w < s.tasks.len(),
        s.tasks[w].process is Some,
        lifecycle::waits_for(s.tasks[w], s.task().parent_pid->0, s.task().tgid),
        forall|j: int|
            0 <= j < s.tasks.len() && j != w ==> !lifecycle::waits_for(
                #[trigger] s.tasks[j],
                s.task().parent_pid->0,
                s.task().tgid,
            ),
        forall|j: int|
            0 <= j < s.tasks.len() && j != s.current && (#[trigger] s.tasks[j]).tgid
                == s.task().tgid ==> s.tasks[j].process is None,
    ensures
        ({
            let after = lifecycle::exited(m, s, shared, code).1;
            let value = if s.processes[s.tasks[w].process->0 as int].personality
                == ProcessPersonality::NativeVanta {
                code
            } else {
                s.task().tgid
            };
            &&& after.tasks[w].state is Runnable
            &&& after.tasks[w].context == UserContext {
                return_value: value,
                ..s.tasks[w].context
            }
            &&& after.tasks[w].interrupt_context == InterruptContext {
                rax: value,
                ..s.tasks[w].interrupt_context
            }
            &&& after.tasks[w].process == s.tasks[w].process
        }),
{
    reveal(lifecycle::tid_cleared);
    reveal(lifecycle::ended);
    reveal(lifecycle::released);
    let t = s.task();
    let parent = t.parent_pid->0;
    let (m1, s1, address) = lifecycle::tid_cleared(m, s, s.current);
    lemma_tid_woken(s1, address);
    let woken = lifecycle::tid_woken(s1, address);
    let s2 = lifecycle::ended(woken, s.current, code);
    assert(same_or_woken(s1.tasks[s.current], woken.tasks[s.current]));
    assert forall|j: int| 0 <= j < s.tasks.len() implies !((#[trigger] s2.tasks[j]).tgid == t.tgid
        && s2.tasks[j].process is Some) by {
        if j != s.current {
            assert(s1.tasks[j] == s.tasks[j]);
            assert(same_or_woken(s1.tasks[j], woken.tasks[j]));
            assert(s2.tasks[j] == woken.tasks[j]);
        }
    }
    assert(!lifecycle::group_alive(s2.tasks, t.tgid));
    assert(w != s.current);
    assert(s2.tasks[w] == s.tasks[w]) by {
        assert(s1.tasks[w] == s.tasks[w]);
        assert(same_or_woken(s1.tasks[w], woken.tasks[w]));
    }
    assert forall|j: int| 0 <= j < w implies !lifecycle::waits_for(
        #[trigger] s2.tasks[j],
        parent,
        t.tgid,
    ) by {
        if j != s.current {
            assert(s1.tasks[j] == s.tasks[j]);
            assert(same_or_woken(s1.tasks[j], woken.tasks[j]));
            assert(s2.tasks[j] == woken.tasks[j]);
            assert(!lifecycle::waits_for(s.tasks[j], parent, t.tgid));
        }
    }
    lemma_first_waiting(s2.tasks, parent, t.tgid, w, 0);
    reveal(lifecycle::parent_told);
}

/// A parent that asks later learns the number and the code of the child that
/// has exited, if it is the only one that ended; it learns of it only once.
pub proof fn law_exit_then_asked(
    m: MachineView,
    s: SchedulerView,
    shared: Shared,
    code: u64,
    later: SchedulerView,
    target: u64,
)
    requires
        0 <= s.current < s.tasks.len(),
        s.task().state is Runnable,
        s.current < later.tasks.len(),
        later.tasks[s.current] == lifecycle::exited(m, s, shared, code).1.tasks[s.current],
        s.task().parent_pid == Some(later.task().tgid),
        target == s.task().tgid || target == 0 || target == u64::MAX,
        0 <= later.current < later.tasks.len(),
        forall|j: int|
            0 <= j < later.tasks.len() && j != s.current && lifecycle::child_of(
                #[trigger] later.tasks[j],
                later.task().tgid,
                target,
            ) ==> !(later.tasks[j].state is Zombie),
    ensures
        ({
            let (after, learned) = lifecycle::child_reaped(later, target);
            &&& learned == Ok::<Option<(u64, u64)>, ()>(Some((s.task().tgid, code)))
            &&& after.tasks[s.current].state is Reaped
            &&& lifecycle::child_reaped(after, target).1 == Ok::<Option<(u64, u64)>, ()>(None)
        }),
{
    lemma_exited(m, s, shared, code);
    lemma_only_ended(later.tasks, later.task().tgid, target, s.current, 0);
    assert(lifecycle::child_of(later.tasks[s.current], later.task().tgid, target));
    assert(lifecycle::has_child(later.tasks, later.task().tgid, target));
    let after = lifecycle::child_reaped(later, target).0;
    assert(lifecycle::child_of(after.tasks[s.current], later.task().tgid, target));
    assert(after.task().tgid == later.task().tgid);
    assert(lifecycle::has_child(after.tasks, after.task().tgid, target));
    assert forall|j: int| 0 <= j < after.tasks.len() implies !(lifecycle::child_of(
        #[trigger] after.tasks[j],
        after.task().tgid,
        target,
    ) && after.tasks[j].state is Zombie) by {
        if j != s.current {
            assert(after.tasks[j] == later.tasks[j]);
        }
    }
    lemma_none_ended(after.tasks, after.task().tgid, target, 0);
}

proof fn lemma_only_ended(tasks: Seq<Task>, parent: u64, target: u64, e: int, i: int)
    requires
        0 <= i <= e < tasks.len(),
        lifecycle::child_of(tasks[e], parent, target),
        tasks[e].state is Zombie,
        forall|j: int|
            i <= j < e && lifecycle::child_of(#[trigger] tasks[j], parent, target) ==> !(
            tasks[j].state is Zombie),
    ensures
        lifecycle::first_ended(tasks, parent, target, i) == Some(e),
    decreases e - i,
{
    if i < e {
        lemma_only_ended(tasks, parent, target, e, i + 1);
    }
}

proof fn lemma_none_ended(tasks: Seq<Task>, parent: u64, target: u64, i: int)
    requires
        0 <= i,
        forall|j: int|
            i <= j < tasks.len() && lifecycle::child_of(#[trigger] tasks[j], parent, target) ==> !(
            tasks[j].state is Zombie),
    ensures
        lifecycle::first_ended(tasks, parent, target, i) is None,
    decreases tasks.len() - i,
{
    if i < tasks.len() {
        lemma_none_ended(tasks, parent, target, i + 1);
    }
}

/// The status of a child that exits by itself has the lowest eight bits of its
/// code in the second byte, and zero in the first; that of one that a signal
/// ended has the number of the signal in the first.
pub proof fn law_status_tells_code(code: u64)
    ensures
        lifecycle::exit_status(code) / 256 % 256 == code % 256,
        lifecycle::exit_status(code) % 128 == 0,
        lifecycle::exit_status(code) < 65536,
{
}

/// An exit of a group ends all its threads with the code, and none else.
pub proof fn law_group_exit_ends_all(m: MachineView, s: SchedulerView, shared: Shared, code: u64)
    requires
        0 <= s.current < s.tasks.len(),
        s.task().state is Runnable,
        s.task().process is Some,
        forall|j: int|
            0 <= j < s.tasks.len() && (#[trigger] s.tasks[j]).tid == s.task().tid
                && s.tasks[j].tgid == s.task().tgid && s.tasks[j].process is Some ==> j == s.current,
    ensures
        ({
            let (m1, s1) = lifecycle::group_left(m, s, code);
            let after = lifecycle::exited(m1, s1, shared, code).1;
            &&& after.tasks.len() == s.tasks.len()
            &&& forall|j: int|
                0 <= j < s.tasks.len() ==> if s.tasks[j].tgid == s.task().tgid && s.tasks[j].process is Some {
                    #[trigger] after.tasks[j] == gone(s.tasks[j], code)
                } else {
                    same_or_woken(s.tasks[j], after.tasks[j]) || is_told(
                        s.tasks[j],
                        after.tasks[j],
                    )
                }
        }),
{
    let t = s.task();
    let (m0, s0, words) = lifecycle::others_ended(m, s, t.tgid, Some(t.tid), code, 0);
    lemma_others_ended(m, s, t.tgid, Some(t.tid), code, 0);
    lemma_all_woken(s0, words);
    let (m1, s1) = lifecycle::group_left(m, s, code);
    assert(s0.tasks[s.current] == t);
    assert(same_or_woken(s0.tasks[s.current], s1.tasks[s.current]));
    lemma_exited(m1, s1, shared, code);
    let after = lifecycle::exited(m1, s1, shared, code).1;
    assert forall|j: int| 0 <= j < s.tasks.len() implies if s.tasks[j].tgid == t.tgid
        && s.tasks[j].process is Some {
        #[trigger] after.tasks[j] == gone(s.tasks[j], code)
    } else {
        same_or_woken(s.tasks[j], after.tasks[j]) || is_told(s.tasks[j], after.tasks[j])
    } by {
        assert(same_or_woken(s0.tasks[j], s1.tasks[j]));
        if j != s.current {
            assert(same_or_woken(s1.tasks[j], after.tasks[j]) || is_told(
                s1.tasks[j],
                after.tasks[j],
            ));
        }
    }
}

// ---------------------------------------------------------------------------
// Signals from outside
// ---------------------------------------------------------------------------
proof fn lemma_first_alive(tasks: Seq<Task>, tgid: u64, i: int)
    requires
        0 <= i,
    ensures
        match signals::first_alive(tasks, tgid, i) {
            Some(k) => i <= k < tasks.len() && tasks[k].tgid == tgid && tasks[k].process is Some
                && forall|j: int|
                i <= j < k && (#[trigger] tasks[j]).tgid == tgid ==> tasks[j].process is None,
            None => forall|j: int|
                i <= j < tasks.len() && (#[trigger] tasks[j]).tgid == tgid ==> tasks[j].process is None,
        },
    decreases tasks.len() - i,
{
    if i < tasks.len() {
        lemma_first_alive(tasks, tgid, i + 1);
    }
}

/// Kill ends every thread of a process, whatever action the process has set,
/// and so does a signal without an action that by default ends a program. All
/// threads end with the same code, 128 more than the number of the signal; no
/// other task ends.
pub proof fn law_kill_ends_process(
    m: MachineView,
    s: SchedulerView,
    shared: Shared,
    pid: u64,
    signal: u64,
    first: int,
)
    requires
        0 <= first < s.tasks.len(),
        s.tasks[first].tgid == pid,
        s.tasks[first].process is Some,
        pid != 0,
        1 <= signal <= 64,
        signal == 9 || ((signal == 1 || signal == 2 || signal == 3 || signal == 6 || signal == 11
            || signal == 13 || signal == 14 || signal == 15) && forall|j: int|
            0 <= j < s.tasks.len() && (#[trigger] s.tasks[j]).tgid == pid
                ==> s.actions[s.tasks[j].signal_actions as int][signal as int].sa_handler == 0),
    ensures
        ({
            &&& signals::process_signalled(m, s, shared, pid, signal) matches Some((_, after, sh))
            &&& after.tasks.len() == s.tasks.len()
            &&& forall|j: int|
                0 <= j < s.tasks.len() ==> if s.tasks[j].tgid == pid && s.tasks[j].process is Some {
                    #[trigger] after.tasks[j] == gone(s.tasks[j], (128 + signal) as u64)
                } else {
                    same_or_woken(s.tasks[j], after.tasks[j]) || is_told(
                        s.tasks[j],
                        after.tasks[j],
                    )
                }
            &&& sh.foreground_pid != pid
        }),
{
    lemma_first_alive(s.tasks, pid, 0);
    let i = signals::first_alive(s.tasks, pid, 0)->0;
    assert(s.tasks[i].tgid == pid);
    let code = (128 + signal) as u64;
    let (m1, s1, words) = lifecycle::others_ended(m, s, pid, None, code, 0);
    lemma_others_ended(m, s, pid, None, code, 0);
    lemma_all_woken(s1, words);
    let s2 = lifecycle::all_woken(s1, words);
    if let Some(parent) = s.tasks[i].parent_pid {
        lemma_parent_told(m1, s2, parent, pid, code, (signal % 128) as u32);
    }
    let after = (signals::process_signalled(m, s, shared, pid, signal)->0).1;
    assert forall|j: int| 0 <= j < s.tasks.len() implies if s.tasks[j].tgid == pid
        && s.tasks[j].process is Some {
        #[trigger] after.tasks[j] == gone(s.tasks[j], code)
    } else {
        same_or_woken(s.tasks[j], after.tasks[j]) || is_told(s.tasks[j], after.tasks[j])
    } by {
        assert(same_or_woken(s1.tasks[j], s2.tasks[j]));
        assert(after.tasks[j] == s2.tasks[j] || is_told(s2.tasks[j], after.tasks[j]));
    }
}

/// A signal for which a process has a handler is pending at its first thread
/// that has not ended, which goes on if it waited at a pipe or a futex; nothing
/// else changes. One that is ignored changes nothing. To a process that is not
/// there none can be sent.
pub proof fn law_signal_sent(
    m: MachineView,
    s: SchedulerView,
    shared: Shared,
    pid: u64,
    signal: u64,
)
    requires
        pid != 0,
        1 <= signal <= 64,
        signal != 9,
    ensures
        match signals::first_alive(s.tasks, pid, 0) {
            None => {
                &&& signals::process_signalled(m, s, shared, pid, signal) is None
                &&& forall|j: int|
                    0 <= j < s.tasks.len() && (#[trigger] s.tasks[j]).tgid == pid
                        ==> s.tasks[j].process is None
            },
            Some(i) => {
                let handler = s.actions[s.tasks[i].signal_actions as int][signal as int].sa_handler;
                &&& s.tasks[i].tgid == pid && s.tasks[i].process is Some
                &&& handler == 1 || (handler == 0 && (signal == 17 || signal == 23 || signal == 28))
                    ==> signals::process_signalled(m, s, shared, pid, signal) == Some((m, s, shared))
                &&& handler > 1 ==> {
                    &&& signals::process_signalled(m, s, shared, pid, signal) matches Some(
                        (m1, after, sh),
                    )
                    &&& m1 == m
                    &&& sh == shared
                    &&& after == s.with_task(i, after.tasks[i])
                    &&& forall|k: int|
                        1 <= k <= 64 ==> (#[trigger] laws::has_signal(
                            after.tasks[i].pending_signals,
                            k,
                        ) <==> k == signal || laws::has_signal(s.tasks[i].pending_signals, k))
                    &&& after.tasks[i] == Task {
                        pending_signals: after.tasks[i].pending_signals,
                        state: after.tasks[i].state,
                        ..s.tasks[i]
                    }
                    &&& after.tasks[i].state == (if s.tasks[i].state is PipeWaiting
                        || s.tasks[i].state is FutexWait {
                        TaskState::Runnable
                    } else {
                        s.tasks[i].state
                    })
                }
            },
        },
{
    lemma_first_alive(s.tasks, pid, 0);
    if let Some(i) = signals::first_alive(s.tasks, pid, 0) {
        laws::lemma_signal_added(s.tasks[i].pending_signals, signal);
    }
}

/// A signal that a program sends to itself, has a handler for and does not
/// block is delivered with the action that it has set, if no other is pending.
pub proof fn law_own_signal_delivered(
    m: MachineView,
    s: SchedulerView,
    shared: Shared,
    signal: u64,
)
    requires
        s.wf(),
        1 <= signal <= 64,
        signal != 9,
        s.task().tgid != 0,
        signals::first_alive(s.tasks, s.task().tgid, 0) == Some(s.current),
        signals::actions_of(s)[signal as int].sa_handler > 1,
        s.task().pending_signals == 0,
        !laws::has_signal(s.task().blocked_mask, signal as int),
    ensures
        signals::process_signalled(m, s, shared, 0, signal) matches Some((_, after, _))
            && signals::signal_taken(after).1 == Some((signal, signals::actions_of(s)[signal as int])),
{
    law_signal_sent(m, s, shared, s.task().tgid, signal);
    let after = (signals::process_signalled(m, s, shared, 0, signal)->0).1;
    assert(after == (signals::process_signalled(m, s, shared, s.task().tgid, signal)->0).1);
    laws::law_delivered_with_its_action(after);
    assert forall|k: int| 1 <= k <= 64 implies !laws::has_signal(0, k) by {
        laws::lemma_no_signal(k);
    }
    assert(laws::has_signal(after.task().pending_signals, signal as int));
}

} // verus!
