//! What holds of tasks over several calls: clones, signals and turns.
use vstd::prelude::*;

use crate::abi::Rights;
use crate::paging::{AddressSpace, MachineView};
use crate::process::ProcessView;
use crate::scheduler::{
    self, FileDescriptor, InterruptContext, LinuxSigAction, SchedulerView, Shared, Task,
};
use crate::scheduler::birth::{self, CloneRequest};
use crate::scheduler::signals;
use crate::scheduler::switch;
use crate::syscall::UserContext;

verus! {

// ---------------------------------------------------------------------------
// Clones
// ---------------------------------------------------------------------------
/// Whether one task was added at place `i`, which no task had that is not gone
/// for good, and all others are as they were.
pub open spec fn one_added(before: Seq<Task>, after: Seq<Task>, i: int) -> bool {
    &&& 0 <= i < after.len()
    &&& i <= before.len()
    &&& i < before.len() ==> before[i].state is Reaped
    &&& after.len() == (if i < before.len() {
        before.len()
    } else {
        before.len() + 1
    })
    &&& forall|j: int| 0 <= j < before.len() && j != i ==> #[trigger] after[j] == before[j]
}

proof fn lemma_room_from(tasks: Seq<Task>, i: int)
    requires
        0 <= i,
    ensures
        birth::room_from(tasks, i) matches Some(p) ==> 0 <= p <= tasks.len() && (p < tasks.len()
            ==> tasks[p].state is Reaped) && (p == tasks.len() ==> tasks.len() < 256 && forall|j: int|
            i <= j < tasks.len() ==> !((#[trigger] tasks[j]).state is Reaped)),
        birth::room_from(tasks, i) is None ==> tasks.len() >= 256 && forall|j: int|
            i <= j < tasks.len() ==> !((#[trigger] tasks[j]).state is Reaped),
    decreases tasks.len() - i,
{
    if i < tasks.len() {
        lemma_room_from(tasks, i + 1);
    }
}

/// A task finds a place exactly if one of those that ended is gone for good, or
/// there are fewer than 256.
pub proof fn law_room(tasks: Seq<Task>)
    ensures
        birth::room(tasks) is Some <==> tasks.len() < 256 || exists|j: int|
            0 <= j < tasks.len() && (#[trigger] tasks[j]).state is Reaped,
        birth::room(tasks) matches Some(i) ==> forall|t: Task|
            one_added(tasks, #[trigger] birth::placed(tasks, i, t), i) && birth::placed(
                tasks,
                i,
                t,
            )[i] == t,
{
    lemma_room_from(tasks, 0);
}

/// A clone is made exactly if a program runs, there is a place for one more
/// task, and memory is shared or was copied.
pub proof fn law_clone_succeeds(
    m: MachineView,
    s: SchedulerView,
    shared: Shared,
    q: CloneRequest,
    context: UserContext,
    interrupt: InterruptContext,
    copy: Result<AddressSpace, ()>,
)
    ensures
        ({
            let (_, after, sh, r) = birth::task_cloned(m, s, shared, q, context, interrupt, copy);
            &&& r is Ok <==> {
                &&& s.task().process is Some
                &&& q.flags / 0x100 % 2 == 1 || copy is Ok
                &&& s.tasks.len() < 256 || exists|j: int|
                    0 <= j < s.tasks.len() && (#[trigger] s.tasks[j]).state is Reaped
            }
            &&& r is Err ==> after == s
        }),
{
    law_room(s.tasks);
}

/// A clone returns twice. The caller gets the number of the new task, which is
/// not zero and is not given out again; the new task gets zero, in both of its
/// sets of registers, and goes on where the call was made, on the stack that
/// was asked for, with all other registers of the caller.
pub proof fn law_clone_returns_twice(
    m: MachineView,
    s: SchedulerView,
    shared: Shared,
    q: CloneRequest,
    context: UserContext,
    interrupt: InterruptContext,
    copy: Result<AddressSpace, ()>,
)
    requires
        0 <= s.current < s.tasks.len(),
        shared.next_pid != 0,
        birth::task_cloned(m, s, shared, q, context, interrupt, copy).3 is Ok,
    ensures
        ({
            let (_, after, sh, r) = birth::task_cloned(m, s, shared, q, context, interrupt, copy);
            &&& r->Ok_0 != 0
            &&& sh.next_pid != r->Ok_0
            &&& r->Ok_0 < u64::MAX ==> sh.next_pid == r->Ok_0 + 1
            &&& after.current == s.current
            &&& exists|i: int|
                {
                    let child = #[trigger] after.tasks[i];
                    &&& one_added(s.tasks, after.tasks, i)
                    &&& child.tid == r->Ok_0
                    &&& child.state is Runnable
                    &&& child.context.return_value == 0
                    &&& child.interrupt_context.rax == 0
                    &&& same_but_result(child.context, context)
                    &&& child.context.instruction_pointer == interrupt.instruction_pointer
                    &&& child.interrupt_context.instruction_pointer
                        == interrupt.instruction_pointer
                    &&& child.interrupt_context.code_segment == interrupt.code_segment
                    &&& child.interrupt_context.stack_segment == interrupt.stack_segment
                    &&& child.context.stack_pointer == (if q.child_stack != 0 {
                        q.child_stack
                    } else {
                        context.stack_pointer
                    })
                    &&& child.interrupt_context.stack_pointer == child.context.stack_pointer
                    &&& child.context.flags == context.flags | 0x202
                    &&& child.interrupt_context.flags == child.context.flags
                }
        }),
{
    law_room(s.tasks);
    let after = birth::task_cloned(m, s, shared, q, context, interrupt, copy).1;
    let i = birth::room(s.tasks)->0;
    let child = after.tasks[i];
    assert(one_added(s.tasks, after.tasks, i));
}

/// Whether two sets of registers hold the same but for the result of a call,
/// the flags and where the program and its stack are.
pub open spec fn same_but_result(a: UserContext, b: UserContext) -> bool {
    &&& a.rbx == b.rbx
    &&& a.rbp == b.rbp
    &&& a.r12 == b.r12
    &&& a.r13 == b.r13
    &&& a.r14 == b.r14
    &&& a.r15 == b.r15
    &&& a.rdi == b.rdi
    &&& a.rsi == b.rsi
    &&& a.rdx == b.rdx
    &&& a.r8 == b.r8
    &&& a.r9 == b.r9
    &&& a.r10 == b.r10
}

/// Whether a task belongs where the flags of a clone say: a thread is of the
/// same process and has the same parent; a process of its own is a child of the
/// caller's.
pub open spec fn belongs(child: Task, parent: Task, flags: u64) -> bool {
    if flags / 0x1_0000 % 2 == 1 {
        child.tgid == parent.tgid && child.parent_pid == parent.parent_pid
    } else {
        child.tgid == child.tid && child.parent_pid == Some(parent.tgid)
    }
}

/// Whether a clone has the caller's memory where it is shared, and the copy of
/// it where it is not.
pub open spec fn has_memory(
    s: SchedulerView,
    after: SchedulerView,
    child: Task,
    flags: u64,
    copy: Result<AddressSpace, ()>,
) -> bool {
    let parent = s.task();
    &&& child.process is Some
    &&& if flags / 0x100 % 2 == 1 {
        child.process == parent.process && after.processes == s.processes
    } else {
        &&& child.process != parent.process
        &&& after.processes[child.process->0 as int] == ProcessView {
            space: copy->Ok_0,
            destroyed: false,
            ..s.processes[parent.process->0 as int]
        }
        &&& after.processes.drop_last() == s.processes
    }
}

/// Whether a clone has the caller's descriptors and signal actions: the same
/// tables where they are shared, and copies where they are not.
pub open spec fn has_tables(s: SchedulerView, after: SchedulerView, child: Task, flags: u64) -> bool {
    let parent = s.task();
    &&& after.tables[child.descriptors as int] == s.table()
    &&& child.descriptors == parent.descriptors <==> flags / 0x400 % 2 == 1
    &&& after.actions[child.signal_actions as int] == signals::actions_of(s)
    &&& child.signal_actions == parent.signal_actions <==> flags / 0x800 % 2 == 1 || flags
        / 0x1_0000 % 2 == 1
}

/// Whether a clone has the caller's rights and blocked signals, none pending,
/// the thread-local storage that was asked for, and clears the word that was
/// asked for when it ends.
pub open spec fn has_state(child: Task, parent: Task, q: CloneRequest) -> bool {
    &&& child.credentials == parent.credentials
    &&& child.blocked_mask == parent.blocked_mask
    &&& child.pending_signals == 0
    &&& child.fs_base == (if q.flags / 0x8_0000 % 2 == 1 {
        q.tls
    } else {
        parent.fs_base
    })
    &&& q.flags / 0x20_0000 % 2 == 0 ==> child.clear_child_tid == 0
    &&& q.flags / 0x20_0000 % 2 == 1 && q.parent_tidptr == 0 ==> child.clear_child_tid
        == q.child_tidptr
    &&& q.flags / 0x20_0000 % 2 == 1 && q.child_tidptr == 0 ==> child.clear_child_tid
        == q.parent_tidptr
}

/// What a clone has in common with the caller: a thread is of its process, any
/// other is its child; memory, descriptors and actions are the caller's own
/// where they are shared, and copies of them where they are not.
#[verifier::spinoff_prover]
#[verifier::rlimit(60)]
pub proof fn law_clone_shares_or_copies(
    m: MachineView,
    s: SchedulerView,
    shared: Shared,
    q: CloneRequest,
    context: UserContext,
    interrupt: InterruptContext,
    copy: Result<AddressSpace, ()>,
)
    requires
        s.wf(),
        s.task().state is Runnable,
        s.processes.len() <= usize::MAX,
        s.tables.len() <= usize::MAX,
        s.actions.len() <= usize::MAX,
        birth::task_cloned(m, s, shared, q, context, interrupt, copy).3 is Ok,
    ensures
        ({
            let (_, after, _, r) = birth::task_cloned(m, s, shared, q, context, interrupt, copy);
            &&& after.objects == s.objects
            &&& after.task() == s.task()
            &&& exists|i: int|
                {
                    let child = #[trigger] after.tasks[i];
                    &&& one_added(s.tasks, after.tasks, i)
                    &&& child.tid == r->Ok_0
                    &&& belongs(child, s.task(), q.flags)
                    &&& has_memory(s, after, child, q.flags, copy)
                    &&& has_tables(s, after, child, q.flags)
                    &&& has_state(child, s.task(), q)
                }
        }),
{
    law_room(s.tasks);
    let after = birth::task_cloned(m, s, shared, q, context, interrupt, copy).1;
    let i = birth::room(s.tasks)->0;
    assert(scheduler::task_ok(s.tasks[s.current], s));
    let child = after.tasks[i];
    assert(one_added(s.tasks, after.tasks, i));
    assert(after.tasks[s.current] == s.tasks[s.current]);
    let (s1, places) = birth::parts_cloned(s, q, copy->Ok_0);
    assert(child == birth::cloned_task(s.task(), q, shared.next_pid, context, interrupt, places));
    assert(belongs(child, s.task(), q.flags));
    assert(has_state(child, s.task(), q));
    assert(has_tables(s, after, child, q.flags));
    assert(has_memory(s, after, child, q.flags, copy)) by {
        if q.flags / 0x100 % 2 != 1 {
            assert(after.processes.drop_last() =~= s.processes);
        }
    }
}

// ---------------------------------------------------------------------------
// Programs
// ---------------------------------------------------------------------------
/// Whether a task is about to start a program: it can run, from the program's
/// first instruction on, on the program's stack, in user mode and with
/// interrupts; no signal is pending or blocked, and none has an action.
pub open spec fn about_to_start(t: Task, s: SchedulerView, v: ProcessView) -> bool {
    &&& t.state is Runnable
    &&& t.process matches Some(p)
    &&& s.processes[p as int] == v
    &&& t.context.instruction_pointer == v.entry
    &&& t.context.stack_pointer == v.user_stack_top
    &&& t.context.return_value == 0
    &&& t.context.flags == 0x202
    &&& t.interrupt_context.instruction_pointer == v.entry
    &&& t.interrupt_context.stack_pointer == v.user_stack_top
    &&& t.interrupt_context.rax == 0
    &&& t.interrupt_context.flags == 0x202
    &&& t.interrupt_context.code_segment % 4 == 3
    &&& t.interrupt_context.stack_segment % 4 == 3
    &&& t.blocked_mask == 0
    &&& t.pending_signals == 0
    &&& t.fs_base == 0
    &&& t.clear_child_tid == 0
    &&& forall|n: int|
        0 <= n <= 64 ==> (#[trigger] s.actions[t.signal_actions as int][n]).sa_handler == 0
}

/// A program that is spawned is a child of the caller's process with a number
/// of its own, has the descriptors that it was given in a table of its own, and
/// starts at its entry. It never has the administrator's rights; other rights
/// are the caller's. Nothing else changes.
pub proof fn law_spawned_child(
    s: SchedulerView,
    shared: Shared,
    v: ProcessView,
    table: Seq<Option<FileDescriptor>>,
)
    requires
        s.wf(),
        s.processes.len() <= usize::MAX,
        s.tables.len() <= usize::MAX,
        s.actions.len() <= usize::MAX,
        birth::room(s.tasks) is Some,
    ensures
        ({
            let place = birth::room(s.tasks)->0;
            let after = birth::spawned(s, shared, v, table, place);
            let child = after.tasks[place];
            &&& one_added(s.tasks, after.tasks, place)
            &&& child.tid == shared.next_pid
            &&& child.tgid == shared.next_pid
            &&& child.parent_pid == Some(s.task().tgid)
            &&& about_to_start(child, after, v)
            &&& after.tables[child.descriptors as int] == table
            &&& child.descriptors != s.task().descriptors
            &&& child.signal_actions != s.task().signal_actions
            &&& child.credentials.uid != 0
            &&& s.task().credentials.uid != 0 ==> child.credentials == s.task().credentials
            &&& after.current == s.current
            &&& after.objects == s.objects
            &&& after.tables.drop_last() == s.tables
            &&& after.processes.drop_last() == s.processes
            &&& after.actions.drop_last() == s.actions
        }),
{
    law_room(s.tasks);
    assert(scheduler::task_ok(s.tasks[s.current], s));
    let place = birth::room(s.tasks)->0;
    let after = birth::spawned(s, shared, v, table, place);
    assert(after.tables.drop_last() =~= s.tables);
    assert(after.processes.drop_last() =~= s.processes);
    assert(after.actions.drop_last() =~= s.actions);
}

/// A task that goes on as another program keeps its numbers, its parent and its
/// rights. It starts the program at its entry, with three descriptors: it reads
/// the first and writes the other two, at the serial line.
pub proof fn law_replaced_program(s: SchedulerView, shared: Shared, v: ProcessView)
    requires
        s.wf(),
        s.task().state is Runnable,
        s.processes.len() <= usize::MAX,
        s.tables.len() <= usize::MAX,
        s.actions.len() <= usize::MAX,
    ensures
        ({
            let after = birth::replaced(s, shared, v);
            let t = after.task();
            let table = after.table();
            &&& after.current == s.current
            &&& t.tid == s.task().tid
            &&& t.tgid == s.task().tgid
            &&& t.parent_pid == s.task().parent_pid
            &&& t.credentials == s.task().credentials
            &&& about_to_start(t, after, v)
            &&& table.len() == 3
            &&& table[0] matches Some(d0)
            &&& table[1] matches Some(d1)
            &&& table[2] matches Some(d2)
            &&& d0.resource is Serial && d1.resource is Serial && d2.resource is Serial
            &&& d0.rights.has(Rights(1)) && !d0.rights.has(Rights(2))
            &&& d1.rights.has(Rights(2)) && !d1.rights.has(Rights(1))
            &&& d2.rights.has(Rights(2)) && !d2.rights.has(Rights(1))
            &&& forall|j: int| 0 <= j < s.tasks.len() && j != s.current ==> #[trigger] after.tasks[j]
                == s.tasks[j]
            &&& after.objects == s.objects
        }),
{
    assert((1u32 | 8u32) & 1 == 1 && (1u32 | 8u32) & 2 == 0 && (2u32 | 8u32) & 2 == 2 && (2u32
        | 8u32) & 1 == 0) by (bit_vector);
    assert(scheduler::task_ok(s.tasks[s.current], s));
}

/// A descriptor that a child is to have as its input, output or errors is the
/// one that was named for it; those for which none was named stay.
pub proof fn law_redirected(
    table: Seq<Option<FileDescriptor>>,
    stdin: u64,
    stdout: u64,
    stderr: u64,
)
    requires
        3 <= table.len(),
        stdin < table.len() || stdin == u64::MAX,
        stdout == u64::MAX || 2 < stdout < table.len(),
        stderr == u64::MAX || 2 < stderr < table.len(),
        birth::all_redirected(table, stdin, stdout, stderr) is Some,
    ensures
        ({
            let after = birth::all_redirected(table, stdin, stdout, stderr)->0;
            &&& after.len() == table.len()
            &&& after[0] == table[if stdin == u64::MAX {
                0
            } else {
                stdin as int
            }]
            &&& after[1] == table[if stdout == u64::MAX {
                1
            } else {
                stdout as int
            }]
            &&& after[2] == table[if stderr == u64::MAX {
                2
            } else {
                stderr as int
            }]
            &&& forall|i: int| 3 <= i < table.len() ==> #[trigger] after[i] == table[i]
        }),
{
}

/// The first programs have numbers one after the other, in their order, and the
/// administrator's rights; each is about to start.
pub proof fn law_first_programs(
    kernel_space: AddressSpace,
    shared: Shared,
    programs: Seq<ProcessView>,
    native_tty: bool,
)
    requires
        shared.next_pid + programs.len() <= u64::MAX,
        programs.len() <= usize::MAX,
    ensures
        ({
            let (s, sh) = birth::started(kernel_space, shared, programs, native_tty);
            &&& s.tasks.len() == programs.len()
            &&& s.processes == programs
            &&& s.tables.len() == programs.len()
            &&& s.actions.len() == programs.len()
            &&& sh.next_pid == shared.next_pid + programs.len()
            &&& s.current == 0
            &&& forall|i: int|
                0 <= i < programs.len() ==> {
                    let t = #[trigger] s.tasks[i];
                    &&& t.tid == shared.next_pid + i
                    &&& t.tgid == t.tid
                    &&& t.parent_pid is None
                    &&& t.credentials.uid == 0
                    &&& about_to_start(t, s, programs[i])
                }
        }),
    decreases programs.len(),
{
    if programs.len() > 0 {
        let earlier = programs.drop_last();
        law_first_programs(kernel_space, shared, earlier, native_tty);
        let (s0, sh0) = birth::started(kernel_space, shared, earlier, native_tty);
        let (s, sh) = birth::started(kernel_space, shared, programs, native_tty);
        assert(s.processes =~= programs);
        assert forall|i: int| 0 <= i < programs.len() implies {
            let t = #[trigger] s.tasks[i];
            &&& t.tid == shared.next_pid + i
            &&& t.tgid == t.tid
            &&& t.parent_pid is None
            &&& t.credentials.uid == 0
            &&& about_to_start(t, s, programs[i])
        } by {
            if i < earlier.len() {
                let t = s0.tasks[i];
                assert(about_to_start(t, s0, earlier[i]));
                lemma_places(kernel_space, shared, earlier, native_tty, i);
            }
        }
    }
}

/// Each of the first programs has its own place for everything.
proof fn lemma_places(
    kernel_space: AddressSpace,
    shared: Shared,
    programs: Seq<ProcessView>,
    native_tty: bool,
    i: int,
)
    requires
        0 <= i < programs.len() <= usize::MAX,
    ensures
        ({
            let s = birth::started(kernel_space, shared, programs, native_tty).0;
            &&& s.tasks.len() == programs.len()
            &&& s.processes.len() == programs.len()
            &&& s.tables.len() == programs.len()
            &&& s.actions.len() == programs.len()
            &&& s.tasks[i].process == Some(i as usize)
            &&& s.tasks[i].signal_actions == i
            &&& s.tasks[i].descriptors == i
        }),
    decreases programs.len(),
{
    if programs.len() > 1 {
        let earlier = programs.drop_last();
        lemma_places(
            kernel_space,
            shared,
            earlier,
            native_tty,
            if i < earlier.len() {
                i
            } else {
                0
            },
        );
    } else {
        reveal_with_fuel(birth::started, 2);
    }
}

// ---------------------------------------------------------------------------
// Signals
// ---------------------------------------------------------------------------
/// Whether a signal is in a set of signals.
pub open spec fn has_signal(set: u64, signal: int) -> bool {
    (set >> ((signal - 1) as u64)) & 1 == 1
}

proof fn lemma_bits(p: u64, b: u64, i: u64)
    by (bit_vector)
    requires
        i < 64,
    ensures
        ((p & !b) >> i) & 1 == 1 <==> (p >> i) & 1 == 1 && (b >> i) & 1 != 1,
        ((1u64 << i) >> i) & 1 == 1,
        ((p | (1u64 << i)) >> i) & 1 == 1,
{
}

proof fn lemma_other_bit(p: u64, i: u64, j: u64)
    by (bit_vector)
    requires
        i < 64,
        j < 64,
        i != j,
    ensures
        ((1u64 << i) >> j) & 1 != 1,
        ((p & !(1u64 << i)) >> j) & 1 == (p >> j) & 1,
        ((p | (1u64 << i)) >> j) & 1 == (p >> j) & 1,
{
}

/// A signal that is added to a set is in it; no other is added.
pub(crate) proof fn lemma_signal_added(set: u64, signal: u64)
    requires
        1 <= signal <= 64,
    ensures
        forall|k: int|
            1 <= k <= 64 ==> (#[trigger] has_signal(set | (1u64 << ((signal - 1) as u64)), k) <==> k
                == signal || has_signal(set, k)),
{
    let b = (signal - 1) as u64;
    assert forall|k: int| 1 <= k <= 64 implies (#[trigger] has_signal(set | (1u64 << b), k) <==> k
        == signal || has_signal(set, k)) by {
        if k == signal {
            lemma_bits(set, 0, b);
        } else {
            lemma_other_bit(set, b, (k - 1) as u64);
        }
    }
}

pub(crate) proof fn lemma_no_signal(k: int)
    requires
        1 <= k <= 64,
    ensures
        !has_signal(0, k),
{
    let b = (k - 1) as u64;
    assert((0u64 >> b) & 1 == 0) by (bit_vector)
        requires
            b < 64,
    ;
}

proof fn lemma_lowest_bit(x: u64, i: u64)
    requires
        i <= 64,
    ensures
        ({
            let b = signals::lowest_bit(x, i);
            &&& i <= b <= 64
            &&& b < 64 ==> (x >> b) & 1 == 1
            &&& forall|j: u64| i <= j < b ==> #[trigger] (x >> j) & 1 != 1
        }),
    decreases 64 - i,
{
    if i < 64 && (x >> i) & 1 != 1 {
        lemma_lowest_bit(x, (i + 1) as u64);
    }
}

/// What is delivered is a signal that is pending and not blocked, with the
/// action of that signal; there is none lower. It is pending no longer; all
/// others that were still are, and nothing else changes. Nothing is delivered
/// only where no such signal is.
pub proof fn law_delivered_with_its_action(s: SchedulerView)
    requires
        0 <= s.current < s.tasks.len(),
        s.task().process is Some,
    ensures
        ({
            let (after, delivered) = signals::signal_taken(s);
            let t = s.task();
            match delivered {
                Some((n, action)) => {
                    &&& 1 <= n <= 64
                    &&& action == signals::actions_of(s)[n as int]
                    &&& has_signal(t.pending_signals, n as int)
                    &&& !has_signal(t.blocked_mask, n as int)
                    &&& forall|k: int|
                        1 <= k < n && #[trigger] has_signal(t.pending_signals, k) ==> has_signal(
                            t.blocked_mask,
                            k,
                        )
                    &&& forall|k: int|
                        1 <= k <= 64 ==> (#[trigger] has_signal(after.task().pending_signals, k)
                            <==> k != n && has_signal(t.pending_signals, k))
                    &&& after == s.with_current(
                        Task { pending_signals: after.task().pending_signals, ..t },
                    )
                },
                None => {
                    &&& after == s
                    &&& forall|k: int|
                        1 <= k <= 64 && #[trigger] has_signal(t.pending_signals, k) ==> has_signal(
                            t.blocked_mask,
                            k,
                        )
                },
            }
        }),
{
    let t = s.task();
    let x = t.pending_signals & !t.blocked_mask;
    lemma_lowest_bit(x, 0);
    let b = signals::lowest_bit(x, 0);
    assert forall|k: int| 1 <= k <= b && #[trigger] has_signal(t.pending_signals, k) implies has_signal(
        t.blocked_mask,
        k,
    ) by {
        lemma_bits(t.pending_signals, t.blocked_mask, (k - 1) as u64);
        assert((x >> ((k - 1) as u64)) & 1 != 1);
    }
    if b < 64 {
        lemma_bits(t.pending_signals, t.blocked_mask, b);
        lemma_bits(t.pending_signals, 1u64 << b, b);
        let left = t.pending_signals & !(1u64 << b);
        assert forall|k: int| 1 <= k <= 64 implies (#[trigger] has_signal(left, k) <==> k != b + 1
            && has_signal(t.pending_signals, k)) by {
            if k != b + 1 {
                lemma_other_bit(t.pending_signals, b, (k - 1) as u64);
            }
        }
        assert(signals::signal_taken(s).0.task().pending_signals == left);
    }
}

/// The action that a program last set for a signal comes with the signal: if it
/// is the only one that is pending and not blocked, it is delivered with that
/// action. Setting an action leaves those of all other signals.
pub proof fn law_set_action_is_delivered(s: SchedulerView, n: u64, action: LinuxSigAction)
    requires
        s.wf(),
        1 <= n <= 64,
        s.task().process is Some,
        forall|k: int|
            1 <= k <= 64 ==> ((#[trigger] has_signal(s.task().pending_signals, k) && !has_signal(
                s.task().blocked_mask,
                k,
            )) <==> k == n),
    ensures
        signals::signal_taken(signals::with_action(s, n, action)).1 == Some((n, action)),
        forall|k: int|
            0 <= k <= 64 && k != n ==> #[trigger] signals::actions_of(
                signals::with_action(s, n, action),
            )[k] == signals::actions_of(s)[k],
{
    assert(scheduler::task_ok(s.tasks[s.current], s));
    let set = signals::with_action(s, n, action);
    law_delivered_with_its_action(set);
    assert(s.actions[s.task().signal_actions as int].len() == 65);
    assert(has_signal(s.task().pending_signals, n as int));
    assert(has_signal(set.task().pending_signals, n as int));
}

// ---------------------------------------------------------------------------
// Turns
// ---------------------------------------------------------------------------
/// A task that a tick of the timer took the processor from goes on where it
/// was: the next tick that gives it back, with nothing else having changed the
/// task, gives the registers of the first, its address space and its
/// thread-local storage.
pub proof fn law_preempted_task_resumes(
    s: SchedulerView,
    c: InterruptContext,
    later: SchedulerView,
    d: InterruptContext,
)
    requires
        0 <= s.current < s.tasks.len(),
        0 <= later.current < later.tasks.len(),
        switch::ticked(s, c).1 is Some,
        s.current < later.tasks.len(),
        later.tasks[s.current] == switch::ticked(s, c).0.tasks[s.current],
        switch::ticked(later, d).1 is Some,
        switch::ticked(later, d).0.current == s.current,
    ensures
        ({
            let resumed = switch::ticked(later, d).1->0;
            &&& resumed.context == c
            &&& resumed.fs_base == s.task().fs_base
            &&& s.task().process matches Some(p) ==> resumed.space
                == later.processes[p as int].space
        }),
{
}

/// A task that a tick of the timer took the processor from and that a system
/// call of another gives it back to has its registers too.
pub proof fn law_preempted_task_resumes_by_call(
    s: SchedulerView,
    c: InterruptContext,
    later: SchedulerView,
    d: UserContext,
)
    requires
        0 <= s.current < s.tasks.len(),
        0 <= later.current < later.tasks.len(),
        later.current != s.current,
        switch::ticked(s, c).1 is Some,
        s.current < later.tasks.len(),
        later.tasks[s.current] == switch::ticked(s, c).0.tasks[s.current],
        switch::yielded(later, d).current == s.current,
    ensures
        ({
            let resumed = switch::target(switch::yielded(later, d), s.current);
            &&& same_registers(resumed.context, c)
            &&& resumed.fs_base == s.task().fs_base
        }),
{
}

/// Whether the registers of a system call and of an interrupt are the same, as
/// far as both hold them.
pub open spec fn same_registers(u: UserContext, i: InterruptContext) -> bool {
    &&& u.return_value == i.rax
    &&& u.rbx == i.rbx
    &&& u.rbp == i.rbp
    &&& u.r12 == i.r12
    &&& u.r13 == i.r13
    &&& u.r14 == i.r14
    &&& u.r15 == i.r15
    &&& u.rdi == i.rdi
    &&& u.rsi == i.rsi
    &&& u.rdx == i.rdx
    &&& u.r8 == i.r8
    &&& u.r9 == i.r9
    &&& u.r10 == i.r10
    &&& u.instruction_pointer == i.instruction_pointer
    &&& u.flags == i.flags
    &&& u.stack_pointer == i.stack_pointer
}

/// A task that gives way by a system call goes on after it, whichever way it is
/// given the processor back.
pub proof fn law_yielding_task_resumes(
    s: SchedulerView,
    c: UserContext,
    later: SchedulerView,
    by_call: UserContext,
    by_tick: InterruptContext,
)
    requires
        0 <= s.current < s.tasks.len(),
        0 <= later.current < later.tasks.len(),
        later.current != s.current,
        s.current < later.tasks.len(),
        later.tasks[s.current] == switch::yielded(s, c).tasks[s.current],
    ensures
        switch::yielded(later, by_call).current == s.current ==> switch::target(
            switch::yielded(later, by_call),
            s.current,
        ).context == c,
        switch::ticked(later, by_tick).0.current == s.current ==> {
            &&& switch::ticked(later, by_tick).1 matches Some(resumed)
            &&& resumed.context.rax == c.return_value
            &&& resumed.context.instruction_pointer == c.instruction_pointer
            &&& resumed.context.stack_pointer == c.stack_pointer
            &&& resumed.context.flags == c.flags
            &&& resumed.context.rbx == c.rbx
            &&& resumed.context.rbp == c.rbp
            &&& resumed.context.r12 == c.r12
            &&& resumed.context.r13 == c.r13
            &&& resumed.context.r14 == c.r14
            &&& resumed.context.r15 == c.r15
        },
{
}

/// A turn is three ticks of the timer: at the first two the task goes on and
/// nothing but the clock changes; at the third, another that can run gets the
/// processor, if there is one.
pub proof fn law_turn_is_three_ticks(
    s: SchedulerView,
    c1: InterruptContext,
    c2: InterruptContext,
    c3: InterruptContext,
    other: int,
)
    requires
        0 <= s.current < s.tasks.len(),
        s.slice_ticks == 0,
        0 <= other < s.tasks.len(),
        other != s.current,
        s.tasks[other].state is Runnable,
    ensures
        ({
            let (s1, r1) = switch::ticked(s, c1);
            let (s2, r2) = switch::ticked(s1, c2);
            let (s3, r3) = switch::ticked(s2, c3);
            &&& r1 is None
            &&& r2 is None
            &&& r3 is Some
            &&& s1.tasks == s.tasks && s2.tasks == s.tasks
            &&& s1.current == s.current && s2.current == s.current
            &&& s3.current != s.current
            &&& s3.tasks[s3.current].state is Runnable
            &&& s3.slice_ticks == 0
            &&& forall|j: int| 0 <= j < s.tasks.len() && j != s.current ==> #[trigger] s3.tasks[j]
                == s.tasks[j]
        }),
{
    let s1 = switch::ticked(s, c1).0;
    let s2 = switch::ticked(s1, c2).0;
    law_next_is_nearest(s.tasks, s.current, other);
    switch::law_runnable_task_found(s.tasks, s.current, other);
}

/// How far a task is from another, going round.
pub open spec fn distance(count: int, from: int, to: int) -> int {
    if to > from {
        to - from
    } else {
        to - from + count
    }
}

/// The task that is next is the nearest that can run, going round; itself is
/// the farthest.
pub proof fn law_next_is_nearest(tasks: Seq<Task>, current: int, other: int)
    requires
        0 <= current < tasks.len(),
        0 <= other < tasks.len(),
        tasks[other].state is Runnable,
    ensures
        ({
            &&& switch::next_runnable(tasks, current) matches Some(i)
            &&& 0 <= i < tasks.len()
            &&& tasks[i].state is Runnable
            &&& distance(tasks.len() as int, current, i) <= distance(
                tasks.len() as int,
                current,
                other,
            )
        }),
{
    let n = tasks.len() as int;
    let d = distance(n, current, other);
    lemma_nearest(tasks, current, other, 1);
}

proof fn lemma_around(n: int, current: int, offset: int)
    requires
        0 <= current < n,
        1 <= offset <= n,
    ensures
        ({
            let i = (current + offset) % n;
            0 <= i < n && distance(n, current, i) == offset
        }),
{
    if current + offset < n {
        vstd::arithmetic::div_mod::lemma_small_mod((current + offset) as nat, n as nat);
    } else {
        let k = current + offset - n;
        vstd::arithmetic::div_mod::lemma_mod_add_multiples_vanish(k, n);
        vstd::arithmetic::div_mod::lemma_small_mod(k as nat, n as nat);
    }
}

proof fn lemma_nearest(tasks: Seq<Task>, current: int, other: int, from: int)
    requires
        0 <= current < tasks.len(),
        0 <= other < tasks.len(),
        tasks[other].state is Runnable,
        1 <= from <= distance(tasks.len() as int, current, other),
    ensures
        ({
            &&& switch::next_from(tasks, current, from) matches Some(i)
            &&& 0 <= i < tasks.len()
            &&& tasks[i].state is Runnable
            &&& distance(tasks.len() as int, current, i) <= distance(
                tasks.len() as int,
                current,
                other,
            )
        }),
    decreases tasks.len() - from,
{
    let n = tasks.len() as int;
    let d = distance(n, current, other);
    assert(d <= n);
    lemma_around(n, current, from);
    lemma_around(n, current, d);
    let i = (current + from) % n;
    assert((current + d) % n == other);
    if !(tasks[i].state is Runnable) {
        assert(from != d);
        lemma_nearest(tasks, current, other, from + 1);
    }
}

} // verus!
