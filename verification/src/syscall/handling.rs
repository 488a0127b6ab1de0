//! What holds of programs that handle signals and talk to the kernel.
use vstd::prelude::*;

use crate::abi::Rights;
use crate::bytes;
use crate::paging::MachineView;
use crate::scheduler::{DescriptorResource, LinuxSigAction, SchedulerView, Task};
use crate::scheduler::descriptors;
use crate::scheduler::endings;
use crate::scheduler::laws;
use crate::scheduler::lifecycle;
use crate::scheduler::signals;
use crate::scheduler::switch;
use crate::syscall::{CpuLocal, Frame, KernelView, SYSCALL_ERROR, StepView};
use crate::syscall::files;
use crate::syscall::laws as memory_laws;
use crate::syscall::linux_tasks::{self, VectoredView};
use crate::syscall::memory;
use crate::syscall::signal_frame;

verus! {

// ---------------------------------------------------------------------------
// Handling a signal
// ---------------------------------------------------------------------------
proof fn lemma_part_read(m: MachineView, address: u64, all: Seq<u8>, from: nat, n: nat)
    requires
        memory::bytes_at(m, address, all.len()) == Some(all),
        from + n <= all.len(),
        address + all.len() <= u64::MAX,
    ensures
        memory::bytes_at(m, (address + from) as u64, n) == Some(
            all.subrange(from as int, (from + n) as int),
        ),
    decreases n,
{
    if n == 0 {
        assert(all.subrange(from as int, from as int) =~= Seq::<u8>::empty());
    } else {
        lemma_part_read(m, address, all, from, (n - 1) as nat);
        lemma_byte_read(m, address, all, (from + n - 1) as nat);
        assert(all.subrange(from as int, (from + n) as int) =~= all.subrange(
            from as int,
            from + n - 1,
        ).push(all[from + n - 1]));
    }
}

proof fn lemma_byte_read(m: MachineView, address: u64, all: Seq<u8>, k: nat)
    requires
        memory::bytes_at(m, address, all.len()) == Some(all),
        k < all.len(),
    ensures
        memory::place(m, (address + k) as u64, false) matches Some(p) && m.ram[p] == all[k as int],
    decreases all.len(),
{
    let n = all.len();
    let before = memory::bytes_at(m, address, (n - 1) as nat);
    memory::lemma_bytes_at(m, address, (n - 1) as nat);
    assert(before is Some);
    if k < n - 1 {
        assert(before->0 =~= all.drop_last());
        lemma_byte_read(m, address, all.drop_last(), k);
    }
}

proof fn lemma_words_of_both(a: Seq<u64>, b: Seq<u64>, n: int)
    requires
        0 <= n <= b.len(),
    ensures
        signal_frame::word_bytes(a + b, a.len() + n) == signal_frame::word_bytes(a, a.len() as int)
            + signal_frame::word_bytes(b, n),
    decreases n,
{
    if n == 0 {
        lemma_words_of_first(a, b, a.len() as int);
        assert(signal_frame::word_bytes(a, a.len() as int) + Seq::<u8>::empty()
            =~= signal_frame::word_bytes(a, a.len() as int));
    } else {
        lemma_words_of_both(a, b, n - 1);
        let x = signal_frame::word_bytes(a, a.len() as int);
        let y = signal_frame::word_bytes(b, n - 1);
        let z = bytes::le64_bytes(b[n - 1]);
        assert((a + b)[a.len() + n - 1] == b[n - 1]);
        assert((x + y) + z =~= x + (y + z));
    }
}

proof fn lemma_words_of_first(a: Seq<u64>, b: Seq<u64>, n: int)
    requires
        0 <= n <= a.len(),
    ensures
        signal_frame::word_bytes(a + b, n) == signal_frame::word_bytes(a, n),
    decreases n,
{
    if n > 0 {
        lemma_words_of_first(a, b, n - 1);
        assert((a + b)[n - 1] == a[n - 1]);
    }
}

/// The state of a program is in the frame of a signal behind the first word.
proof fn lemma_state_in_frame(f: Frame, rsp: u64, mask: u64, signo: u64, back: u64)
    ensures
        ({
            let all = signal_frame::all_words(
                signal_frame::frame_words(f, rsp, mask, signo, back),
            );
            let state = signal_frame::all_words(signal_frame::state_words(f, rsp, mask));
            &&& all.len() == 952
            &&& state.len() == 816
            &&& all.subrange(8, 824) == state
        }),
{
    let first = seq![back];
    let state = signal_frame::state_words(f, rsp, mask);
    let info = signal_frame::info_words(signo);
    let words = signal_frame::frame_words(f, rsp, mask, signo, back);
    assert(state.len() == 102);
    assert(words =~= (first + state) + info);
    lemma_words_of_both(first + state, info, info.len() as int);
    lemma_words_of_both(first, state, state.len() as int);
    signal_frame::lemma_word_bytes(first, 1);
    signal_frame::lemma_word_bytes(state, 102);
    signal_frame::lemma_word_bytes(info, 16);
    let x = signal_frame::word_bytes(first, 1);
    let y = signal_frame::word_bytes(state, 102);
    let z = signal_frame::word_bytes(info, 16);
    assert(signal_frame::all_words(words) == (x + y) + z);
    assert(((x + y) + z).subrange(8, 824) =~= y);
}

/// A program that gets a signal runs its handler, with the number of the signal
/// as its first argument, on its own stack below what is there; and when the
/// handler returns, it goes on just where it was: with the result of the call,
/// all its registers, its stack and the signals that it had blocked.
#[verifier::spinoff_prover]
#[verifier::rlimit(60)]
pub proof fn law_handler_returns(
    k: KernelView,
    value: u64,
    s: SchedulerView,
    signo: u64,
    action: LinuxSigAction,
    sp: u64,
    last: Frame,
)
    requires
        !signal_frame::goes_on(value),
        k.scheduler == Some(s),
        s.wf(),
        signals::signal_taken(s).1 == Some((signo, action)),
        action.sa_handler > 1,
        signal_frame::frame_place(k.cpu.user_rsp) == Some(sp),
        memory_laws::is_memory(k.machine, sp, 968),
    ensures
        ({
            let (handling, result) = signal_frame::delivered(k, value);
            let ending = KernelView {
                cpu: CpuLocal { user_rsp: (sp + 8) as u64, frame: last, ..handling.cpu },
                ..handling
            };
            let (after, again) = signal_frame::user_return(ending);
            &&& handling.cpu.frame.rcx == action.sa_handler
            &&& handling.cpu.frame.rdi == signo
            &&& handling.cpu.user_rsp == sp
            &&& sp + 968 <= k.cpu.user_rsp
            &&& sp % 16 == 8
            &&& again == value
            &&& after.cpu.frame == Frame {
                rax: value,
                r11: k.cpu.frame.r11 | 0x202,
                ..k.cpu.frame
            }
            &&& after.cpu.user_rsp == k.cpu.user_rsp
            &&& after.scheduler matches Some(t)
            &&& t.task().blocked_mask == signals::blockable(s.task().blocked_mask)
        }),
{
    let rsp = k.cpu.user_rsp;
    let f = Frame { rax: value, ..k.cpu.frame };
    let s1 = signals::signal_taken(s).0;
    let blocked = s1.task().blocked_mask;
    assert(blocked == s.task().blocked_mask);
    let back = signal_frame::return_place(action, sp);
    let words = signal_frame::all_words(
        signal_frame::frame_words(f, rsp, blocked, signo, back),
    );
    let state = signal_frame::all_words(signal_frame::state_words(f, rsp, blocked));
    lemma_state_in_frame(f, rsp, blocked, signo, back);
    let all = words + signal_frame::return_code();
    assert(all.len() == 968);
    memory_laws::law_given_then_taken(k.machine, sp, all);
    let m = memory::given(k.machine, sp, all, 0).0;
    assert(sp + 968 <= rsp);
    lemma_part_read(m, sp, all, 8, 816);
    assert(all.subrange(8, 824) =~= words.subrange(8, 824));
    signal_frame::law_state_round_trip(f, rsp, blocked);
    let (handling, result) = signal_frame::delivered(k, value);
    assert(handling.machine == m);
    let ending = KernelView {
        cpu: CpuLocal { user_rsp: (sp + 8) as u64, frame: last, ..handling.cpu },
        ..handling
    };
    assert(memory::taken(ending.machine, (sp + 8) as u64, 816) == Some(state));
    assert(signal_frame::saved_state(ending) == Some(state));
    signals::law_never_blocked(blocked);
}

/// While a signal is handled it is blocked, unless the program asked otherwise,
/// and so are those that the action names and those that were blocked before;
/// but never kill and stop.
pub proof fn law_blocked_while_handling(blocked: u64, action: LinuxSigAction, signo: u64, n: int)
    requires
        1 <= signo <= 64,
        1 <= n <= 64,
        n != 9,
        n != 19,
    ensures
        ({
            let mask = signals::blockable(signal_frame::handling_mask(blocked, action, signo));
            &&& laws::has_signal(mask, n) <==> laws::has_signal(blocked, n) || laws::has_signal(
                action.sa_mask,
                n,
            ) || (n == signo && action.sa_flags / 0x4000_0000 % 2 == 0)
            &&& !laws::has_signal(mask, 9)
            &&& !laws::has_signal(mask, 19)
        }),
{
    let both = blocked | action.sa_mask;
    let all = signal_frame::handling_mask(blocked, action, signo);
    laws::lemma_signal_added(both, signo);
    lemma_either(blocked, action.sa_mask, (n - 1) as u64);
    lemma_blockable(all, (n - 1) as u64);
    assert(laws::has_signal(all, n) <==> laws::has_signal(both, n) || (n == signo
        && action.sa_flags / 0x4000_0000 % 2 == 0));
    let mask = signals::blockable(all);
    assert(mask == all & !0x4_0100u64);
    assert(laws::has_signal(mask, n) <==> laws::has_signal(all, n));
    assert((mask >> 8u64) & 1 == 0 && (mask >> 18u64) & 1 == 0);
}

proof fn lemma_either(a: u64, b: u64, i: u64)
    by (bit_vector)
    requires
        i < 64,
    ensures
        ((a | b) >> i) & 1 == 1 <==> (a >> i) & 1 == 1 || (b >> i) & 1 == 1,
        ((a & !b) >> i) & 1 == 1 <==> (a >> i) & 1 == 1 && (b >> i) & 1 != 1,
{
}

proof fn lemma_blockable(mask: u64, i: u64)
    by (bit_vector)
    requires
        i < 64,
        i != 8,
        i != 18,
    ensures
        ((mask & !0x4_0100u64) >> i) & 1 == (mask >> i) & 1,
        ((mask & !0x4_0100u64) >> 8u64) & 1 == 0,
        ((mask & !0x4_0100u64) >> 18u64) & 1 == 0,
{
}

/// A set of blocked signals becomes larger by those that are named, or smaller,
/// or is just those.
pub proof fn law_blocked_set_changes(current: u64, set: u64, n: int)
    requires
        1 <= n <= 64,
    ensures
        linux_tasks::masked(0, current, set) matches Some(more) && (laws::has_signal(more, n)
            <==> laws::has_signal(current, n) || laws::has_signal(set, n)),
        linux_tasks::masked(1, current, set) matches Some(fewer) && (laws::has_signal(fewer, n)
            <==> laws::has_signal(current, n) && !laws::has_signal(set, n)),
        linux_tasks::masked(2, current, set) == Some(set),
        forall|how: u64| how > 2 ==> #[trigger] linux_tasks::masked(how, current, set) is None,
{
    lemma_either(current, set, (n - 1) as u64);
}

/// A program that sets the signals that it blocks is told them when it asks: it
/// gets the set that it gave, but for kill and stop.
pub proof fn law_blocked_set_then_told(
    k: KernelView,
    s: SchedulerView,
    new: u64,
    set: u64,
    old: u64,
)
    requires
        k.scheduler == Some(s),
        s.wf(),
        new != 0,
        old != 0,
        memory::taken(k.machine, new, 8) == Some(bytes::le64_bytes(set)),
        memory_laws::is_memory(k.machine, old, 8),
    ensures
        ({
            let (k1, r1) = linux_tasks::user_mask(k, 2, new, 0, 8);
            let (k2, r2) = linux_tasks::user_mask(k1, 0, 0, old, 8);
            &&& r1 == 0
            &&& r2 == 0
            &&& memory::taken(k2.machine, old, 8) == Some(
                bytes::le64_bytes(signals::blockable(set)),
            )
            &&& k2.scheduler == k1.scheduler
            &&& k1.scheduler->0 == s.with_current(
                Task { blocked_mask: signals::blockable(set), ..s.task() },
            )
        }),
{
    let none = Seq::<u8>::empty();
    bytes::le_round_trip(none, none, 0, 0, set);
    assert(none + bytes::le64_bytes(set) + none =~= bytes::le64_bytes(set));
    signals::law_never_blocked(set);
    memory_laws::law_given_then_taken(k.machine, old, bytes::le64_bytes(signals::blockable(set)));
}

// ---------------------------------------------------------------------------
// Reading and writing
// ---------------------------------------------------------------------------
/// What a program reads from a file is in its memory: the file's bytes from
/// where it was on, as many as the call says, which is as many as were asked
/// for or are left.
pub proof fn law_file_read_to_memory(k: KernelView, fd: u64, f: usize, pointer: u64, length: u64)
    requires
        k.scheduler is Some,
        k.scheduler->0.wf(),
        memory_laws::reads_file(k, fd, f),
        length <= 65536,
        memory_laws::is_memory(k.machine, pointer, length as int),
    ensures
        ({
            let file = k.scheduler->0.objects.files[f as int];
            let n = if length <= file.contents.len() - file.offset {
                length as int
            } else {
                file.contents.len() - file.offset
            };
            let (after, step) = files::user_read(k, fd, pointer, length);
            &&& step == StepView::Done(n as u64)
            &&& memory::bytes_at(after.machine, pointer, n as nat) == Some(
                file.contents.subrange(file.offset, file.offset + n),
            )
            &&& after.scheduler->0.objects.files[f as int].offset == file.offset + n
        }),
{
    let s = k.scheduler->0;
    let file = s.objects.files[f as int];
    assert(0 <= file.offset <= file.contents.len());
    let n = if length <= file.contents.len() - file.offset {
        length as int
    } else {
        file.contents.len() - file.offset
    };
    let bytes = file.contents.subrange(file.offset, file.offset + n);
    memory_laws::lemma_part_is_memory(k.machine, pointer, length as int, n);
    memory_laws::law_given_then_taken(k.machine, pointer, bytes);
}

/// What a program writes to a pipe from its memory is what is read from the
/// pipe, behind what was there.
pub proof fn law_pipe_written_from_memory(
    k: KernelView,
    s: SchedulerView,
    fd: u64,
    p: usize,
    pointer: u64,
    bytes: Seq<u8>,
)
    requires
        k.scheduler == Some(s),
        s.wf(),
        writes_pipe(s, fd, p),
        memory::taken(k.machine, pointer, bytes.len() as u64) == Some(bytes),
        bytes.len() <= 65536,
    ensures
        ({
            let (after, step) = files::user_write(k, fd, pointer, bytes.len() as u64);
            &&& step == StepView::Done(bytes.len() as u64)
            &&& after.machine == k.machine
            &&& after.scheduler matches Some(t)
            &&& t.objects.pipes[p as int].bytes == s.objects.pipes[p as int].bytes + bytes
            &&& writes_pipe(t, fd, p)
        }),
{
    descriptors::lemma_table(s);
    let after = files::user_write(k, fd, pointer, bytes.len() as u64).0;
    let t = after.scheduler->0;
    assert(t.tasks[t.current].descriptors == s.tasks[s.current].descriptors);
    assert(t.table() == s.table());
}

/// Whether a descriptor is the end of a pipe that can be written.
pub open spec fn writes_pipe(s: SchedulerView, fd: u64, p: usize) -> bool {
    &&& descriptors::descriptor_at(s, fd) matches Some(d)
    &&& d.resource == DescriptorResource::PipeWrite(p)
    &&& d.rights.has(Rights(2))
    &&& p < s.objects.pipes.len()
    &&& s.objects.pipes[p as int].writer_open
    &&& 0 <= s.current < s.tasks.len()
}

/// What is in the buffers of a table, from the `index`-th on, one after the
/// other; `None` if one cannot be read.
pub open spec fn gathered(m: MachineView, table: u64, count: u64, index: u64) -> Option<Seq<u8>>
    decreases count - index,
{
    if index >= count {
        Some(Seq::empty())
    } else {
        match linux_tasks::buffer_at(m, table, index) {
            None => None,
            Some((base, length)) => match (
                memory::taken(m, base, length),
                gathered(m, table, count, (index + 1) as u64),
            ) {
                (Some(a), Some(b)) => Some(a + b),
                _ => None,
            },
        }
    }
}

/// Several buffers that are written to a pipe go there one after the other, and
/// the call gives how many bytes that was.
pub proof fn law_buffers_written_in_order(
    k: KernelView,
    s: SchedulerView,
    fd: u64,
    p: usize,
    table: u64,
    count: u64,
    index: u64,
    total: u64,
    all: Seq<u8>,
)
    requires
        k.scheduler == Some(s),
        writes_pipe(s, fd, p),
        index <= count,
        gathered(k.machine, table, count, index) == Some(all),
        total + all.len() < SYSCALL_ERROR,
    ensures
        ({
            let (after, r) = linux_tasks::buffers_written(k, fd, table, count, index, total);
            &&& r == VectoredView::Finished((total + all.len()) as u64)
            &&& after.machine == k.machine
            &&& after.scheduler matches Some(t)
            &&& t.objects.pipes[p as int].bytes == s.objects.pipes[p as int].bytes + all
        }),
    decreases count - index,
{
    if index == count {
        assert(s.objects.pipes[p as int].bytes + all =~= s.objects.pipes[p as int].bytes);
    } else {
        let (base, length) = linux_tasks::buffer_at(k.machine, table, index)->0;
        let a = memory::taken(k.machine, base, length)->0;
        let b = gathered(k.machine, table, count, (index + 1) as u64)->0;
        memory::lemma_bytes_at(k.machine, base, length as nat);
        assert(all == a + b);
        if length == 0 {
            assert(a + b =~= b);
            law_buffers_written_in_order(
                k,
                s,
                fd,
                p,
                table,
                count,
                (index + 1) as u64,
                total,
                b,
            );
        } else {
            let (k1, step) = files::user_write(k, fd, base, length);
            let t = k1.scheduler->0;
            assert(step == StepView::Done(length));
            assert(t.tasks[t.current].descriptors == s.tasks[s.current].descriptors);
            assert(t.table() == s.table());
            assert(t.objects.pipes[p as int].bytes == s.objects.pipes[p as int].bytes + a);
            law_buffers_written_in_order(
                k1,
                t,
                fd,
                p,
                table,
                count,
                (index + 1) as u64,
                (total + length) as u64,
                b,
            );
            assert((s.objects.pipes[p as int].bytes + a) + b =~= s.objects.pipes[p as int].bytes
                + all);
        }
    }
}

// ---------------------------------------------------------------------------
// Children, threads, words
// ---------------------------------------------------------------------------
/// A Linux program that asks for a child that has exited gets its number, and
/// where it asked for it the status: two bytes, of which the second is the
/// lowest of the code, and two of zero.
pub proof fn law_child_status_in_memory(
    k: KernelView,
    s: SchedulerView,
    pid: u64,
    pointer: u64,
    child: u64,
    code: u64,
)
    requires
        k.scheduler == Some(s),
        pointer != 0,
        memory_laws::is_memory(k.machine, pointer, 4),
        lifecycle::child_reaped(
            s,
            if pid == 0 {
                u64::MAX
            } else {
                pid
            },
        ).1 == Ok::<Option<(u64, u64)>, ()>(Some((child, code))),
    ensures
        ({
            let (after, r) = linux_tasks::user_wait4(k, pid, pointer);
            &&& r == child
            &&& memory::bytes_at(after.machine, pointer, 4) == Some(
                seq![0u8, (code % 256) as u8, 0u8, 0u8],
            )
        }),
{
    let status = lifecycle::exit_status(code);
    endings::law_status_tells_code(code);
    assert(bytes::le32_bytes(status) =~= seq![0u8, (code % 256) as u8, 0u8, 0u8]);
    memory_laws::law_given_then_taken(k.machine, pointer, bytes::le32_bytes(status));
}

/// The base of thread-local storage that a program sets is the one that it is
/// told, and the one that it goes on with when it runs again.
pub proof fn law_thread_storage(k: KernelView, s: SchedulerView, base: u64, pointer: u64)
    requires
        k.scheduler == Some(s),
        0 <= s.current < s.tasks.len(),
        base < 0x8000_0000_0000,
        0 < pointer < 0x8000_0000_0000,
        memory_laws::is_memory(k.machine, pointer, 8),
    ensures
        ({
            let (k1, step1) = linux_tasks::user_arch(k, 0x1002, base);
            let (k2, step2) = linux_tasks::user_arch(k1, 0x1003, pointer);
            &&& step1 == StepView::SetFsBase { address: base }
            &&& step2 == StepView::Done(0)
            &&& memory::bytes_at(k2.machine, pointer, 8) == Some(bytes::le64_bytes(base))
            &&& k1.scheduler matches Some(t)
            &&& switch::target(t, t.current).fs_base == base
        }),
{
    memory_laws::law_given_then_taken(k.machine, pointer, bytes::le64_bytes(base));
}

/// A program waits at a word only while the word has the value that it expects;
/// otherwise it is told to try again and nothing changes.
pub proof fn law_futex_waits_on_value(k: KernelView, uaddr: u64, expected: u32, found: u32)
    requires
        0 < uaddr < 0x8000_0000_0000,
        memory::taken(k.machine, uaddr, 4) == Some(bytes::le32_bytes(found)),
    ensures
        ({
            let (after, r) = linux_tasks::user_futex(k, uaddr, 0, expected as u64, 0);
            if found == expected {
                &&& after.cpu.futex_uaddr == uaddr
                &&& after.cpu.futex_bitset == 0xffff_ffff
                &&& signal_frame::goes_on(r)
                &&& after.machine == k.machine
                &&& after.scheduler == k.scheduler
            } else {
                after == k && r == 0xffff_ffff_ffff_fff5
            }
        }),
{
    let none = Seq::<u8>::empty();
    bytes::le_round_trip(none, none, 0, found, 0);
    assert(none + bytes::le32_bytes(found) + none =~= bytes::le32_bytes(found));
    assert(0u32 & 0xffff_fe7f == 0) by (bit_vector);
}

/// A program that wakes at a word wakes as many as it asks for, or all that
/// wait there, and is told how many.
pub proof fn law_futex_wakes(k: KernelView, s: SchedulerView, uaddr: u64, count: u32)
    requires
        k.scheduler == Some(s),
        0 < uaddr < 0x8000_0000_0000,
        s.tasks.len() <= usize::MAX,
    ensures
        ({
            let (after, r) = linux_tasks::user_futex(k, uaddr, 1, count as u64, 0);
            &&& after.scheduler matches Some(t)
            &&& r <= count
            &&& r == endings::changed(s.tasks, t.tasks, s.tasks.len() as int)
            &&& t.tasks.len() == s.tasks.len()
            &&& r < count ==> forall|j: int|
                0 <= j < s.tasks.len() && endings::waits_at(s.tasks[j], uaddr, 0xffff_ffff) ==> (
                #[trigger] t.tasks[j]).state is Runnable
            &&& forall|j: int|
                0 <= j < s.tasks.len() && !endings::waits_at(s.tasks[j], uaddr, 0xffff_ffff)
                    ==> #[trigger] t.tasks[j] == s.tasks[j]
            &&& after.machine == k.machine
        }),
{
    assert(1u32 & 0xffff_fe7f == 1) by (bit_vector);
    endings::law_futex_wakes_waiters(s.tasks, uaddr, count, 0xffff_ffff);
    let (tasks, n) = switch::futex_woken(s.tasks, uaddr, count as int, 0xffff_ffff, 0);
    let (after, r) = linux_tasks::user_futex(k, uaddr, 1, count as u64, 0);
    assert(after.scheduler == Some(SchedulerView { tasks, ..s }));
    assert(r == n);
}

/// What is told of events is a record of twelve bytes for each: the events,
/// then the mark that the program gave.
#[verifier::spinoff_prover]
#[verifier::rlimit(60)]
pub proof fn law_event_record(events: Seq<(u32, u64)>, n: int, i: int)
    requires
        0 <= i < n <= events.len(),
    ensures
        ({
            let all = linux_tasks::event_bytes(events, n);
            &&& all.len() == 12 * n
            &&& bytes::le32_at(all, 12 * i) == events[i].0
            &&& bytes::le64_at(all, 12 * i + 4) == events[i].1
        }),
    decreases n,
{
    let before = linux_tasks::event_bytes(events, n - 1);
    let (e, data) = events[n - 1];
    let all = linux_tasks::event_bytes(events, n);
    let x = bytes::le32_bytes(e);
    let y = bytes::le64_bytes(data);
    if n > 1 {
        law_event_record(
            events,
            n - 1,
            if i < n - 1 {
                i
            } else {
                0
            },
        );
    }
    assert(before.len() == 12 * (n - 1));
    assert(all == before + x + y);
    lemma_in_front(before + x, y, before, x);
    if i < n - 1 {
        lemma_still_there(before, x + y, 12 * i);
    } else {
        bytes::le_round_trip(before, y, 0, e, 0);
        bytes::le_round_trip(before + x, Seq::empty(), 0, 0, data);
    }
}

proof fn lemma_in_front(both: Seq<u8>, y: Seq<u8>, before: Seq<u8>, x: Seq<u8>)
    requires
        both == before + x,
    ensures
        both + y == before + (x + y),
        both + y + Seq::<u8>::empty() == both + y,
{
    assert(both + y =~= before + (x + y));
    assert(both + y + Seq::<u8>::empty() =~= both + y);
}

/// A record is read the same with more behind it.
proof fn lemma_still_there(before: Seq<u8>, more: Seq<u8>, at: int)
    requires
        0 <= at,
        at + 12 <= before.len(),
    ensures
        bytes::le32_at(before + more, at) == bytes::le32_at(before, at),
        bytes::le64_at(before + more, at + 4) == bytes::le64_at(before, at + 4),
{
    let all = before + more;
    assert(forall|j: int| 0 <= j < before.len() ==> all[j] == #[trigger] before[j]);
}

} // verus!
