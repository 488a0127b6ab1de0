//! What holds of what programs ask of the kernel, and of what they are told.
use vstd::prelude::*;

use crate::bytes;
use crate::linux;
use crate::paging::MachineView;
use crate::process::{self, ProcessView};
use crate::process::extents;
use crate::scheduler::{
    DescriptorResource, LinuxSigAction, SchedulerView, Shared, Task, TaskState,
};
use crate::scheduler::birth::CloneRequest;
use crate::scheduler::channels;
use crate::scheduler::descriptors;
use crate::scheduler::endings;
use crate::scheduler::laws;
use crate::scheduler::lifecycle;
use crate::scheduler::signals;
use crate::scheduler::transfer;
use crate::syscall::{self, ChangeView, KernelView, SYSCALL_ERROR, StepView};
use crate::syscall::dispatch::{self, Args, NativeCall};
use crate::syscall::files;
use crate::syscall::laws as memory_laws;
use crate::syscall::linux_files;
use crate::syscall::linux_tasks;
use crate::syscall::memory;
use crate::syscall::native;
use crate::syscall::signal_frame;
use crate::text;

verus! {

// ---------------------------------------------------------------------------
// Memory
// ---------------------------------------------------------------------------
/// A program that moves the end of its data is told where it is then: where it
/// asked, or where it was. One that asks for no place is told where it is.
pub proof fn law_data_end_told(k: KernelView, s: SchedulerView, p: usize, to: u64)
    requires
        k.scheduler == Some(s),
        0 <= s.current < s.tasks.len(),
        s.task().process == Some(p),
        p < s.processes.len(),
        s.processes[p as int].brk_current <= 0x7000_0000_0000,
    ensures
        ({
            let (after, end) = dispatch::user_brk(k, to);
            let before = s.processes[p as int];
            &&& after.scheduler matches Some(t)
            &&& end == t.processes[p as int].brk_current
            &&& end == to || end == before.brk_current
            &&& to == 0 ==> end == before.brk_current && after.machine == k.machine
            &&& extents::keeps_all(before.mappings, t.processes[p as int].mappings)
            &&& t.tasks == s.tasks
            &&& t.objects == s.objects
        }),
{
    extents::law_data_end_moves(k.machine, s.processes[p as int], to);
}

/// A program that unmaps memory loses pages of that range only; a range that
/// does not start at a page, or is empty, is refused and nothing changes.
pub proof fn law_unmap_request(
    k: KernelView,
    s: SchedulerView,
    p: usize,
    addr: u64,
    length: u64,
    x: process::MappedPage,
)
    requires
        k.scheduler == Some(s),
        0 <= s.current < s.tasks.len(),
        s.task().process == Some(p),
        p < s.processes.len(),
        addr + (length + 4095) / 4096 * 4096 <= u64::MAX,
        length + 4095 <= u64::MAX,
    ensures
        ({
            let (after, r) = dispatch::user_unmap(k, addr, length);
            if addr % 4096 != 0 || length == 0 {
                after == k && r == SYSCALL_ERROR
            } else {
                &&& r == 0
                &&& after.scheduler matches Some(t)
                &&& s.processes[p as int].mappings.contains(x) && !(addr <= x.virtual_address < addr
                    + (length + 4095) / 4096 * 4096) ==> t.processes[p as int].mappings.contains(x)
                &&& t.processes[p as int].mappings.contains(x)
                    ==> s.processes[p as int].mappings.contains(x)
            }
        }),
{
    extents::law_unmap_keeps_others(
        k.machine,
        s.processes[p as int].space,
        addr as int,
        addr + (length + 4095) / 4096 * 4096,
        s.processes[p as int].mappings,
        x,
    );
}

/// A change of protection is of all pages that hold part of the range, and of no
/// more, with what was asked for; a range that does not start at a page or is
/// not the program's is refused.
pub proof fn law_protect_request(addr: u64, length: u64, prot: u64)
    requires
        length > 0,
    ensures
        match linux_files::user_protect(addr, length, prot) {
            StepView::Protect { address, pages, flags, value, strict } => {
                &&& address == addr
                &&& addr % 4096 == 0
                &&& pages * 4096 >= length
                &&& pages * 4096 < length + 4096
                &&& addr + pages * 4096 < 0x8000_0000_0000
                &&& flags / 2 % 2 == 1 <==> prot / 2 % 2 == 1
                &&& flags / 0x8000_0000_0000_0000 == 0 <==> prot / 4 % 2 == 1
                &&& value == 0
                &&& strict
            },
            step => {
                &&& step == syscall::refused()
                &&& addr % 4096 != 0 || addr + length + 4096 > 0x8000_0000_0000
            },
        },
{
}

// ---------------------------------------------------------------------------
// Signals
// ---------------------------------------------------------------------------
/// A program that has set the action of a signal is told just that action.
pub proof fn law_action_set_then_told(
    k: KernelView,
    s: SchedulerView,
    signal: u64,
    new: u64,
    old: u64,
    action: LinuxSigAction,
)
    requires
        k.scheduler == Some(s),
        signals::actions_of(s).len() == 65,
        s.task().signal_actions < s.actions.len(),
        1 <= signal <= 64,
        signal != 9,
        signal != 19,
        new != 0,
        old != 0,
        memory::taken(k.machine, new, 32) == Some(linux_tasks::action_bytes(action)),
        memory_laws::is_memory(k.machine, old, 32),
    ensures
        ({
            let (k1, r1) = linux_tasks::user_action(k, signal, new, 0, 8);
            let (k2, r2) = linux_tasks::user_action(k1, signal, 0, old, 8);
            &&& r1 == 0
            &&& r2 == 0
            &&& memory::taken(k2.machine, old, 32) == Some(linux_tasks::action_bytes(action))
            &&& k1.scheduler matches Some(t)
            &&& signals::actions_of(t)[signal as int] == action
        }),
{
    let told = linux_tasks::action_bytes(action);
    let t = signals::with_action(s, signal, action);
    let k1 = k.with_scheduler(t);
    lemma_action_set(s, signal, action);
    lemma_action_taken(k, s, signal, new, action);
    lemma_action_told(k1, t, signal, old, told);
}

proof fn lemma_action_set(s: SchedulerView, signal: u64, action: LinuxSigAction)
    requires
        signals::actions_of(s).len() == 65,
        s.task().signal_actions < s.actions.len(),
        signal <= 64,
    ensures
        signals::actions_of(signals::with_action(s, signal, action))[signal as int] == action,
        linux_tasks::action_bytes(action).len() == 32,
{
}

proof fn lemma_action_taken(
    k: KernelView,
    s: SchedulerView,
    signal: u64,
    new: u64,
    action: LinuxSigAction,
)
    requires
        k.scheduler == Some(s),
        1 <= signal <= 64,
        signal != 9,
        signal != 19,
        new != 0,
        memory::taken(k.machine, new, 32) == Some(linux_tasks::action_bytes(action)),
    ensures
        linux_tasks::user_action(k, signal, new, 0, 8) == (
            k.with_scheduler(signals::with_action(s, signal, action)),
            0u64,
        ),
{
    linux_tasks::law_action_round_trip(action);
}

proof fn lemma_action_told(k: KernelView, s: SchedulerView, signal: u64, old: u64, told: Seq<u8>)
    requires
        k.scheduler == Some(s),
        1 <= signal <= 64,
        old != 0,
        told == linux_tasks::action_bytes(signals::actions_of(s)[signal as int]),
        told.len() == 32,
        memory_laws::is_memory(k.machine, old, 32),
    ensures
        linux_tasks::user_action(k, signal, 0, old, 8).1 == 0,
        memory::taken(linux_tasks::user_action(k, signal, 0, old, 8).0.machine, old, 32) == Some(
            told,
        ),
{
    memory_laws::law_given_then_taken(k.machine, old, told);
}

/// The actions of kill and stop cannot be set, nor can those of signals that
/// are not there.
pub proof fn law_action_refused(k: KernelView, signal: u64, new: u64, old: u64)
    requires
        new != 0,
        signal == 0 || signal == 9 || signal == 19 || signal > 64,
    ensures
        linux_tasks::user_action(k, signal, new, old, 8) == (k, SYSCALL_ERROR),
{
}

// ---------------------------------------------------------------------------
// Messages
// ---------------------------------------------------------------------------
/// A message that is received is in the program's memory, cut to the room that
/// it has, and the call gives how many bytes that are. Without one, the call
/// would block and nothing changes in memory.
pub proof fn law_message_in_memory(
    k: KernelView,
    fd: u64,
    pointer: u64,
    length: u64,
    s: SchedulerView,
    message: Seq<u8>,
)
    requires
        length <= 256,
        channels::received(k.scheduler, fd) == Some((s, Some(message))),
        memory_laws::is_memory(k.machine, pointer, length as int),
    ensures
        ({
            let (after, r) = native::user_receive(k, fd, pointer, length);
            let n = if message.len() <= length {
                message.len() as int
            } else {
                length as int
            };
            &&& r == n
            &&& memory::bytes_at(after.machine, pointer, n as nat) == Some(message.take(n))
            &&& after.scheduler == Some(s)
        }),
{
    let n = if message.len() <= length {
        message.len() as int
    } else {
        length as int
    };
    memory_laws::lemma_part_is_memory(k.machine, pointer, length as int, n);
    memory_laws::law_given_then_taken(k.machine, pointer, message.take(n));
}

/// A message that is sent is what is in the program's memory, all of it.
pub proof fn law_message_from_memory(k: KernelView, fd: u64, pointer: u64, message: Seq<u8>)
    requires
        message.len() <= 256,
        memory::taken(k.machine, pointer, message.len() as u64) == Some(message),
    ensures
        ({
            let (after, r) = native::user_send(k, fd, pointer, message.len() as u64);
            match channels::sent(k.scheduler, fd, message) {
                Some(s) => r == message.len() && after == k.with_scheduler(s),
                None => r == SYSCALL_ERROR && after == k,
            }
        }),
{
}

// ---------------------------------------------------------------------------
// Records
// ---------------------------------------------------------------------------
/// What is told of a file is in its places: the kind and access at byte 24, the
/// owner and the group behind it, the number of the device at 40, the size at
/// 48, and how many blocks of 512 bytes that are at 64.
#[verifier::spinoff_prover]
#[verifier::rlimit(40)]
pub proof fn law_stat_fields(mode: u32, owner: u32, rdev: u64, size: u64)
    requires
        size + 511 <= u64::MAX,
    ensures
        ({
            let r = linux::stat_record(mode, owner, rdev, size);
            &&& r.len() == 144
            &&& bytes::le32_at(r, 24) == mode
            &&& bytes::le32_at(r, 28) == owner
            &&& bytes::le32_at(r, 32) == owner
            &&& bytes::le64_at(r, 40) == rdev
            &&& bytes::le64_at(r, 48) == size
            &&& bytes::le64_at(r, 64) == (size + 511) / 512
        }),
{
    let r = linux::stat_record(mode, owner, rdev, size);
    let one = bytes::le64_bytes(1);
    let a = one + one + one;
    let m = bytes::le32_bytes(mode);
    let o = bytes::le32_bytes(owner);
    let z = bytes::le32_bytes(0);
    let d = bytes::le64_bytes(rdev);
    let n = bytes::le64_bytes(size);
    let b = bytes::le64_bytes(4096);
    let c = bytes::le64_bytes(((size + 511) / 512) as u64);
    let rest = bytes::zeros(72);
    bytes::le_round_trip(a, o + o + z + d + n + b + c + rest, 0, mode, 0);
    assert(a + m + (o + o + z + d + n + b + c + rest) =~= r);
    bytes::le_round_trip(a + m, o + z + d + n + b + c + rest, 0, owner, 0);
    assert((a + m) + o + (o + z + d + n + b + c + rest) =~= r);
    bytes::le_round_trip(a + m + o, z + d + n + b + c + rest, 0, owner, 0);
    assert((a + m + o) + o + (z + d + n + b + c + rest) =~= r);
    bytes::le_round_trip(a + m + o + o + z, n + b + c + rest, 0, 0, rdev);
    assert((a + m + o + o + z) + d + (n + b + c + rest) =~= r);
    bytes::le_round_trip(a + m + o + o + z + d, b + c + rest, 0, 0, size);
    assert((a + m + o + o + z + d) + n + (b + c + rest) =~= r);
    bytes::le_round_trip(
        a + m + o + o + z + d + n + b,
        rest,
        0,
        0,
        ((size + 511) / 512) as u64,
    );
    assert((a + m + o + o + z + d + n + b) + c + rest =~= r);
}

/// An entry of a directory says its own length, which is a multiple of eight
/// and has room for its name and a zero behind it; the name stands at byte 19,
/// and whether it is that of a directory before it.
#[verifier::spinoff_prover]
#[verifier::rlimit(40)]
pub proof fn law_entry_fields(name: Seq<u8>, index: int)
    requires
        0 <= index < u64::MAX,
        name.len() <= 65000,
    ensures
        ({
            let r = linux::entry_record(name, index);
            &&& r.len() == linux::entry_length(name)
            &&& r.len() % 8 == 0
            &&& r.len() >= 20 + name.len()
            &&& r.len() < 28 + name.len()
            &&& bytes::le64_at(r, 0) == index + 1
            &&& bytes::le64_at(r, 8) == index + 1
            &&& bytes::le16_at(r, 16) == r.len()
            &&& r[18] == (if name.len() > 0 && name.last() == 47 {
                4u8
            } else {
                8u8
            })
            &&& r.subrange(19, 19 + name.len() as int) == name
            &&& r[19 + name.len() as int] == 0
        }),
{
    let r = linux::entry_record(name, index);
    let n = (index + 1) as u64;
    let length = linux::entry_length(name);
    let w = bytes::le64_bytes(n);
    let l = bytes::le16_bytes((length % 65536) as u16);
    let kind = seq![
        if name.len() > 0 && name.last() == 47 {
            4u8
        } else {
            8u8
        },
    ];
    let zeros = bytes::zeros((length - 19 - name.len()) as nat);
    let none = Seq::<u8>::empty();
    bytes::le_round_trip(none, w + l + kind + name + zeros, 0, 0, n);
    assert(none + w + (w + l + kind + name + zeros) =~= r);
    bytes::le_round_trip(w, l + kind + name + zeros, 0, 0, n);
    assert(w + w + (l + kind + name + zeros) =~= r);
    bytes::le_round_trip(w + w, kind + name + zeros, (length % 65536) as u16, 0, 0);
    assert((w + w) + l + (kind + name + zeros) =~= r);
    assert(r.subrange(19, 19 + name.len() as int) =~= name);
}

/// Entries of a directory, one behind the other.
pub open spec fn records_of(entries: Seq<Seq<u8>>, from: int, to: int) -> Seq<u8>
    decreases to - from,
{
    if from >= to {
        Seq::empty()
    } else {
        records_of(entries, from, to - 1) + linux::entry_record(entries[to - 1], to - 1)
    }
}

proof fn lemma_records(entries: Seq<Seq<u8>>, start: int, i: int, read: Seq<u8>, limit: int)
    requires
        0 <= start <= i <= entries.len(),
        read == records_of(entries, start, i),
    ensures
        ({
            let (all, end) = transfer::records_from(entries, i, read, limit);
            i <= end <= entries.len() && all == records_of(entries, start, end)
        }),
    decreases entries.len() - i,
{
    if i < entries.len() {
        let more = read + linux::entry_record(entries[i], i);
        assert(more == records_of(entries, start, i + 1));
        lemma_records(entries, start, i + 1, more, limit);
    }
}

/// Entries of a directory are given out in order, none twice and none left out,
/// at least one as long as one is left.
pub proof fn law_entries_in_order(entries: Seq<Seq<u8>>, from: int, limit: int)
    requires
        0 <= from <= entries.len(),
    ensures
        ({
            let (all, end) = transfer::records_from(entries, from, Seq::empty(), limit);
            &&& from <= end <= entries.len()
            &&& all == records_of(entries, from, end)
            &&& from < entries.len() ==> end > from
        }),
{
    lemma_records(entries, from, from, Seq::empty(), limit);
    if from < entries.len() {
        let one = Seq::<u8>::empty() + linux::entry_record(entries[from], from);
        assert(one == records_of(entries, from, from + 1)) by {
            reveal_with_fuel(records_of, 2);
        }
        lemma_records(entries, from, from + 1, one, limit);
    }
}

/// What a program is told of a file that it has opened is how long that is.
pub proof fn law_open_file_described(k: KernelView, fd: u64, f: usize, pointer: u64)
    requires
        memory_laws::reads_file(k, fd, f),
        k.scheduler->0.objects.files[f as int].contents.len() + 511 <= u64::MAX,
        memory_laws::is_memory(k.machine, pointer, 144),
    ensures
        ({
            let (after, r) = linux_files::user_fstat(k, fd, pointer);
            let size = k.scheduler->0.objects.files[f as int].contents.len();
            &&& r == 0
            &&& memory::bytes_at(after.machine, pointer, 144) matches Some(record)
            &&& bytes::le64_at(record, 48) == size
            &&& bytes::le32_at(record, 24) == 0o100644
        }),
{
    let size = k.scheduler->0.objects.files[f as int].contents.len() as u64;
    law_stat_fields(0o100644, 1000, 0, size);
    memory_laws::law_given_then_taken(
        k.machine,
        pointer,
        linux::stat_record(0o100644, 1000, 0, size),
    );
}

/// A request for a thread, as a record of words, is taken as it is written: the
/// flags, the words for its number at the child and at the parent, the end of
/// its stack and its thread-local storage.
pub proof fn law_thread_request(m: MachineView, pointer: u64, words: Seq<u64>)
    requires
        words.len() == 8,
        0 < pointer < 0x8000_0000_0000,
        memory::taken(m, pointer, 64) == Some(signal_frame::all_words(words)),
        words[5] + words[6] <= u64::MAX,
    ensures
        linux_tasks::clone3_request(m, pointer, 64) == Some(
            CloneRequest {
                flags: words[0],
                child_stack: (words[5] + words[6]) as u64,
                parent_tidptr: words[3],
                child_tidptr: words[2],
                tls: words[7],
            },
        ),
        linux_tasks::clone3_request(m, pointer, 63) is None,
        linux_tasks::clone3_request(m, 0, 64) is None,
{
    signal_frame::law_word_round_trip(words, 8, 0);
    signal_frame::law_word_round_trip(words, 8, 2);
    signal_frame::law_word_round_trip(words, 8, 3);
    signal_frame::law_word_round_trip(words, 8, 5);
    signal_frame::law_word_round_trip(words, 8, 6);
    signal_frame::law_word_round_trip(words, 8, 7);
}

// ---------------------------------------------------------------------------
// Paths
// ---------------------------------------------------------------------------
/// A program without the administrator's rights may change what is below its
/// home and below the directory for temporary files, and those themselves, but
/// nothing else; the administrator may change everything.
pub proof fn law_own_places_only(s: SchedulerView, path: Seq<u8>)
    ensures
        s.task().credentials.uid == 0 ==> channels::may_mutate(Some(s), path),
        s.task().credentials.uid != 0 && channels::may_mutate(Some(s), path) ==> {
            ||| path == channels::tmp_path()
            ||| text::starts_with(path, channels::tmp_path().push(47))
            ||| path == channels::home_path()
            ||| text::starts_with(path, channels::home_path().push(47))
        },
        text::starts_with(path, channels::tmp_path().push(47)) ==> channels::may_mutate(
            Some(s),
            path,
        ),
        text::starts_with(path, channels::home_path().push(47)) ==> channels::may_mutate(
            Some(s),
            path,
        ),
        channels::tmp_path() == text::utf8("/tmp"@),
        channels::home_path() == text::utf8("/home/vanta"@),
{
    let t = channels::tmp_path();
    let h = channels::home_path();
    reveal_strlit("/tmp");
    reveal_strlit("/home/vanta");
    assert(vstd::utf8::is_ascii_chars("/tmp"@));
    assert(vstd::utf8::is_ascii_chars("/home/vanta"@));
    vstd::utf8::is_ascii_chars_encode_utf8("/tmp"@);
    vstd::utf8::is_ascii_chars_encode_utf8("/home/vanta"@);
    assert(t =~= text::utf8("/tmp"@));
    assert(h =~= text::utf8("/home/vanta"@));
    lemma_below(path, t);
    lemma_below(path, h);
}

proof fn lemma_below(path: Seq<u8>, root: Seq<u8>)
    ensures
        channels::within(path, root) <==> path == root || text::starts_with(path, root.push(47)),
{
    let n = root.len() as int;
    if path.len() > root.len() {
        if path.take(n) == root && path[n] == 47 {
            assert(path.take(n + 1) =~= root.push(47));
        }
        if path.take(n + 1) == root.push(47) {
            assert(path.take(n) =~= path.take(n + 1).drop_last());
            assert(root.push(47).drop_last() =~= root);
            assert(path[n] == path.take(n + 1)[n]);
        }
    }
}

/// What a native program asks to change is what is changed: a directory is made
/// or a path removed where it says, and a path is renamed to the other that it
/// says. A path that it may not change is refused.
pub proof fn law_change_request(
    k: KernelView,
    after: KernelView,
    a: Args,
    info: Seq<u8>,
    r: StepView,
    path: Seq<u8>,
    to: Seq<u8>,
)
    requires
        files::path_at(k.machine, a.a1, a.a2) == Some(path),
        files::path_at(k.machine, a.a3, a.a4) == Some(to),
        a.a3 > 1,
    ensures
        ({
            let may = channels::may_mutate(k.scheduler, path);
            &&& dispatch::native_dispatched(k, after, NativeCall::MkDir, a, info, r) ==> after == k
                && r == (if may {
                StepView::Change(ChangeView::CreateDirectory { path })
            } else {
                syscall::refused()
            })
            &&& dispatch::native_dispatched(k, after, NativeCall::Unlink, a, info, r) ==> after == k
                && r == (if may {
                StepView::Change(ChangeView::Remove { path })
            } else {
                syscall::refused()
            })
            &&& dispatch::native_dispatched(k, after, NativeCall::Rename, a, info, r) ==> after == k
                && r == (if may && channels::may_mutate(k.scheduler, to) {
                StepView::Change(ChangeView::Rename { from: path, to })
            } else {
                syscall::refused()
            })
        }),
{
}

/// Two numbers stand for one call only where neither stands for any.
pub proof fn law_calls_differ(a: u64, b: u64)
    requires
        dispatch::call_of(a) == dispatch::call_of(b),
        !(dispatch::call_of(a) is Unknown),
    ensures
        a == b,
{
}

// ---------------------------------------------------------------------------
// Threads
// ---------------------------------------------------------------------------
/// A signal for a thread reaches that thread alone: kill, and a deadly signal
/// without a handler, end it with 128 more than the number of the signal; one
/// with a handler is pending at it. No other task ends.
pub proof fn law_thread_signal(m: MachineView, s: SchedulerView, tid: u64, signal: u64)
    requires
        1 <= signal <= 64,
    ensures
        match signals::thread_alive(s.tasks, tid, 0) {
            None => signals::thread_signalled(m, s, tid, signal) is None && forall|j: int|
                0 <= j < s.tasks.len() && (#[trigger] s.tasks[j]).tid == tid
                    ==> s.tasks[j].process is None,
            Some(i) => {
                let handler = s.actions[s.tasks[i].signal_actions as int][signal as int].sa_handler;
                &&& 0 <= i < s.tasks.len()
                &&& s.tasks[i].tid == tid
                &&& signals::thread_signalled(m, s, tid, signal) matches Some((_, after))
                &&& after.tasks.len() == s.tasks.len()
                &&& forall|j: int|
                    0 <= j < s.tasks.len() && j != i ==> endings::same_or_woken(
                        s.tasks[j],
                        #[trigger] after.tasks[j],
                    )
                &&& signal == 9 || (handler == 0 && signal == 15) ==> after.tasks[i] == endings::gone(
                    s.tasks[i],
                    (128 + signal) as u64,
                )
                &&& signal != 9 && handler == 1 ==> after == s
                &&& signal != 9 && handler > 1 ==> laws::has_signal(
                    after.tasks[i].pending_signals,
                    signal as int,
                ) && after.tasks[i].process == s.tasks[i].process
            },
        },
{
    lemma_thread_alive(s.tasks, tid, 0);
    if let Some(i) = signals::thread_alive(s.tasks, tid, 0) {
        laws::lemma_signal_added(s.tasks[i].pending_signals, signal);
        endings::lemma_thread_ended(m, s, i, (128 + signal) as u64);
        let (m1, s1, address) = lifecycle::thread_ended(m, s, i, (128 + signal) as u64);
        endings::lemma_tid_woken(s1, address);
        let woken = lifecycle::tid_woken(s1, address);
        assert(endings::same_or_woken(s1.tasks[i], woken.tasks[i]));
        assert forall|j: int| 0 <= j < s.tasks.len() && j != i implies endings::same_or_woken(
            s.tasks[j],
            #[trigger] woken.tasks[j],
        ) by {
            assert(s1.tasks[j] == s.tasks[j]);
        }
        let after = (signals::thread_signalled(m, s, tid, signal)->0).1;
        assert forall|j: int| 0 <= j < s.tasks.len() && j != i implies endings::same_or_woken(
            s.tasks[j],
            #[trigger] after.tasks[j],
        ) by {
            assert(endings::same_or_woken(s.tasks[j], woken.tasks[j]));
        }
    }
}

proof fn lemma_thread_alive(tasks: Seq<Task>, tid: u64, i: int)
    requires
        0 <= i,
    ensures
        match signals::thread_alive(tasks, tid, i) {
            Some(k) => i <= k < tasks.len() && tasks[k].tid == tid && tasks[k].process is Some,
            None => forall|j: int|
                i <= j < tasks.len() && (#[trigger] tasks[j]).tid == tid ==> tasks[j].process is None,
        },
    decreases tasks.len() - i,
{
    if i < tasks.len() {
        lemma_thread_alive(tasks, tid, i + 1);
    }
}

/// A thread that has said which word it clears clears it when it ends, and one
/// that waits at that word goes on.
pub proof fn law_end_clears_word(
    k: KernelView,
    s: SchedulerView,
    p: usize,
    word: u64,
    shared: Shared,
    code: u64,
    w: int,
)
    requires
        k.scheduler == Some(s),
        0 <= s.current < s.tasks.len(),
        s.task().process == Some(p),
        s.task().state is Runnable,
        word != 0,
        process::is_memory(k.machine, s.processes[p as int].space, word as int, 4),
        0 <= w < s.tasks.len(),
        s.tasks[w].state == (TaskState::FutexWait { uaddr: word, bitset: 0xffff_ffff }),
        forall|j: int|
            0 <= j < s.tasks.len() && j != w ==> !((#[trigger] s.tasks[j]).state is FutexWait),
    ensures
        ({
            let (k1, tid) = dispatch::user_tid_address(k, word);
            let t = k1.scheduler->0;
            let cleared = lifecycle::tid_cleared(k1.machine, t, t.current).0;
            let after = lifecycle::exited(k1.machine, t, shared, code).1;
            &&& tid == s.task().tid
            &&& process::user_read(cleared, s.processes[p as int].space, word as int, 4) == Some(
                seq![0u8, 0u8, 0u8, 0u8],
            )
            &&& after.tasks[w].state is Runnable
            &&& after.tasks[s.current] == endings::gone(t.task(), code)
        }),
{
    let (k1, tid) = dispatch::user_tid_address(k, word);
    let t = k1.scheduler->0;
    process::law_user_write_then_read(
        k.machine,
        s.processes[p as int].space,
        word as int,
        bytes::le32_bytes(0),
    );
    assert(bytes::le32_bytes(0) =~= seq![0u8, 0u8, 0u8, 0u8]);
    assert(0xffff_ffffu32 & 0xffff_ffffu32 != 0) by (bit_vector);
    reveal(lifecycle::tid_cleared);
    endings::lemma_joiner_woken(k1.machine, t, shared, code, w, word);
}

// ---------------------------------------------------------------------------
// Opening, listing, waiting
// ---------------------------------------------------------------------------
/// What is opened only to be read has the contents that are there, and nothing
/// is stored. What is opened to be written has to be the program's to change:
/// one that is to be emptied starts without contents, and one that is not there
/// is made only where that was asked for. What is not there, and is not to be
/// made, is not opened.
pub proof fn law_open_as_asked(
    s: Option<SchedulerView>,
    path: Seq<u8>,
    flags: u64,
    is_directory: Option<bool>,
    entries: Option<Seq<Seq<u8>>>,
    contents: Option<Seq<u8>>,
)
    requires
        is_directory != Some(true),
    ensures
        ({
            let plan = files::open_planned(s, path, flags, is_directory, entries, contents);
            let write = flags % 2 == 1;
            let make = flags / 2 % 2 == 1;
            let empty = flags / 4 % 2 == 1;
            &&& !write ==> match (plan, contents) {
                (files::OpenPlanView::File { contents: c, writable, store, .. }, Some(there)) => c
                    == there && !writable && !store,
                (files::OpenPlanView::Fail, None) => true,
                _ => false,
            }
            &&& write && !channels::may_mutate(s, path) ==> plan is Fail
            &&& write && contents is None && !make ==> plan is Fail
            &&& write && channels::may_mutate(s, path) && (contents is Some || make) ==> {
                &&& plan matches files::OpenPlanView::File { contents: c, writable, append, store }
                &&& writable
                &&& append <==> flags / 8 % 2 == 1
                &&& empty ==> c.len() == 0 && store
                &&& !empty ==> (contents matches Some(there) ==> c == there)
                &&& !empty && contents is None ==> c.len() == 0
            }
        }),
{
}

/// Entries of a directory that a program reads are in its memory, those that
/// come next; the place moves behind them.
pub proof fn law_entries_in_memory(
    k: KernelView,
    s: SchedulerView,
    fd: u64,
    n: usize,
    pointer: u64,
    length: u64,
    end: int,
    bytes: Seq<u8>,
)
    requires
        k.scheduler == Some(s),
        descriptors::descriptor_in(k.scheduler, fd) matches Some(d) && d.resource
            == DescriptorResource::Directory(n),
        n < s.objects.directories.len(),
        0 <= s.objects.directories[n as int].offset
            <= s.objects.directories[n as int].entries.len(),
        length <= 4096,
        transfer::records_from(
            s.objects.directories[n as int].entries,
            s.objects.directories[n as int].offset as int,
            Seq::empty(),
            length as int,
        ) == (bytes, end),
        0 < bytes.len() < SYSCALL_ERROR,
        memory_laws::is_memory(k.machine, pointer, bytes.len() as int),
    ensures
        ({
            let (after, r) = linux_files::user_entries(k, fd, pointer, length);
            let d = s.objects.directories[n as int];
            &&& r == bytes.len()
            &&& memory::bytes_at(after.machine, pointer, bytes.len()) == Some(
                records_of(d.entries, d.offset as int, end),
            )
            &&& after.scheduler matches Some(t)
            &&& t.objects.directories[n as int].entries == d.entries
            &&& t.objects.directories[n as int].offset == end
        }),
{
    let d = s.objects.directories[n as int];
    law_entries_in_order(d.entries, d.offset as int, length as int);
    memory_laws::law_given_then_taken(k.machine, pointer, bytes);
}

#[verifier::spinoff_prover]
#[verifier::rlimit(60)]
proof fn lemma_poll(bytes: Seq<u8>, n: int, i: int)
    requires
        0 <= i < n,
    ensures
        ({
            let answer = linux_tasks::poll_answer(bytes, n).0;
            &&& answer.len() == n * 8
            &&& bytes::le32_at(answer, i * 8) == bytes::le32_at(bytes, i * 8) as u32
            &&& bytes::le16_at(answer, i * 8 + 4) == bytes::le16_at(bytes, i * 8 + 4) as u16
            &&& bytes::le16_at(answer, i * 8 + 6) == linux_tasks::polled(
                bytes::le32_at(bytes, i * 8) as u32,
                bytes::le16_at(bytes, i * 8 + 4) as u16,
            )
        }),
    decreases n,
{
    let (before, _) = linux_tasks::poll_answer(bytes, n - 1);
    let at = (n - 1) * 8;
    let fd = bytes::le32_at(bytes, at) as u32;
    let events = bytes::le16_at(bytes, at + 4) as u16;
    let found = linux_tasks::polled(fd, events);
    let x = bytes::le32_bytes(fd);
    let y = bytes::le16_bytes(events);
    let z = bytes::le16_bytes(found);
    let all = linux_tasks::poll_answer(bytes, n).0;
    let none = Seq::<u8>::empty();
    if n > 1 {
        lemma_poll(bytes, n - 1, if i < n - 1 {
            i
        } else {
            0
        });
    }
    assert(before.len() == at);
    if i == n - 1 {
        bytes::le_round_trip(before, y + z, 0, fd, 0);
        assert(before + x + (y + z) =~= all);
        bytes::le_round_trip(before + x, z, events, 0, 0);
        assert((before + x) + y + z =~= all);
        bytes::le_round_trip(before + x + y, none, found, 0, 0);
        assert((before + x + y) + z + none =~= all);
    } else {
        assert(forall|j: int| 0 <= j < before.len() ==> all[j] == #[trigger] before[j]);
        let b = i * 8;
        assert(b + 8 <= before.len());
        assert(all[b] == before[b] && all[b + 1] == before[b + 1] && all[b + 2] == before[b + 2]
            && all[b + 3] == before[b + 3] && all[b + 4] == before[b + 4] && all[b + 5] == before[b
            + 5] && all[b + 6] == before[b + 6] && all[b + 7] == before[b + 7]);
    }
}

/// Every entry of a poll keeps its descriptor and what it asks for; the answer
/// behind them has reading and writing just where they were asked for, and
/// nothing where the descriptor is negative.
pub proof fn law_poll_entry_answered(bytes: Seq<u8>, n: int, i: int, fd: u32, events: u16)
    requires
        0 <= i < n,
        bytes::le32_at(bytes, i * 8) == fd,
        bytes::le16_at(bytes, i * 8 + 4) == events,
    ensures
        ({
            let answer = linux_tasks::poll_answer(bytes, n).0;
            let told = bytes::le16_at(answer, i * 8 + 6);
            &&& answer.len() == n * 8
            &&& bytes::le32_at(answer, i * 8) == fd
            &&& bytes::le16_at(answer, i * 8 + 4) == events
            &&& told % 2 == 1 <==> fd < 0x8000_0000 && events % 2 == 1
            &&& told / 4 % 2 == 1 <==> fd < 0x8000_0000 && events / 4 % 2 == 1
            &&& told / 2 % 2 == 0
            &&& told < 8
        }),
{
    lemma_poll(bytes, n, i);
}

} // verus!
