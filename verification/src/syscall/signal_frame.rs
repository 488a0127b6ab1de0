//! How a program is made to handle a signal, and how it goes on afterwards.
use vstd::prelude::*;

use crate::bytes::{self, get_le64, push_all, push_le64};
use crate::linux;
use crate::scheduler::{self, LinuxSigAction, SchedulerView, Task};
use crate::scheduler::signals::{
    self, check_pending_signal_to_deliver, current_blocked_mask, default_signal_action,
    reset_signal_action, set_current_blocked_mask, SignalDefaultAction, UNBLOCKABLE_SIGNALS_MASK,
};
use crate::syscall::{
    CpuLocal, Frame, Kernel, KernelView, SYSCALL_ERROR, SYSCALL_RETURN_BLOCK, SYSCALL_RETURN_EXEC,
    SYSCALL_RETURN_EXIT, SYSCALL_RETURN_FUTEX_WAIT, SYSCALL_RETURN_THREAD_EXIT,
    SYSCALL_RETURN_WAIT, SYSCALL_RETURN_YIELD,
};
use crate::syscall::memory::{self, copy_from_user, copy_to_user};

verus! {

/// The length of a saved state.
pub const STATE_SIZE: u64 = 816;

/// The length of a frame: the place to return to, the saved state, what is
/// known of the signal, and code that returns.
pub const FRAME_SIZE: u64 = 968;

pub const INFO_OFFSET: u64 = 824;

pub const CODE_OFFSET: u64 = 952;

// ---------------------------------------------------------------------------
// Words in memory
// ---------------------------------------------------------------------------
/// The bytes of words, one after the other.
pub open spec fn word_bytes(words: Seq<u64>, n: int) -> Seq<u8>
    decreases n,
{
    if n <= 0 {
        Seq::empty()
    } else {
        word_bytes(words, n - 1) + bytes::le64_bytes(words[n - 1])
    }
}

pub open spec fn all_words(words: Seq<u64>) -> Seq<u8> {
    word_bytes(words, words.len() as int)
}

pub(crate) proof fn lemma_word_bytes(words: Seq<u64>, n: int)
    requires
        0 <= n <= words.len(),
    ensures
        word_bytes(words, n).len() == n * 8,
    decreases n,
{
    if n > 0 {
        lemma_word_bytes(words, n - 1);
    }
}

/// A word is found where it was put.
pub proof fn law_word_round_trip(words: Seq<u64>, n: int, i: int)
    requires
        0 <= i < n <= words.len(),
    ensures
        bytes::le64_at(word_bytes(words, n), i * 8) == words[i],
    decreases n,
{
    lemma_word_bytes(words, n - 1);
    let before = word_bytes(words, n - 1);
    let last = bytes::le64_bytes(words[n - 1]);
    let all = word_bytes(words, n);
    if i == n - 1 {
        crate::bytes::le_round_trip(before, Seq::empty(), 0, 0, words[n - 1]);
        assert(all =~= before + last + Seq::<u8>::empty());
    } else {
        law_word_round_trip(words, n - 1, i);
        assert(forall|j: int| 0 <= j < before.len() ==> all[j] == before[j]);
        assert(bytes::le64_at(all, i * 8) == bytes::le64_at(before, i * 8));
    }
}

fn push_words(v: &mut Vec<u8>, words: &Vec<u64>)
    ensures
        final(v)@ == old(v)@ + all_words(words@),
{
    let mut i: usize = 0;
    assert(v@ =~= old(v)@ + word_bytes(words@, 0));
    while i < words.len()
        invariant
            i <= words.len(),
            v@ == old(v)@ + word_bytes(words@, i as int),
        decreases words.len() - i,
    {
        push_le64(v, words[i]);
        i += 1;
        assert(v@ =~= old(v)@ + word_bytes(words@, i as int));
    }
}

// ---------------------------------------------------------------------------
// The saved state
// ---------------------------------------------------------------------------
/// The state of a program as words: its registers in Linux's order, its
/// segments, and the signals that it has blocked.
pub open spec fn state_words(f: Frame, rsp: u64, mask: u64) -> Seq<u64> {
    seq![
        0u64,
        0,
        0,
        0,
        0,
        f.r8,
        f.r9,
        f.r10,
        0,
        f.r12,
        f.r13,
        f.r14,
        f.r15,
        f.rdi,
        f.rsi,
        f.rbp,
        f.rbx,
        f.rdx,
        f.rax,
        0,
        rsp,
        f.rcx,
        f.r11,
        0x1b_001b_0023,
        0,
        0,
        mask,
        0,
        0,
        0,
        0,
        0,
        0,
        0,
        0,
        0,
        0,
        mask,
    ] + Seq::new(64, |i: int| 0u64)
}

fn push_state(words: &mut Vec<u64>, f: &Frame, rsp: u64, mask: u64)
    ensures
        final(words)@ == old(words)@ + state_words(*f, rsp, mask),
{
    let first: [u64; 38] = [
        0,
        0,
        0,
        0,
        0,
        f.r8,
        f.r9,
        f.r10,
        0,
        f.r12,
        f.r13,
        f.r14,
        f.r15,
        f.rdi,
        f.rsi,
        f.rbp,
        f.rbx,
        f.rdx,
        f.rax,
        0,
        rsp,
        f.rcx,
        f.r11,
        0x1b_001b_0023,
        0,
        0,
        mask,
        0,
        0,
        0,
        0,
        0,
        0,
        0,
        0,
        0,
        0,
        mask,
    ];
    let mut i: usize = 0;
    while i < 38
        invariant
            i <= 38,
            words@ =~= old(words)@ + first@.take(i as int),
        decreases 38 - i,
    {
        words.push(first[i]);
        i += 1;
        assert(words@ =~= old(words)@ + first@.take(i as int));
    }
    assert(first@.take(38) =~= first@);
    let ghost start = words@;
    let mut j: usize = 0;
    assert(words@ =~= start + Seq::new(0, |i: int| 0u64));
    while j < 64
        invariant
            j <= 64,
            words@ == start + Seq::new(j as nat, |i: int| 0u64),
        decreases 64 - j,
    {
        words.push(0);
        j += 1;
        assert(words@ =~= start + Seq::new(j as nat, |i: int| 0u64));
    }
    assert(words@ =~= old(words)@ + state_words(*f, rsp, mask));
}

/// The registers of a saved state; it goes on with interrupts.
pub open spec fn restored(bytes: Seq<u8>) -> Frame {
    Frame {
        rax: bytes::le64_at(bytes, 144) as u64,
        rdi: bytes::le64_at(bytes, 104) as u64,
        rsi: bytes::le64_at(bytes, 112) as u64,
        rdx: bytes::le64_at(bytes, 136) as u64,
        r8: bytes::le64_at(bytes, 40) as u64,
        r9: bytes::le64_at(bytes, 48) as u64,
        r10: bytes::le64_at(bytes, 56) as u64,
        rcx: bytes::le64_at(bytes, 168) as u64,
        r11: (bytes::le64_at(bytes, 176) as u64) | 0x202,
        rbx: bytes::le64_at(bytes, 128) as u64,
        rbp: bytes::le64_at(bytes, 120) as u64,
        r12: bytes::le64_at(bytes, 72) as u64,
        r13: bytes::le64_at(bytes, 80) as u64,
        r14: bytes::le64_at(bytes, 88) as u64,
        r15: bytes::le64_at(bytes, 96) as u64,
    }
}

pub open spec fn restored_rsp(bytes: Seq<u8>) -> u64 {
    bytes::le64_at(bytes, 160) as u64
}

pub open spec fn restored_mask(bytes: Seq<u8>) -> u64 {
    bytes::le64_at(bytes, 296) as u64
}

/// What was saved is what is restored: all registers, the stack and the
/// blocked signals.
pub proof fn law_state_round_trip(f: Frame, rsp: u64, mask: u64)
    ensures
        ({
            let bytes = all_words(state_words(f, rsp, mask));
            &&& bytes.len() == STATE_SIZE
            &&& restored(bytes) == (Frame { r11: f.r11 | 0x202, ..f })
            &&& restored_rsp(bytes) == rsp
            &&& restored_mask(bytes) == mask
        }),
{
    let words = state_words(f, rsp, mask);
    let n = words.len() as int;
    assert(n == 102);
    lemma_word_bytes(words, n);
    law_word_round_trip(words, n, 5);
    law_word_round_trip(words, n, 6);
    law_word_round_trip(words, n, 7);
    law_word_round_trip(words, n, 9);
    law_word_round_trip(words, n, 10);
    law_word_round_trip(words, n, 11);
    law_word_round_trip(words, n, 12);
    law_word_round_trip(words, n, 13);
    law_word_round_trip(words, n, 14);
    law_word_round_trip(words, n, 15);
    law_word_round_trip(words, n, 16);
    law_word_round_trip(words, n, 17);
    law_word_round_trip(words, n, 18);
    law_word_round_trip(words, n, 20);
    law_word_round_trip(words, n, 21);
    law_word_round_trip(words, n, 22);
    law_word_round_trip(words, n, 37);
}

// ---------------------------------------------------------------------------
// The frame
// ---------------------------------------------------------------------------
/// Code that asks to go on where the program was interrupted.
pub open spec fn return_code() -> Seq<u8> {
    seq![
        0x48u8,
        0xc7,
        0xc0,
        0x0f,
        0,
        0,
        0,
        0x0f,
        0x05,
        0x90,
        0x90,
        0x90,
        0x90,
        0x90,
        0x90,
        0x90,
    ]
}

/// Where the frame goes: below the stack, aligned as a call would leave it.
pub open spec fn frame_place(rsp: u64) -> Option<u64> {
    let aligned = (rsp - FRAME_SIZE) / 16 * 16;
    if rsp < FRAME_SIZE || aligned < 8 {
        None
    } else {
        Some((aligned - 8) as u64)
    }
}

/// Where the handler returns to: what the program has given for that, or the
/// code in the frame.
pub open spec fn return_place(action: LinuxSigAction, sp: u64) -> u64 {
    if action.sa_flags / linux::SA_RESTORER % 2 == 1 && action.sa_restorer != 0 {
        action.sa_restorer
    } else {
        (sp + CODE_OFFSET) as u64
    }
}

/// What is known of a signal: its number.
pub open spec fn info_words(signo: u64) -> Seq<u64> {
    seq![signo, 0u64, 0, 0, 0, 0, 0, 0, 0, 0, 0, 0, 0, 0, 0, 0]
}

pub open spec fn frame_words(f: Frame, rsp: u64, mask: u64, signo: u64, back: u64) -> Seq<u64> {
    seq![back] + state_words(f, rsp, mask) + info_words(signo)
}

/// The program's stack and registers when it is made to handle a signal; the
/// stack may have no room for the frame.
pub open spec fn signal_injected(k: KernelView, signo: u64, action: LinuxSigAction, mask: u64) -> (
    KernelView,
    bool,
) {
    let rsp = k.cpu.user_rsp;
    match frame_place(rsp) {
        None => (k, false),
        Some(sp) => {
            let bytes = all_words(
                frame_words(k.cpu.frame, rsp, mask, signo, return_place(action, sp)),
            ) + return_code();
            let (m, ok) = memory::given(k.machine, sp, bytes, 0);
            let k1 = KernelView { machine: m, ..k };
            if !ok {
                (k1, false)
            } else {
                (
                    KernelView {
                        cpu: CpuLocal {
                            user_rsp: sp,
                            frame: Frame {
                                rax: 0,
                                rdi: signo,
                                rsi: (sp + INFO_OFFSET) as u64,
                                rdx: (sp + 8) as u64,
                                rcx: action.sa_handler,
                                ..k.cpu.frame
                            },
                            ..k.cpu
                        },
                        ..k1
                    },
                    true,
                )
            }
        },
    }
}

pub fn inject_signal_frame(k: &mut Kernel, signo: u64, action: LinuxSigAction, current_blocked_mask: u64) -> (r:
    Result<(), ()>)
    requires
        old(k).wf(),
        1 <= signo <= 64,
    ensures
        final(k).wf(),
        (final(k)@, r is Ok) == signal_injected(old(k)@, signo, action, current_blocked_mask),
{
    let rsp: u64 = k.cpu.user_rsp;
    if rsp < FRAME_SIZE {
        return Err(());
    }
    let aligned: u64 = (rsp - FRAME_SIZE) / 16 * 16;
    if aligned < 8 {
        return Err(());
    }
    let sp: u64 = aligned - 8;
    let back: u64 = if action.sa_flags / linux::SA_RESTORER % 2 == 1 && action.sa_restorer != 0 {
        action.sa_restorer
    } else {
        sp + CODE_OFFSET
    };
    let mut words: Vec<u64> = Vec::new();
    words.push(back);
    push_state(&mut words, &k.cpu.frame, rsp, current_blocked_mask);
    let info: [u64; 16] = [signo, 0, 0, 0, 0, 0, 0, 0, 0, 0, 0, 0, 0, 0, 0, 0];
    let ghost start = words@;
    let mut i: usize = 0;
    assert(words@ =~= start + info@.take(0));
    while i < 16
        invariant
            i <= 16,
            words@ == start + info@.take(i as int),
        decreases 16 - i,
    {
        words.push(info[i]);
        i += 1;
        assert(words@ =~= start + info@.take(i as int));
    }
    assert(info@.take(16) =~= info_words(signo));
    assert(words@ =~= frame_words(k.cpu.frame, rsp, current_blocked_mask, signo, back));
    let mut bytes: Vec<u8> = Vec::new();
    push_words(&mut bytes, &words);
    let code: [u8; 16] = [
        0x48,
        0xc7,
        0xc0,
        0x0f,
        0,
        0,
        0,
        0x0f,
        0x05,
        0x90,
        0x90,
        0x90,
        0x90,
        0x90,
        0x90,
        0x90,
    ];
    assert(code@ =~= return_code());
    push_all(&mut bytes, code.as_slice());
    assert(bytes@ =~= all_words(
        frame_words(k.cpu.frame, rsp, current_blocked_mask, signo, return_place(action, sp)),
    ) + return_code());
    if !copy_to_user(&mut k.machine, sp, bytes.as_slice()) {
        return Err(());
    }
    k.cpu.frame.rax = 0;
    k.cpu.frame.rdi = signo;
    k.cpu.frame.rsi = sp + INFO_OFFSET;
    k.cpu.frame.rdx = sp + 8;
    k.cpu.frame.rcx = action.sa_handler;
    k.cpu.user_rsp = sp;
    Ok(())
}

// ---------------------------------------------------------------------------
// Going on
// ---------------------------------------------------------------------------
/// The state that a program has saved: at its stack, or one word above.
pub open spec fn saved_state(k: KernelView) -> Option<Seq<u8>> {
    let rsp = k.cpu.user_rsp;
    match memory::taken(k.machine, rsp, STATE_SIZE) {
        Some(bytes) => Some(bytes),
        None => if rsp + 8 > u64::MAX {
            None
        } else {
            memory::taken(k.machine, (rsp + 8) as u64, STATE_SIZE)
        },
    }
}

pub open spec fn mask_set(s: Option<SchedulerView>, mask: u64) -> Option<SchedulerView> {
    match s {
        Some(s) => Some(s.with_current(Task { blocked_mask: signals::blockable(mask), ..s.task() })),
        None => None,
    }
}

/// A program goes on as it was before it handled a signal.
pub open spec fn user_return(k: KernelView) -> (KernelView, u64) {
    match saved_state(k) {
        None => (k, SYSCALL_ERROR),
        Some(bytes) => (
            KernelView {
                scheduler: mask_set(k.scheduler, signals::blockable(restored_mask(bytes))),
                cpu: CpuLocal {
                    user_rsp: restored_rsp(bytes),
                    frame: restored(bytes),
                    ..k.cpu
                },
                ..k
            },
            restored(bytes).rax,
        ),
    }
}

pub fn linux_rt_sigreturn_user(k: &mut Kernel) -> (r: u64)
    requires
        old(k).wf(),
    ensures
        final(k).wf(),
        (final(k)@, r) == user_return(old(k)@),
{
    let rsp: u64 = k.cpu.user_rsp;
    let bytes = match copy_from_user(&k.machine, rsp, STATE_SIZE) {
        Some(bytes) => bytes,
        None => {
            if rsp > u64::MAX - 8 {
                return SYSCALL_ERROR;
            }
            match copy_from_user(&k.machine, rsp + 8, STATE_SIZE) {
                None => {
                    return SYSCALL_ERROR;
                },
                Some(bytes) => bytes,
            }
        },
    };
    let b = bytes.as_slice();
    let mask: u64 = get_le64(b, 296) & !UNBLOCKABLE_SIGNALS_MASK;
    set_current_blocked_mask(&mut k.scheduler, mask);
    k.cpu.frame = Frame {
        rax: get_le64(b, 144),
        rdi: get_le64(b, 104),
        rsi: get_le64(b, 112),
        rdx: get_le64(b, 136),
        r8: get_le64(b, 40),
        r9: get_le64(b, 48),
        r10: get_le64(b, 56),
        rcx: get_le64(b, 168),
        r11: get_le64(b, 176) | 0x202,
        rbx: get_le64(b, 128),
        rbp: get_le64(b, 120),
        r12: get_le64(b, 72),
        r13: get_le64(b, 80),
        r14: get_le64(b, 88),
        r15: get_le64(b, 96),
    };
    k.cpu.user_rsp = get_le64(b, 160);
    k.cpu.frame.rax
}

// ---------------------------------------------------------------------------
// Delivery at the end of a system call
// ---------------------------------------------------------------------------
/// Whether a value is none for the program, but says how the call goes on.
pub open spec fn goes_on(value: u64) -> bool {
    value == SYSCALL_RETURN_EXIT || value == SYSCALL_RETURN_THREAD_EXIT || value
        == SYSCALL_RETURN_YIELD || value == SYSCALL_RETURN_WAIT || value == SYSCALL_RETURN_EXEC
        || value == SYSCALL_RETURN_BLOCK || value == SYSCALL_RETURN_FUTEX_WAIT
}

/// The signals that are blocked while one is handled.
pub open spec fn handling_mask(blocked: u64, action: LinuxSigAction, signo: u64) -> u64 {
    let mask = blocked | action.sa_mask;
    if action.sa_flags / linux::SA_NODEFER % 2 == 0 {
        mask | (1u64 << ((signo - 1) as u64))
    } else {
        mask
    }
}

/// The end of a system call: a signal that the program is to get is handled
/// first, or ends it.
pub open spec fn delivered(k: KernelView, value: u64) -> (KernelView, u64) {
    if goes_on(value) {
        (k, value)
    } else {
        let k1 = KernelView {
            cpu: CpuLocal { frame: Frame { rax: value, ..k.cpu.frame }, ..k.cpu },
            ..k
        };
        match k.scheduler {
            None => (k1, value),
            Some(s) => match signals::signal_taken(s) {
                (s1, None) => (k1.with_scheduler(s1), value),
                (s1, Some((signo, action))) => {
                    let k2 = k1.with_scheduler(s1);
                    let blocked = s1.task().blocked_mask;
                    if action.sa_handler > 1 {
                        match signal_injected(k2, signo, action, blocked) {
                            (k3, false) => (k3, value),
                            (k3, true) => {
                                let s2 = s1.with_current(
                                    Task {
                                        blocked_mask: signals::blockable(
                                            handling_mask(blocked, action, signo),
                                        ),
                                        ..s1.task()
                                    },
                                );
                                let s3 = if action.sa_flags / linux::SA_RESETHAND % 2 == 1 {
                                    signals::with_action(s2, signo, scheduler::no_action())
                                } else {
                                    s2
                                };
                                (k3.with_scheduler(s3), 0)
                            },
                        }
                    } else if action.sa_handler == 0 && signals::deadly(signo) {
                        (
                            KernelView {
                                cpu: CpuLocal { exit_code: (128 + signo) as u64, ..k2.cpu },
                                ..k2
                            },
                            SYSCALL_RETURN_EXIT,
                        )
                    } else {
                        (k2, value)
                    }
                },
            },
        }
    }
}

proof fn lemma_lowest(x: u64, i: u64)
    requires
        i <= 64,
    ensures
        crate::scheduler::signals::lowest_bit(x, i) <= 64,
    decreases 64 - i,
{
    if i < 64 {
        lemma_lowest(x, (i + 1) as u64);
    }
}

/// Ends a system call with a value: delivers a signal, if one is due.
pub fn finish_dispatch(k: &mut Kernel, value: u64) -> (r: u64)
    requires
        old(k).wf(),
    ensures
        final(k).wf(),
        (final(k)@, r) == delivered(old(k)@, value),
{
    if value == SYSCALL_RETURN_EXIT || value == SYSCALL_RETURN_THREAD_EXIT || value
        == SYSCALL_RETURN_YIELD || value == SYSCALL_RETURN_WAIT || value == SYSCALL_RETURN_EXEC
        || value == SYSCALL_RETURN_BLOCK || value == SYSCALL_RETURN_FUTEX_WAIT {
        return value;
    }
    k.cpu.frame.rax = value;
    let ghost before = scheduler::seen(k.scheduler);
    match check_pending_signal_to_deliver(&mut k.scheduler) {
        None => value,
        Some((signo, action)) => {
            assert(1 <= signo <= 64) by {
                let t = before->0.task();
                lemma_lowest(t.pending_signals & !t.blocked_mask, 0);
            }
            if action.sa_handler > 1 {
                let blocked: u64 = current_blocked_mask(&k.scheduler);
                if inject_signal_frame(k, signo, action, blocked).is_ok() {
                    let mut mask: u64 = blocked | action.sa_mask;
                    if action.sa_flags / linux::SA_NODEFER % 2 == 0 {
                        mask = mask | (1u64 << (signo - 1));
                    }
                    set_current_blocked_mask(&mut k.scheduler, mask);
                    if action.sa_flags / linux::SA_RESETHAND % 2 == 1 {
                        reset_signal_action(&mut k.scheduler, signo);
                    }
                    return k.cpu.frame.rax;
                }
                value
            } else if action.sa_handler == 0 {
                let default = default_signal_action(signo);
                if default == SignalDefaultAction::Terminate || default
                    == SignalDefaultAction::CoreDump {
                    k.cpu.exit_code = 128 + signo;
                    return SYSCALL_RETURN_EXIT;
                }
                value
            } else {
                value
            }
        },
    }
}

} // verus!
