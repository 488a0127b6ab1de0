//! What interrupts and faults lead to.
use vstd::prelude::*;

verus! {

pub const PIC_1_OFFSET: u8 = 32;

pub const PIC_2_OFFSET: u8 = 40;

/// How fast the interval timer counts.
pub const PIT_INPUT_HZ: u32 = 1_193_182;

/// The end of the addresses that programs have.
pub const USER_END: u64 = 0x0000_8000_0000_0000;

/// What a program ends with that touches memory that it has not.
pub const FAULT_STATUS: i32 = 139;

#[derive(Clone, Copy, Debug, PartialEq, Eq, Structural)]
pub enum HwIrq {
    Timer,
    Keyboard,
    VirtioNet,
    Mouse,
}

pub open spec fn vector_of(irq: HwIrq) -> u8 {
    match irq {
        HwIrq::Timer => 32,
        HwIrq::Keyboard => 33,
        HwIrq::VirtioNet => 40,
        HwIrq::Mouse => 44,
    }
}

impl HwIrq {
    pub fn as_u8(self) -> (r: u8)
        ensures
            r == vector_of(self),
    {
        match self {
            HwIrq::Timer => PIC_1_OFFSET,
            HwIrq::Keyboard => PIC_1_OFFSET + 1,
            HwIrq::VirtioNet => PIC_1_OFFSET + 8,
            HwIrq::Mouse => PIC_1_OFFSET + 12,
        }
    }
}

/// Which controller interrupts come through.
#[derive(Clone, Copy, Debug, PartialEq, Eq, Structural)]
pub enum Controller {
    Pic,
    IoApic,
}

pub fn use_ioapic(controller: &mut Controller)
    ensures
        *final(controller) == Controller::IoApic,
{
    *controller = Controller::IoApic;
}

/// Where the end of an interrupt is told.
#[derive(Clone, Copy, Debug, PartialEq, Eq, Structural)]
pub enum EndOfInterrupt {
    LocalApic,
    Pic(u8),
}

pub fn end_of_interrupt(controller: Controller, irq: HwIrq) -> (r: EndOfInterrupt)
    ensures
        r == match controller {
            Controller::IoApic => EndOfInterrupt::LocalApic,
            Controller::Pic => EndOfInterrupt::Pic(vector_of(irq)),
        },
{
    match controller {
        Controller::IoApic => EndOfInterrupt::LocalApic,
        Controller::Pic => EndOfInterrupt::Pic(irq.as_u8()),
    }
}

pub open spec fn pit_divisor(frequency_hz: u32) -> Option<u16> {
    if frequency_hz == 0 || frequency_hz > PIT_INPUT_HZ {
        None
    } else if PIT_INPUT_HZ / frequency_hz > 0xffff {
        Some(0xffff)
    } else {
        Some((PIT_INPUT_HZ / frequency_hz) as u16)
    }
}

/// The two bytes of the divisor that make the interval timer tick at a rate,
/// the low one first.
pub fn initialize_timer(frequency_hz: u32) -> (r: Option<(u8, u8)>)
    ensures
        r == match pit_divisor(frequency_hz) {
            Some(divisor) => Some(((divisor % 256) as u8, (divisor / 256) as u8)),
            None => None,
        },
{
    if frequency_hz == 0 || frequency_hz > PIT_INPUT_HZ {
        return None;
    }
    let divisor: u32 = PIT_INPUT_HZ / frequency_hz;
    let divisor: u32 = if divisor > 0xffff {
        0xffff
    } else {
        divisor
    };
    Some(((divisor % 256) as u8, (divisor / 256) as u8))
}

// ---------------------------------------------------------------------------
// Page faults
// ---------------------------------------------------------------------------
/// The registers at a page fault.
#[derive(Clone, Copy, Debug, PartialEq, Eq, Structural)]
pub struct PageFaultContext {
    pub r15: u64,
    pub r14: u64,
    pub r13: u64,
    pub r12: u64,
    pub r11: u64,
    pub r10: u64,
    pub r9: u64,
    pub r8: u64,
    pub rdi: u64,
    pub rsi: u64,
    pub rbp: u64,
    pub rdx: u64,
    pub rcx: u64,
    pub rbx: u64,
    pub rax: u64,
    pub error_code: u64,
    pub rip: u64,
    pub cs: u64,
    pub rflags: u64,
    pub rsp: u64,
    pub ss: u64,
}

pub open spec fn by_write(error_code: u64) -> bool {
    error_code / 2 % 2 == 1
}

pub open spec fn by_protection(error_code: u64) -> bool {
    error_code % 2 == 1
}

pub open spec fn by_user(context: PageFaultContext) -> bool {
    context.cs % 4 == 3 || context.error_code / 4 % 2 == 1
}

/// What is to be done about a fault.
#[derive(Clone, Copy, Debug, PartialEq, Eq, Structural)]
pub enum FaultAction {
    /// Copy a page that is shared until it is written.
    ResolveCow,
    /// Bring a page back.
    ResolveSwapped,
    /// Give a page that was promised.
    ResolveDemand { write: bool },
    /// Go on with what faulted.
    Resume,
    /// End the program.
    Kill,
    /// Stop the kernel.
    Panic,
}

/// What came of an attempt.
#[derive(Clone, Copy, Debug, PartialEq, Eq, Structural)]
pub enum Attempt {
    Resolved,
    NotResolved,
    Failed,
}

/// What remains when nothing resolved a fault.
pub open spec fn verdict(context: PageFaultContext) -> FaultAction {
    if by_user(context) {
        FaultAction::Kill
    } else {
        FaultAction::Panic
    }
}

/// What follows when the page is not a shared one.
pub open spec fn past_cow(context: PageFaultContext) -> FaultAction {
    if by_protection(context.error_code) {
        verdict(context)
    } else {
        FaultAction::ResolveSwapped
    }
}

pub open spec fn first_action(context: PageFaultContext) -> FaultAction {
    if by_write(context.error_code) {
        FaultAction::ResolveCow
    } else {
        past_cow(context)
    }
}

pub open spec fn next_action(
    context: PageFaultContext,
    address: u64,
    done: FaultAction,
    attempt: Attempt,
) -> FaultAction {
    match done {
        FaultAction::ResolveCow => match attempt {
            Attempt::Resolved => FaultAction::Resume,
            Attempt::NotResolved => past_cow(context),
            Attempt::Failed => FaultAction::Panic,
        },
        FaultAction::ResolveSwapped => if attempt == Attempt::Resolved {
            FaultAction::Resume
        } else if address < USER_END {
            FaultAction::ResolveDemand { write: by_write(context.error_code) }
        } else {
            verdict(context)
        },
        FaultAction::ResolveDemand { .. } => if attempt == Attempt::Resolved {
            FaultAction::Resume
        } else {
            verdict(context)
        },
        _ => done,
    }
}

fn judge(context: &PageFaultContext) -> (r: FaultAction)
    ensures
        r == verdict(*context),
{
    if context.cs % 4 == 3 || context.error_code / 4 % 2 == 1 {
        FaultAction::Kill
    } else {
        FaultAction::Panic
    }
}

fn go_past_cow(context: &PageFaultContext) -> (r: FaultAction)
    ensures
        r == past_cow(*context),
{
    if context.error_code % 2 == 1 {
        judge(context)
    } else {
        FaultAction::ResolveSwapped
    }
}

/// What to do first about a page fault.
pub fn page_fault_begin(context: &PageFaultContext) -> (r: FaultAction)
    ensures
        r == first_action(*context),
{
    if context.error_code / 2 % 2 == 1 {
        FaultAction::ResolveCow
    } else {
        go_past_cow(context)
    }
}

/// What to do next, after an attempt.
pub fn page_fault_next(
    context: &PageFaultContext,
    address: u64,
    done: FaultAction,
    attempt: Attempt,
) -> (r: FaultAction)
    ensures
        r == next_action(*context, address, done, attempt),
{
    match done {
        FaultAction::ResolveCow => match attempt {
            Attempt::Resolved => FaultAction::Resume,
            Attempt::NotResolved => go_past_cow(context),
            Attempt::Failed => FaultAction::Panic,
        },
        FaultAction::ResolveSwapped => match attempt {
            Attempt::Resolved => FaultAction::Resume,
            _ => if address < USER_END {
                FaultAction::ResolveDemand { write: context.error_code / 2 % 2 == 1 }
            } else {
                judge(context)
            },
        },
        FaultAction::ResolveDemand { .. } => match attempt {
            Attempt::Resolved => FaultAction::Resume,
            _ => judge(context),
        },
        _ => done,
    }
}

pub open spec fn is_final(action: FaultAction) -> bool {
    action is Resume || action is Kill || action is Panic
}

/// After three attempts at most a fault is settled. A program is ended only for
/// a fault of its own.
pub proof fn law_fault_settled(
    context: PageFaultContext,
    address: u64,
    first: Attempt,
    second: Attempt,
    third: Attempt,
)
    ensures
        ({
            let a1 = next_action(context, address, first_action(context), first);
            let a2 = next_action(context, address, a1, second);
            let a3 = next_action(context, address, a2, third);
            &&& is_final(a3)
            &&& a3 is Kill ==> by_user(context)
            &&& a3 is Panic ==> !by_user(context) || (by_write(context.error_code) && first
                == Attempt::Failed)
        }),
{
}

/// A fault that the first attempt resolves goes on at once.
pub proof fn law_resolved_resumes(context: PageFaultContext, address: u64, done: FaultAction)
    requires
        done is ResolveCow || done is ResolveSwapped || done is ResolveDemand,
    ensures
        next_action(context, address, done, Attempt::Resolved) == FaultAction::Resume,
{
}

/// Devices that interrupt have vectors of their own, none of which is that of a
/// fault of the processor.
pub proof fn law_vectors_apart(a: HwIrq, b: HwIrq)
    requires
        a != b,
    ensures
        vector_of(a) != vector_of(b),
        vector_of(a) >= 32,
{
}

/// The timer comes at least as often as it is asked to, as near to it as the
/// divisor allows, where the divisor has room for it; at no rate, and above the
/// rate that it is fed with, it is refused.
pub proof fn law_divisor_is_nearest(hz: u32)
    ensures
        match pit_divisor(hz) {
            None => hz == 0 || hz > 1_193_182,
            Some(d) => {
                &&& 1 <= d
                &&& d * hz <= 1_193_182
                &&& d < 0xffff ==> (d + 1) * hz > 1_193_182
            },
        },
{
    if 0 < hz <= 1_193_182 {
        let q: int = PIT_INPUT_HZ as int / hz as int;
        assert(q >= 1 && q * hz <= 1_193_182 && (q + 1) * hz > 1_193_182) by (nonlinear_arith)
            requires
                0 < hz <= 1_193_182,
                q == 1_193_182int / hz as int,
        ;
        if q > 0xffff {
            assert(0xffff * hz <= q * hz) by (nonlinear_arith)
                requires
                    q > 0xffff,
                    hz > 0,
            ;
        }
    }
}

} // verus!
