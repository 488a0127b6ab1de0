//! The interrupt controller of a processor and its timer.
use vstd::prelude::*;

use crate::paging::{self, AddressSpace, MAP_CACHE_DISABLE, MAP_WRITABLE, Machine, MapError};

verus! {

/// Where the registers are mapped.
pub const LAPIC_VIRTUAL_BASE: u64 = 0xffff_ffff_fee0_0000;

pub const TIMER_VECTOR: u32 = 32;

pub const TIMER_PERIODIC: u32 = 0x2_0000;

pub const TIMER_TSC_DEADLINE: u32 = 0x4_0000;

pub const TIMER_DIVIDE_16: u32 = 3;

/// The count of the periodic timer.
pub const TIMER_COUNT: u32 = 62_500;

#[derive(Clone, Copy, Debug, PartialEq, Eq, Structural)]
pub enum ApicMode {
    Unavailable,
    Disabled,
    XApic,
    X2Apic,
}

#[derive(Clone, Copy, Debug, PartialEq, Eq, Structural)]
pub struct ApicInfo {
    pub mode: ApicMode,
    pub physical_base: u64,
    pub lapic_id: u32,
    pub x2apic_supported: bool,
}

pub open spec fn bit(value: u32, power: u32) -> bool {
    value / power % 2 == 1
}

pub open spec fn base_of(base: u64) -> u64 {
    (base % 0x10_0000_0000_0000 / 0x1000 * 0x1000) as u64
}

/// What a processor says of its controller: the words of its features, and the
/// register of its base.
pub open spec fn found(ecx: u32, edx: u32, base: u64) -> ApicInfo {
    let x2apic_supported = bit(ecx, 0x20_0000);
    if !bit(edx, 0x200) {
        ApicInfo { mode: ApicMode::Unavailable, physical_base: 0, lapic_id: 0, x2apic_supported }
    } else {
        ApicInfo {
            mode: if base / 0x800 % 2 == 0 {
                ApicMode::Disabled
            } else if base / 0x400 % 2 == 1 {
                ApicMode::X2Apic
            } else {
                ApicMode::XApic
            },
            physical_base: base_of(base),
            lapic_id: 0,
            x2apic_supported,
        }
    }
}

/// Whether a mapping of the registers will do.
pub open spec fn usable(mapping: Result<(), MapError>) -> bool {
    mapping == Ok::<(), MapError>(()) || mapping == Err::<(), MapError>(MapError::AlreadyMapped)
}

/// Finds the controller of a processor and maps its registers where that is how
/// they are reached. The number of the processor is not read yet.
pub fn initialize(machine: &mut Machine, ecx: u32, edx: u32, base: u64) -> (r: ApicInfo)
    requires
        old(machine).wf(),
    ensures
        final(machine).wf(),
        final(machine).same_place(old(machine)),
        ({
            let info = found(ecx, edx, base);
            let (after, mapping) = old(machine)@.mapped(
                AddressSpace { pml4_phys: paging::address_of(old(machine).cr3) },
                LAPIC_VIRTUAL_BASE,
                info.physical_base,
                MAP_WRITABLE | MAP_CACHE_DISABLE,
            );
            if info.mode == ApicMode::XApic {
                &&& final(machine)@ == after
                &&& r == if usable(mapping) {
                    info
                } else {
                    ApicInfo { mode: ApicMode::Disabled, ..info }
                }
            } else {
                r == info && final(machine)@ == old(machine)@
            }
        }),
{
    let x2apic_supported: bool = ecx / 0x20_0000 % 2 == 1;
    if edx / 0x200 % 2 != 1 {
        return ApicInfo {
            mode: ApicMode::Unavailable,
            physical_base: 0,
            lapic_id: 0,
            x2apic_supported,
        };
    }
    let physical_base: u64 = base % 0x10_0000_0000_0000 / 0x1000 * 0x1000;
    if base / 0x800 % 2 == 0 {
        return ApicInfo {
            mode: ApicMode::Disabled,
            physical_base,
            lapic_id: 0,
            x2apic_supported,
        };
    }
    if base / 0x400 % 2 == 1 {
        return ApicInfo {
            mode: ApicMode::X2Apic,
            physical_base,
            lapic_id: 0,
            x2apic_supported,
        };
    }
    let space = paging::current_address_space(machine);
    let mapping = paging::map(
        machine,
        space,
        LAPIC_VIRTUAL_BASE,
        physical_base,
        MAP_WRITABLE | MAP_CACHE_DISABLE,
    );
    let mode: ApicMode = match mapping {
        Ok(_) => ApicMode::XApic,
        Err(MapError::AlreadyMapped) => ApicMode::XApic,
        Err(_) => ApicMode::Disabled,
    };
    ApicInfo { mode, physical_base, lapic_id: 0, x2apic_supported }
}

/// The value that switches a controller on: the spurious vector is the last,
/// and what stands above it stays.
pub fn enabled_value(value: u32) -> (r: u32)
    ensures
        r % 0x100 == 0xff,
        r / 0x100 % 2 == 1,
        r / 0x200 == value / 0x200,
{
    value / 0x200 * 0x200 + 0x1ff
}

/// The number of a processor, from the register that holds it.
pub fn lapic_id(mode: ApicMode, register: u32) -> (r: u32)
    ensures
        r == match mode {
            ApicMode::XApic => register / 0x100_0000,
            ApicMode::X2Apic => register,
            _ => 0,
        },
{
    match mode {
        ApicMode::XApic => register / 0x100_0000,
        ApicMode::X2Apic => register,
        _ => 0,
    }
}

/// What a processor says of its clock: the highest leaf it knows, and the words
/// of the two leaves that tell.
#[derive(Clone, Copy, Debug, PartialEq, Eq, Structural)]
pub struct ClockLeaves {
    pub highest: u32,
    pub denominator: u32,
    pub numerator: u32,
    pub crystal_hz: u32,
    pub base_mhz: u32,
}

pub open spec fn clock_rate(leaves: ClockLeaves) -> Option<u64> {
    if leaves.highest >= 0x15 && leaves.denominator != 0 && leaves.numerator != 0
        && leaves.crystal_hz != 0 {
        let rate = leaves.crystal_hz * leaves.numerator / (leaves.denominator as int);
        if rate != 0 {
            Some(rate as u64)
        } else {
            None
        }
    } else if leaves.highest >= 0x16 && leaves.base_mhz != 0 {
        Some((leaves.base_mhz * 1_000_000) as u64)
    } else {
        None
    }
}

/// How fast the time-stamp counter counts, where a processor tells.
pub fn tsc_frequency_hz(leaves: ClockLeaves) -> (r: Option<u64>)
    ensures
        r == clock_rate(leaves),
{
    if leaves.highest >= 0x15 && leaves.denominator != 0 && leaves.numerator != 0
        && leaves.crystal_hz != 0 {
        proof {
            assert(leaves.crystal_hz * leaves.numerator <= 0xffff_ffff * 0xffff_ffff)
                by (nonlinear_arith)
                requires
                    0 <= leaves.crystal_hz <= 0xffff_ffff,
                    0 <= leaves.numerator <= 0xffff_ffff,
            ;
            assert(leaves.crystal_hz * leaves.numerator >= 0) by (nonlinear_arith)
                requires
                    0 <= leaves.crystal_hz,
                    0 <= leaves.numerator,
            ;
        }
        let rate: u64 = leaves.crystal_hz as u64 * leaves.numerator as u64
            / leaves.denominator as u64;
        return if rate != 0 {
            Some(rate)
        } else {
            None
        };
    }
    if leaves.highest >= 0x16 && leaves.base_mhz != 0 {
        return Some(leaves.base_mhz as u64 * 1_000_000);
    }
    None
}

/// How the timer of a processor runs.
#[derive(Clone, Copy, Debug, PartialEq, Eq, Structural)]
pub enum TimerPlan {
    /// There is no timer to run.
    Off,
    /// The timer is armed anew for a number of counts from now.
    Deadline { delta: u64 },
    /// The timer repeats a count of its own.
    Periodic { count: u32 },
}

pub open spec fn timer_plan(frequency_hz: u32, mode: ApicMode, leaves: ClockLeaves, ecx: u32) -> TimerPlan {
    if frequency_hz == 0 || !(mode == ApicMode::XApic || mode == ApicMode::X2Apic) {
        TimerPlan::Off
    } else {
        match clock_rate(leaves) {
            Some(rate) if rate / (frequency_hz as u64) != 0 && bit(ecx, 0x100_0000) =>
                TimerPlan::Deadline { delta: rate / (frequency_hz as u64) },
            _ => TimerPlan::Periodic { count: TIMER_COUNT },
        }
    }
}

/// Plans the timer of a processor. A deadline is preferred, as its rate is
/// known; otherwise the timer repeats a count that will do.
pub fn initialize_timer(frequency_hz: u32, mode: ApicMode, leaves: ClockLeaves, ecx: u32) -> (r:
    TimerPlan)
    ensures
        r == timer_plan(frequency_hz, mode, leaves, ecx),
{
    let active: bool = match mode {
        ApicMode::XApic => true,
        ApicMode::X2Apic => true,
        _ => false,
    };
    if frequency_hz == 0 || !active {
        return TimerPlan::Off;
    }
    if let Some(rate) = tsc_frequency_hz(leaves) {
        let delta: u64 = rate / frequency_hz as u64;
        if delta != 0 && ecx / 0x100_0000 % 2 == 1 {
            return TimerPlan::Deadline { delta };
        }
    }
    TimerPlan::Periodic { count: TIMER_COUNT }
}

/// The deadline to arm the timer for, where it is armed by hand.
pub fn rearm_timer(plan: TimerPlan, now: u64) -> (r: Option<u64>)
    ensures
        r == match plan {
            TimerPlan::Deadline { delta } => Some(
                ((now + delta) % 0x1_0000_0000_0000_0000) as u64,
            ),
            _ => None,
        },
{
    match plan {
        TimerPlan::Deadline { delta } => Some(
            ((now as u128 + delta as u128) % 0x1_0000_0000_0000_0000) as u64,
        ),
        _ => None,
    }
}

/// The timer goes off as often as was asked for: the ticks of the clock between
/// two times, taken that often a second, are no more than it has, and with one
/// more each time they would be. Without a controller, or for no times at all,
/// it is off.
pub proof fn law_timer_rate(frequency_hz: u32, mode: ApicMode, leaves: ClockLeaves, ecx: u32)
    ensures
        match timer_plan(frequency_hz, mode, leaves, ecx) {
            TimerPlan::Deadline { delta } => {
                &&& clock_rate(leaves) matches Some(rate)
                &&& delta > 0
                &&& delta * frequency_hz <= rate
                &&& rate < (delta + 1) * frequency_hz
            },
            TimerPlan::Off => frequency_hz == 0 || mode == ApicMode::Unavailable || mode
                == ApicMode::Disabled,
            TimerPlan::Periodic { .. } => frequency_hz > 0 && (mode == ApicMode::XApic || mode
                == ApicMode::X2Apic),
        },
{
    if let TimerPlan::Deadline { delta } = timer_plan(frequency_hz, mode, leaves, ecx) {
        let rate = clock_rate(leaves)->0 as int;
        let f = frequency_hz as int;
        vstd::arithmetic::div_mod::lemma_fundamental_div_mod(rate, f);
        vstd::arithmetic::div_mod::lemma_mod_bound(rate, f);
        assert(f * (rate / f) == (rate / f) * f) by (nonlinear_arith);
        assert((rate / f + 1) * f == (rate / f) * f + f) by (nonlinear_arith);
    }
}

/// The place of the registers is a page, and the one that the register of the
/// base tells; the mode is the one that its two bits tell.
pub proof fn law_controller_found(ecx: u32, edx: u32, base: u64)
    requires
        edx / 0x200 % 2 == 1,
    ensures
        ({
            let info = found(ecx, edx, base);
            &&& info.physical_base % 0x1000 == 0
            &&& base < 0x10_0000_0000_0000 ==> info.physical_base <= base && base
                - info.physical_base < 0x1000
            &&& info.mode == ApicMode::Disabled <==> base / 0x800 % 2 == 0
            &&& info.mode == ApicMode::X2Apic <==> base / 0x800 % 2 == 1 && base / 0x400 % 2 == 1
            &&& info.x2apic_supported <==> ecx / 0x20_0000 % 2 == 1
        }),
{
}

} // verus!
