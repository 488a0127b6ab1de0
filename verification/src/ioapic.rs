//! Routing of interrupts through the controller that firmware describes.
use vstd::prelude::*;

use crate::acpi::MadtInfo;
use crate::paging::{self, AddressSpace, MAP_CACHE_DISABLE, MAP_WRITABLE, Machine};

verus! {

/// Where the registers are mapped.
pub const IOAPIC_WINDOW: u64 = 0xffff_fe90_0000_0000;

/// The offset of the register that selects a register.
pub const IOREGSEL: u64 = 0;

/// The offset of the window on the register selected.
pub const IOWIN: u64 = 0x10;

/// The register that says how many entries there are.
pub const VERSION: u8 = 1;

pub const REDIRECTION_BASE: u8 = 0x10;

pub const TIMER_VECTOR: u8 = 32;

pub const KEYBOARD_VECTOR: u8 = 33;

#[derive(Clone, Copy, Debug, PartialEq, Eq, Structural)]
pub enum IoApicError {
    Missing,
    UnsupportedDestination,
    Mapping,
    GsiOutOfRange,
}

#[derive(Clone, Copy, Debug, PartialEq, Eq, Structural)]
pub struct IoApicInfo {
    pub entries: u32,
    pub timer_gsi: u32,
    pub keyboard_gsi: u32,
}

/// What is known of the controller.
#[derive(Clone, Copy, Debug, PartialEq, Eq, Structural)]
pub struct IoApicState {
    pub base: u32,
    pub entries: u32,
    pub lapic_id: u8,
}

/// A value for a register.
#[derive(Clone, Copy, Debug, PartialEq, Eq, Structural)]
pub struct RegisterWrite {
    pub register: u8,
    pub value: u32,
}

/// The place of an interrupt among the entries.
pub open spec fn entry_of(state: IoApicState, gsi: u32) -> Option<int> {
    if gsi >= state.base && gsi - state.base < state.entries {
        Some(gsi - state.base)
    } else {
        None
    }
}

/// The first of the two registers of an entry.
pub open spec fn register_of(index: int) -> u8 {
    ((0x10 + index * 2) % 256) as u8
}

/// An entry pointed at a processor.
pub open spec fn entry_writes(index: int, destination: u8, value: u32) -> Seq<RegisterWrite> {
    seq![
        RegisterWrite {
            register: (register_of(index) + 1) as u8,
            value: (destination * 0x100_0000) as u32,
        },
        RegisterWrite { register: register_of(index), value },
    ]
}

pub open spec fn route_flags(vector: u8, level_triggered: bool, active_low: bool) -> u32 {
    (vector + if active_low {
        0x2000int
    } else {
        0
    } + if level_triggered {
        0x8000int
    } else {
        0
    }) as u32
}

fn find_entry(state: IoApicState, gsi: u32) -> (r: Option<u32>)
    ensures
        match r {
            Some(index) => entry_of(state, gsi) == Some(index as int) && index < state.entries,
            None => entry_of(state, gsi) is None,
        },
{
    if gsi < state.base || gsi - state.base >= state.entries {
        None
    } else {
        Some(gsi - state.base)
    }
}

fn write_entry(writes: &mut Vec<RegisterWrite>, index: u32, destination: u8, value: u32)
    requires
        index <= 0xffff,
    ensures
        final(writes)@ == old(writes)@ + entry_writes(index as int, destination, value),
{
    let register: u8 = ((0x10 + index * 2) % 256) as u8;
    writes.push(
        RegisterWrite { register: register + 1, value: destination as u32 * 0x100_0000 },
    );
    writes.push(RegisterWrite { register, value });
    assert(writes@ =~= old(writes)@ + entry_writes(index as int, destination, value));
}

/// Maps the registers of the controller that firmware describes.
pub fn initialize(machine: &mut Machine, madt: MadtInfo, lapic_id: u32) -> (r: Result<
    (),
    IoApicError,
>)
    requires
        old(machine).wf(),
    ensures
        final(machine).wf(),
        final(machine).same_place(old(machine)),
        match madt.io_apic {
            None => r == Err::<(), IoApicError>(IoApicError::Missing) && final(machine)@
                == old(machine)@,
            Some(descriptor) => if lapic_id > 255 {
                r == Err::<(), IoApicError>(IoApicError::UnsupportedDestination)
                    && final(machine)@ == old(machine)@
            } else {
                let (after, mapping) = old(machine)@.mapped(
                    AddressSpace { pml4_phys: paging::address_of(old(machine).cr3) },
                    IOAPIC_WINDOW,
                    descriptor.physical_address as u64,
                    MAP_WRITABLE | MAP_CACHE_DISABLE,
                );
                &&& final(machine)@ == after
                &&& r == if mapping is Ok {
                    Ok::<(), IoApicError>(())
                } else {
                    Err(IoApicError::Mapping)
                }
            },
        },
{
    let descriptor = match madt.io_apic {
        None => {
            return Err(IoApicError::Missing);
        },
        Some(descriptor) => descriptor,
    };
    if lapic_id > 255 {
        return Err(IoApicError::UnsupportedDestination);
    }
    let space = paging::current_address_space(machine);
    match paging::map(
        machine,
        space,
        IOAPIC_WINDOW,
        descriptor.physical_address as u64,
        MAP_WRITABLE | MAP_CACHE_DISABLE,
    ) {
        Ok(_) => Ok(()),
        Err(_) => Err(IoApicError::Mapping),
    }
}

/// How many entries a version register tells of.
pub open spec fn entries_of(version: u32) -> u32 {
    (version / 0x1_0000 % 256 + 1) as u32
}

/// Points the timer and the keyboard at a processor, once the registers are
/// mapped and the version is read. The registers are to be written in order,
/// also where an interrupt is out of range: those before it are then routed.
pub fn program(madt: MadtInfo, lapic_id: u8, version: u32) -> (r: (
    Option<IoApicState>,
    Vec<RegisterWrite>,
    Result<IoApicInfo, IoApicError>,
))
    ensures
        match madt.io_apic {
            None => r.0 is None && r.1@ == Seq::<RegisterWrite>::empty() && r.2 == Err::<
                IoApicInfo,
                IoApicError,
            >(IoApicError::Missing),
            Some(descriptor) => {
                let entries = entries_of(version);
                let state = IoApicState {
                    base: descriptor.global_irq_base,
                    entries,
                    lapic_id,
                };
                &&& r.0 == Some(state)
                &&& match entry_of(state, madt.timer_gsi) {
                    None => r.1@ == Seq::<RegisterWrite>::empty() && r.2 == Err::<
                        IoApicInfo,
                        IoApicError,
                    >(IoApicError::GsiOutOfRange),
                    Some(timer) => match entry_of(state, madt.keyboard_gsi) {
                        None => r.1@ == entry_writes(timer, lapic_id, 32) && r.2 == Err::<
                            IoApicInfo,
                            IoApicError,
                        >(IoApicError::GsiOutOfRange),
                        Some(keyboard) => r.1@ == entry_writes(timer, lapic_id, 32)
                            + entry_writes(keyboard, lapic_id, 33) && r.2 == Ok::<
                            IoApicInfo,
                            IoApicError,
                        >(
                            IoApicInfo {
                                entries,
                                timer_gsi: madt.timer_gsi,
                                keyboard_gsi: madt.keyboard_gsi,
                            },
                        ),
                    },
                }
            },
        },
{
    let mut writes: Vec<RegisterWrite> = Vec::new();
    assert(writes@ =~= Seq::<RegisterWrite>::empty());
    let descriptor = match madt.io_apic {
        None => {
            return (None, writes, Err(IoApicError::Missing));
        },
        Some(descriptor) => descriptor,
    };
    let entries: u32 = version / 0x1_0000 % 256 + 1;
    let state = IoApicState { base: descriptor.global_irq_base, entries, lapic_id };
    match find_entry(state, madt.timer_gsi) {
        None => {
            return (Some(state), writes, Err(IoApicError::GsiOutOfRange));
        },
        Some(index) => {
            write_entry(&mut writes, index, lapic_id, TIMER_VECTOR as u32);
            assert(writes@ =~= entry_writes(index as int, lapic_id, 32));
        },
    }
    match find_entry(state, madt.keyboard_gsi) {
        None => {
            return (Some(state), writes, Err(IoApicError::GsiOutOfRange));
        },
        Some(index) => {
            write_entry(&mut writes, index, lapic_id, KEYBOARD_VECTOR as u32);
        },
    }
    (
        Some(state),
        writes,
        Ok(
            IoApicInfo {
                entries,
                timer_gsi: madt.timer_gsi,
                keyboard_gsi: madt.keyboard_gsi,
            },
        ),
    )
}

/// The registers that route an interrupt.
pub fn route_irq(
    state: Option<IoApicState>,
    gsi: u32,
    vector: u8,
    level_triggered: bool,
    active_low: bool,
) -> (r: Result<Vec<RegisterWrite>, IoApicError>)
    requires
        state matches Some(s) ==> s.entries <= 256,
    ensures
        match state {
            None => r == Err::<Vec<RegisterWrite>, IoApicError>(IoApicError::Missing),
            Some(s) => match entry_of(s, gsi) {
                None => r == Err::<Vec<RegisterWrite>, IoApicError>(IoApicError::GsiOutOfRange),
                Some(index) => r matches Ok(writes) && writes@ == entry_writes(
                    index,
                    s.lapic_id,
                    route_flags(vector, level_triggered, active_low),
                ),
            },
        },
{
    let s = match state {
        None => {
            return Err(IoApicError::Missing);
        },
        Some(s) => s,
    };
    match find_entry(s, gsi) {
        None => Err(IoApicError::GsiOutOfRange),
        Some(index) => {
            let mut flags: u32 = vector as u32;
            if active_low {
                flags = flags + 0x2000;
            }
            if level_triggered {
                flags = flags + 0x8000;
            }
            let mut writes: Vec<RegisterWrite> = Vec::new();
            write_entry(&mut writes, index, s.lapic_id, flags);
            assert(writes@ =~= entry_writes(index as int, s.lapic_id, flags));
            Ok(writes)
        },
    }
}

/// The register that masks an interrupt.
pub fn mask_register(state: Option<IoApicState>, gsi: u32) -> (r: Result<u8, IoApicError>)
    requires
        state matches Some(s) ==> s.entries <= 256,
    ensures
        r == match state {
            None => Err::<u8, IoApicError>(IoApicError::Missing),
            Some(s) => match entry_of(s, gsi) {
                None => Err(IoApicError::GsiOutOfRange),
                Some(index) => Ok(register_of(index)),
            },
        },
{
    match state {
        None => Err(IoApicError::Missing),
        Some(s) => match find_entry(s, gsi) {
            None => Err(IoApicError::GsiOutOfRange),
            Some(index) => Ok(((0x10 + index * 2) % 256) as u8),
        },
    }
}

pub open spec fn masked(current: u32, mask: bool) -> u32 {
    let on = current / 0x1_0000 % 2 == 1;
    if mask && !on {
        (current + 0x1_0000) as u32
    } else if !mask && on {
        (current - 0x1_0000) as u32
    } else {
        current
    }
}

/// The value that masks an interrupt or lets it through, from what its register
/// holds.
pub fn mask_irq(state: Option<IoApicState>, gsi: u32, mask: bool, current: u32) -> (r: Result<
    RegisterWrite,
    IoApicError,
>)
    requires
        state matches Some(s) ==> s.entries <= 256,
    ensures
        r == match state {
            None => Err::<RegisterWrite, IoApicError>(IoApicError::Missing),
            Some(s) => match entry_of(s, gsi) {
                None => Err(IoApicError::GsiOutOfRange),
                Some(index) => Ok(
                    RegisterWrite { register: register_of(index), value: masked(current, mask) },
                ),
            },
        },
{
    match mask_register(state, gsi) {
        Err(e) => Err(e),
        Ok(register) => {
            let on: bool = current / 0x1_0000 % 2 == 1;
            let value: u32 = if mask && !on {
                current + 0x1_0000
            } else if !mask && on {
                current - 0x1_0000
            } else {
                current
            };
            Ok(RegisterWrite { register, value })
        },
    }
}

/// Masking an interrupt and letting it through again leaves its register as one
/// that lets it through.
pub proof fn law_mask_undone(current: u32)
    ensures
        masked(masked(current, true), false) == masked(current, false),
        masked(masked(current, true), true) == masked(current, true),
{
}

/// Two interrupts of a controller never share a register, and an entry has both
/// of its registers written: where it goes, then what it does.
pub proof fn law_entries_apart(state: IoApicState, a: u32, b: u32, destination: u8, value: u32)
    requires
        state.entries <= 120,
        a != b,
        entry_of(state, a) is Some,
        entry_of(state, b) is Some,
    ensures
        ({
            let i = entry_of(state, a)->0;
            let j = entry_of(state, b)->0;
            let w = entry_writes(i, destination, value);
            &&& i != j
            &&& 0 <= i < state.entries
            &&& register_of(i) != register_of(j)
            &&& register_of(i) != register_of(j) + 1
            &&& w.len() == 2
            &&& w[0].register == w[1].register + 1
            &&& w[1].register == 0x10 + 2 * (a - state.base)
            &&& w[0].value / 0x100_0000 == destination
            &&& w[1].value == value
        }),
{
}

/// A route keeps its vector, and says apart from it how the line is triggered
/// and which way it is active.
pub proof fn law_route_tells(vector: u8, level_triggered: bool, active_low: bool)
    ensures
        ({
            let f = route_flags(vector, level_triggered, active_low);
            &&& f % 256 == vector
            &&& f / 0x2000 % 2 == 1 <==> active_low
            &&& f / 0x8000 % 2 == 1 <==> level_triggered
            &&& f / 0x1_0000 == 0
        }),
{
}

} // verus!
