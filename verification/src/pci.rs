//! The configuration space of devices: how it is reached, and which devices are
//! in it.
use vstd::prelude::*;

use crate::acpi::PciEcamRegion;
use crate::paging::{self, AddressSpace, MAP_CACHE_DISABLE, MAP_WRITABLE, Machine};

verus! {

pub const CONFIG_ADDRESS_PORT: u16 = 0xcf8;

pub const CONFIG_DATA_PORT: u16 = 0xcfc;

/// Where a page of the memory-mapped configuration space is seen.
pub const ECAM_WINDOW: u64 = 0xffff_fea0_0000_0000;

#[derive(Clone, Copy, Debug, PartialEq, Eq, Structural)]
pub struct PciAddress {
    pub bus: u8,
    pub device: u8,
    pub function: u8,
}

#[derive(Clone, Copy, Debug, PartialEq, Eq, Structural)]
pub struct PciDevice {
    pub address: PciAddress,
    pub vendor_id: u16,
    pub device_id: u16,
    pub class_code: u8,
    pub subclass: u8,
    pub programming_interface: u8,
}

// ---------------------------------------------------------------------------
// Access
// ---------------------------------------------------------------------------
/// The word that selects a register through the address port.
pub open spec fn selector(address: PciAddress, offset: u8) -> u32 {
    0x8000_0000u32 | ((address.bus as u32) << 16u32) | ((address.device as u32) << 11u32) | ((
    address.function as u32) << 8u32) | ((offset as u32) & 0xfcu32)
}

pub fn config_address(address: PciAddress, offset: u8) -> (r: u32)
    ensures
        r == selector(address, offset),
{
    0x8000_0000u32 | ((address.bus as u32) << 16u32) | ((address.device as u32) << 11u32) | ((
    address.function as u32) << 8u32) | ((offset as u32) & 0xfcu32)
}

/// Where a register stands in memory, if the region covers its bus.
pub open spec fn ecam_place(region: PciEcamRegion, address: PciAddress, offset: u8) -> Option<u64> {
    let place = region.base_address + (address.bus - region.start_bus) * 0x10_0000
        + address.device * 0x8000 + address.function * 0x1000 + offset as int / 4 * 4;
    if address.bus < region.start_bus || address.bus > region.end_bus || place > u64::MAX {
        None
    } else {
        Some(place as u64)
    }
}

pub fn ecam_address(region: PciEcamRegion, address: PciAddress, offset: u8) -> (r: Option<u64>)
    ensures
        r == ecam_place(region, address, offset),
{
    if address.bus < region.start_bus || address.bus > region.end_bus {
        return None;
    }
    let inside: u64 = (address.bus - region.start_bus) as u64 * 0x10_0000 + address.device as u64
        * 0x8000 + address.function as u64 * 0x1000 + (offset / 4 * 4) as u64;
    region.base_address.checked_add(inside)
}

/// How a register is reached.
#[derive(Clone, Copy, Debug, PartialEq, Eq, Structural)]
pub enum Access {
    /// Through the ports, with this word in the address port.
    Port(u32),
    /// In memory.
    Memory(u64),
    /// Not at all: reads give ones, writes are lost.
    Nowhere,
}

/// How the register of a device is reached: in memory where a region is known,
/// and through the ports otherwise.
pub fn config_access(region: Option<PciEcamRegion>, address: PciAddress, offset: u8) -> (r: Access)
    requires
        offset % 4 == 0,
    ensures
        r == match region {
            Some(region) => match ecam_place(region, address, offset) {
                Some(place) => Access::Memory(place),
                None => Access::Nowhere,
            },
            None => Access::Port(selector(address, offset)),
        },
{
    match region {
        Some(region) => match ecam_address(region, address, offset) {
            Some(place) => Access::Memory(place),
            None => Access::Nowhere,
        },
        None => Access::Port(config_address(address, offset)),
    }
}

pub open spec fn is_usable(region: PciEcamRegion) -> bool {
    region.segment_group == 0 && region.start_bus <= region.end_bus && region.base_address % 0x1000
        == 0
}

/// Takes a region as the way to reach registers, if it can be.
pub fn configure_ecam(current: &mut Option<PciEcamRegion>, region: PciEcamRegion) -> (r: bool)
    ensures
        r == is_usable(region),
        *final(current) == if r {
            Some(region)
        } else {
            *old(current)
        },
{
    if region.segment_group != 0 || region.start_bus > region.end_bus || region.base_address
        % 0x1000 != 0 {
        return false;
    }
    *current = Some(region);
    true
}

/// Turns the window to the page of a register. It must not be in use.
pub fn map_ecam_page(machine: &mut Machine, physical: u64) -> (r: bool)
    requires
        old(machine).wf(),
    ensures
        final(machine).wf(),
        final(machine).same_place(old(machine)),
        ({
            let space = AddressSpace { pml4_phys: paging::address_of(old(machine).cr3) };
            let (after, mapping) = old(machine)@.mapped(
                space,
                ECAM_WINDOW,
                (physical / 4096 * 4096) as u64,
                MAP_WRITABLE | MAP_CACHE_DISABLE,
            );
            if old(machine)@.translated(space, ECAM_WINDOW) is Some {
                !r && final(machine)@ == old(machine)@
            } else {
                r == (mapping is Ok) && final(machine)@ == after
            }
        }),
{
    if paging::translate(machine, ECAM_WINDOW).is_some() {
        return false;
    }
    let space = paging::current_address_space(machine);
    paging::map(
        machine,
        space,
        ECAM_WINDOW,
        physical / 4096 * 4096,
        MAP_WRITABLE | MAP_CACHE_DISABLE,
    ).is_ok()
}

/// Checks the words for the first and the last register.
pub fn self_check() -> (r: bool)
    ensures
        r,
{
    let first = PciAddress { bus: 0, device: 0, function: 0 };
    let last = PciAddress { bus: 255, device: 31, function: 7 };
    proof {
        assert(0x8000_0000u32 | (0u32 << 16u32) | (0u32 << 11u32) | (0u32 << 8u32) | (0u32
            & 0xfcu32) == 0x8000_0000u32) by (bit_vector);
        assert(0x8000_0000u32 | (255u32 << 16u32) | (31u32 << 11u32) | (7u32 << 8u32) | (0xfcu32
            & 0xfcu32) == 0x80ff_fffcu32) by (bit_vector);
    }
    config_address(first, 0) == 0x8000_0000 && config_address(last, 0xfc) == 0x80ff_fffc
}

// ---------------------------------------------------------------------------
// Discovery
// ---------------------------------------------------------------------------
/// Whether a configuration space is what is read.
pub open spec fn agrees<F: Fn(PciAddress, u8) -> u32>(
    read: F,
    space: spec_fn(PciAddress, u8) -> u32,
) -> bool {
    forall|a: PciAddress, o: u8, v: u32| #[trigger] read.ensures((a, o), v) ==> v == space(a, o)
}

/// The device at an address, if there is one.
pub open spec fn device_in(space: spec_fn(PciAddress, u8) -> u32, address: PciAddress) -> Option<
    PciDevice,
> {
    let id = space(address, 0);
    let class = space(address, 8);
    if id % 0x1_0000 == 0xffff {
        None
    } else {
        Some(described(address, id, class))
    }
}

pub open spec fn described(address: PciAddress, id: u32, class: u32) -> PciDevice {
    PciDevice {
        address,
        vendor_id: (id % 0x1_0000) as u16,
        device_id: (id / 0x1_0000) as u16,
        class_code: (class / 0x100_0000) as u8,
        subclass: (class / 0x1_0000 % 256) as u8,
        programming_interface: (class / 0x100 % 256) as u8,
    }
}

pub open spec fn at(bus: int, device: int, function: int) -> PciAddress {
    PciAddress { bus: bus as u8, device: device as u8, function: function as u8 }
}

/// The functions after the first, up to a number.
pub open spec fn functions_in(
    space: spec_fn(PciAddress, u8) -> u32,
    bus: int,
    device: int,
    upto: int,
) -> Seq<PciDevice>
    decreases upto,
{
    if upto <= 1 {
        Seq::empty()
    } else {
        let before = functions_in(space, bus, device, upto - 1);
        match device_in(space, at(bus, device, upto - 1)) {
            Some(found) => before.push(found),
            None => before,
        }
    }
}

/// What is found in a slot: its first function, and the others where the first
/// says that there are some.
pub open spec fn slot_in(space: spec_fn(PciAddress, u8) -> u32, bus: int, device: int) -> Seq<
    PciDevice,
> {
    match device_in(space, at(bus, device, 0)) {
        None => Seq::empty(),
        Some(first) => if space(at(bus, device, 0), 0x0c) / 0x80_0000 % 2 == 0 {
            seq![first]
        } else {
            seq![first] + functions_in(space, bus, device, 8)
        },
    }
}

/// What is found in all slots before a number, bus by bus.
pub open spec fn slots_in(space: spec_fn(PciAddress, u8) -> u32, upto: int) -> Seq<PciDevice>
    decreases upto,
{
    if upto <= 0 {
        Seq::empty()
    } else {
        slots_in(space, upto - 1) + slot_in(space, (upto - 1) / 32, (upto - 1) % 32)
    }
}

fn device_at<F: Fn(PciAddress, u8) -> u32>(read: &F, address: PciAddress) -> (r: Option<PciDevice>)
    requires
        forall|a: PciAddress, o: u8| #[trigger] read.requires((a, o)),
    ensures
        forall|space: spec_fn(PciAddress, u8) -> u32| #[trigger]
            agrees(*read, space) ==> r == device_in(space, address),
{
    let id: u32 = read(address, 0);
    let vendor: u32 = id % 0x1_0000;
    if vendor == 0xffff {
        return None;
    }
    let class: u32 = read(address, 8);
    Some(
        PciDevice {
            address,
            vendor_id: vendor as u16,
            device_id: (id / 0x1_0000) as u16,
            class_code: (class / 0x100_0000) as u8,
            subclass: (class / 0x1_0000 % 256) as u8,
            programming_interface: (class / 0x100 % 256) as u8,
        },
    )
}

/// All devices, found by reading registers of the configuration space.
pub fn devices<F: Fn(PciAddress, u8) -> u32>(read: &F) -> (r: Vec<PciDevice>)
    requires
        forall|a: PciAddress, o: u8| #[trigger] read.requires((a, o)),
    ensures
        forall|space: spec_fn(PciAddress, u8) -> u32| #[trigger]
            agrees(*read, space) ==> r@ == slots_in(space, 8192),
{
    let mut found: Vec<PciDevice> = Vec::new();
    let mut slot: u32 = 0;
    assert(found@ =~= Seq::<PciDevice>::empty());
    while slot < 8192
        invariant
            slot <= 8192,
            forall|a: PciAddress, o: u8| #[trigger] read.requires((a, o)),
            forall|space: spec_fn(PciAddress, u8) -> u32| #[trigger]
                agrees(*read, space) ==> found@ == slots_in(space, slot as int),
        decreases 8192 - slot,
    {
        let bus: u8 = (slot / 32) as u8;
        let device: u8 = (slot % 32) as u8;
        let ghost before = found@;
        find_slot(read, bus, device, &mut found);
        slot += 1;
        assert forall|space: spec_fn(PciAddress, u8) -> u32| #[trigger]
            agrees(*read, space) implies found@ == slots_in(space, slot as int) by {
            assert(before == slots_in(space, slot - 1));
        }
    }
    found
}

fn find_slot<F: Fn(PciAddress, u8) -> u32>(
    read: &F,
    bus: u8,
    device: u8,
    found: &mut Vec<PciDevice>,
)
    requires
        forall|a: PciAddress, o: u8| #[trigger] read.requires((a, o)),
    ensures
        forall|space: spec_fn(PciAddress, u8) -> u32| #[trigger]
            agrees(*read, space) ==> final(found)@ == old(found)@ + slot_in(
                space,
                bus as int,
                device as int,
            ),
{
    let ghost before = found@;
    let address = PciAddress { bus, device, function: 0 };
    let first = match device_at(read, address) {
        None => {
            assert(found@ =~= before + Seq::<PciDevice>::empty());
            return;
        },
        Some(first) => first,
    };
    found.push(first);
    let kind: u32 = read(address, 0x0c);
    if kind / 0x80_0000 % 2 == 0 {
        assert(found@ =~= before + seq![first]);
        return;
    }
    let mut function: u8 = 1;
    assert(found@ =~= before + seq![first] + Seq::<PciDevice>::empty());
    while function < 8
        invariant
            1 <= function <= 8,
            forall|a: PciAddress, o: u8| #[trigger] read.requires((a, o)),
            forall|space: spec_fn(PciAddress, u8) -> u32| #[trigger]
                agrees(*read, space) ==> found@ == before + seq![first] + functions_in(
                    space,
                    bus as int,
                    device as int,
                    function as int,
                ),
        decreases 8 - function,
    {
        let ghost so_far = found@;
        let next = device_at(read, PciAddress { bus, device, function });
        if let Some(other) = next {
            found.push(other);
        }
        function += 1;
        assert forall|space: spec_fn(PciAddress, u8) -> u32| #[trigger]
            agrees(*read, space) implies found@ == before + seq![first] + functions_in(
            space,
            bus as int,
            device as int,
            function as int,
        ) by {
            let upto = functions_in(space, bus as int, device as int, function - 1);
            assert(so_far == before + seq![first] + upto);
            assert(next == device_in(space, at(bus as int, device as int, function - 1)));
            if let Some(other) = next {
                assert(found@ =~= before + seq![first] + upto.push(other));
            }
        }
    }
    assert forall|space: spec_fn(PciAddress, u8) -> u32| #[trigger]
        agrees(*read, space) implies found@ == before + slot_in(
        space,
        bus as int,
        device as int,
    ) by {
        assert(kind == space(address, 0x0c));
        assert(found@ =~= before + (seq![first] + functions_in(
            space,
            bus as int,
            device as int,
            8,
        )));
    }
}

proof fn lemma_selector(b: u8, d: u8, f: u8, o: u8)
    by (bit_vector)
    requires
        d < 32,
        f < 8,
    ensures
        ({
            let s = 0x8000_0000u32 | ((b as u32) << 16u32) | ((d as u32) << 11u32) | ((f as u32)
                << 8u32) | ((o as u32) & 0xfcu32);
            &&& s / 0x8000_0000 == 1
            &&& s / 0x1_0000 % 256 == b
            &&& s / 0x800 % 32 == d
            &&& s / 0x100 % 8 == f
            &&& s % 256 == o / 4 * 4
        }),
{
}

/// The word that selects a register says which: its bus, device and function
/// and the place of its word are told from it, so that no two functions are
/// mixed up.
pub proof fn law_selector_tells(address: PciAddress, offset: u8)
    requires
        address.device < 32,
        address.function < 8,
    ensures
        ({
            let s = selector(address, offset);
            &&& s / 0x8000_0000 == 1
            &&& s / 0x1_0000 % 256 == address.bus
            &&& s / 0x800 % 32 == address.device
            &&& s / 0x100 % 8 == address.function
            &&& s % 256 == offset / 4 * 4
        }),
{
    lemma_selector(address.bus, address.device, address.function, offset);
}

/// Registers of two functions stand at different places in memory, and those of
/// one function in one page.
pub proof fn law_registers_apart(
    region: PciEcamRegion,
    a: PciAddress,
    b: PciAddress,
    x: u8,
    y: u8,
)
    requires
        a.device < 32,
        a.function < 8,
        b.device < 32,
        b.function < 8,
        ecam_place(region, a, x) is Some,
        ecam_place(region, b, y) is Some,
        region.base_address % 0x1000 == 0,
    ensures
        a == b <==> ecam_place(region, a, x)->0 / 0x1000 == ecam_place(region, b, y)->0 / 0x1000,
        a == b && x / 4 != y / 4 ==> ecam_place(region, a, x) != ecam_place(region, b, y),
        ecam_place(region, a, x)->0 % 4 == 0,
        ecam_place(region, a, x)->0 % 0x1000 == x / 4 * 4,
{
}

/// What is found of a device are its numbers: the two halves of its first word
/// and the three upper bytes of its third.
pub proof fn law_device_described(address: PciAddress, id: u32, class: u32)
    ensures
        ({
            let d = described(address, id, class);
            &&& d.address == address
            &&& d.device_id * 0x1_0000 + d.vendor_id == id
            &&& d.class_code * 0x1_0000 + d.subclass * 0x100 + d.programming_interface == class
                / 0x100
        }),
{
}

proof fn lemma_functions(
    space: spec_fn(PciAddress, u8) -> u32,
    bus: int,
    device: int,
    upto: int,
    function: int,
)
    requires
        1 <= function < upto,
        device_in(space, at(bus, device, function)) is Some,
    ensures
        functions_in(space, bus, device, upto).contains(
            device_in(space, at(bus, device, function))->0,
        ),
    decreases upto,
{
    let wanted = device_in(space, at(bus, device, function))->0;
    let before = functions_in(space, bus, device, upto - 1);
    let all = functions_in(space, bus, device, upto);
    if function == upto - 1 {
        assert(all[before.len() as int] == wanted);
    } else {
        lemma_functions(space, bus, device, upto - 1, function);
        let i = before.index_of(wanted);
        assert(all[i] == wanted);
    }
}

/// Every device is found: the first function of each slot before a number, and
/// the others of a slot whose first function says that there are some.
pub proof fn law_devices_found(
    space: spec_fn(PciAddress, u8) -> u32,
    upto: int,
    slot: int,
    function: int,
)
    requires
        0 <= slot < upto,
        0 <= function < 8,
        device_in(space, at(slot / 32, slot % 32, 0)) is Some,
        device_in(space, at(slot / 32, slot % 32, function)) is Some,
        function > 0 ==> space(at(slot / 32, slot % 32, 0), 0x0c) / 0x80_0000 % 2 == 1,
    ensures
        slots_in(space, upto).contains(
            device_in(space, at(slot / 32, slot % 32, function))->0,
        ),
    decreases upto,
{
    let wanted = device_in(space, at(slot / 32, slot % 32, function))->0;
    let before = slots_in(space, upto - 1);
    let here = slot_in(space, (upto - 1) / 32, (upto - 1) % 32);
    let all = slots_in(space, upto);
    if slot < upto - 1 {
        law_devices_found(space, upto - 1, slot, function);
        let i = before.index_of(wanted);
        assert(all[i] == wanted);
    } else {
        if function == 0 {
            assert(here[0] == wanted);
            assert(all[before.len() as int] == wanted);
        } else {
            lemma_functions(space, slot / 32, slot % 32, 8, function);
            let others = functions_in(space, slot / 32, slot % 32, 8);
            let i = others.index_of(wanted);
            assert(here[i + 1] == wanted);
            assert(all[before.len() + i + 1] == wanted);
        }
    }
}

} // verus!
