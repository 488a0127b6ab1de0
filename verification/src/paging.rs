//! Virtual memory: four-level x86-64 page tables in physical memory, reached
//! through a direct map.
use vstd::prelude::*;

pub mod tree;

use crate::bytes::{self, get_le64, push_le64, put_vec};
use crate::memory::{self, BuddyView, Memory, PAGE_SIZE, PhysFrame};

verus! {

#[derive(Clone, Copy, Debug, PartialEq, Eq, Structural)]
pub struct Translation {
    pub physical_address: u64,
    pub page_size: u64,
}

#[derive(Clone, Copy, Debug, PartialEq, Eq, Structural)]
pub struct PageTableSummary {
    pub hhdm_offset: u64,
    pub cr3: u64,
    pub present_pml4_entries: usize,
}

#[derive(Clone, Copy, Debug, PartialEq, Eq, Structural)]
pub struct AddressSpace {
    pub pml4_phys: u64,
}

#[derive(Clone, Copy, Debug, PartialEq, Eq, Structural)]
pub enum MapError {
    NoHhdm,
    OutOfMemory,
    UnalignedAddress,
    AlreadyMapped,
    HugePageConflict,
    ActiveAddressSpace,
    MappingsRemain,
    FrameReleaseFailed,
}

pub const MAP_WRITABLE: u64 = 0x2;

pub const MAP_USER: u64 = 0x4;

pub const MAP_CACHE_DISABLE: u64 = 0x10;

pub const MAP_NO_EXECUTE: u64 = 0x8000_0000_0000_0000;

// ---------------------------------------------------------------------------
// Entries
// ---------------------------------------------------------------------------
pub open spec fn present(entry: u64) -> bool {
    entry % 2 == 1
}

pub open spec fn huge(entry: u64) -> bool {
    entry / 128 % 2 == 1
}

pub open spec fn for_user(flags: u64) -> bool {
    flags / 4 % 2 == 1
}

/// The page that an entry points to: bits 12 to 51.
pub open spec fn address_of(entry: u64) -> u64 {
    (entry % 0x10_0000_0000_0000 / 4096 * 4096) as u64
}

/// The places of an address in the tables of its four levels, the highest first.
pub open spec fn index_pml4(address: u64) -> int {
    (address / 0x80_0000_0000 % 512) as int
}

pub open spec fn index_pdpt(address: u64) -> int {
    (address / 0x4000_0000 % 512) as int
}

pub open spec fn index_pd(address: u64) -> int {
    (address / 0x20_0000 % 512) as int
}

pub open spec fn index_pt(address: u64) -> int {
    (address / 4096 % 512) as int
}

#[verifier::opaque]
pub open spec fn word_at(ram: Seq<u8>, at: int) -> u64 {
    bytes::le64_at(ram, at) as u64
}

/// A word that is written is read back, and no word beside it changes.
proof fn lemma_word_write(ram: Seq<u8>, at: int, value: u64)
    requires
        0 <= at,
        at + 8 <= ram.len(),
    ensures
        word_at(bytes::splice(ram, at, bytes::le64_bytes(value)), at) == value,
        forall|other: int|
            other + 8 <= at || at + 8 <= other ==> #[trigger] word_at(
                bytes::splice(ram, at, bytes::le64_bytes(value)),
                other,
            ) == word_at(ram, other) || other < 0 || other + 8 > ram.len(),
{
    reveal(word_at);
    let s = bytes::splice(ram, at, bytes::le64_bytes(value));
    let a = ram.take(at);
    let b = ram.skip(at + 8);
    assert(s =~= a + bytes::le64_bytes(value) + b);
    crate::bytes::le_round_trip(a, b, 0, 0, value);
    assert forall|other: int|
        (other + 8 <= at || at + 8 <= other) && 0 <= other && other + 8 <= ram.len() implies #[trigger] word_at(
        s,
        other,
    ) == word_at(ram, other) by {
        assert(s[other] == ram[other] && s[other + 1] == ram[other + 1] && s[other + 2] == ram[other
            + 2] && s[other + 3] == ram[other + 3] && s[other + 4] == ram[other + 4] && s[other + 5]
            == ram[other + 5] && s[other + 6] == ram[other + 6] && s[other + 7] == ram[other + 7]);
    }
}

// ---------------------------------------------------------------------------
// The machine
// ---------------------------------------------------------------------------
/// The memory of the machine: its frames and who uses them, what is stored in
/// it, where the direct map starts, and the root of the active page tables.
pub struct Machine {
    pub memory: Memory,
    pub ram: Vec<u8>,
    pub hhdm: Option<u64>,
    pub cr3: u64,
}

#[verifier::ext_equal]
pub struct MachineView {
    pub frames: BuddyView,
    pub ram: Seq<u8>,
    pub hhdm: Option<u64>,
    pub cr3: u64,
}

impl MachineView {
    /// Where the direct map has a physical address.
    pub open spec fn virt(self, phys: u64) -> Option<u64> {
        match self.hhdm {
            Some(base) if base + phys <= u64::MAX => Some((base + phys) as u64),
            _ => None,
        }
    }

    /// Whether an entry of a table can be reached: through the direct map, and
    /// in memory that there is.
    pub open spec fn reachable(self, table: u64, index: int) -> bool {
        &&& self.hhdm matches Some(base) && base + table + index * 8 <= u64::MAX
        &&& table + index * 8 + 8 <= self.ram.len()
    }

    pub open spec fn entry(self, table: u64, index: int) -> Option<u64> {
        if self.reachable(table, index) {
            Some(word_at(self.ram, table + index * 8))
        } else {
            None
        }
    }

    pub open spec fn with_entry(self, table: u64, index: int, value: u64) -> MachineView {
        MachineView { ram: bytes::splice(self.ram, table + index * 8, bytes::le64_bytes(value)), ..self }
    }

    /// A frame handed out, if there is one: its address and what is left.
    pub open spec fn frame_taken(self) -> Option<(MachineView, u64)> {
        match self.frames.candidate(0) {
            None => None,
            Some(p) => Some(
                (MachineView { frames: self.frames.handed_out(0), ..self }, (p * 4096) as u64),
            ),
        }
    }

    pub open spec fn page_zeroed(self, phys: u64) -> MachineView {
        MachineView { ram: bytes::splice(self.ram, phys as int, bytes::zeros(4096)), ..self }
    }

    /// A new empty table. A frame outside the direct map is lost.
    pub open spec fn table_taken(self) -> (MachineView, Result<u64, MapError>) {
        match self.frame_taken() {
            None => (self, Err(MapError::OutOfMemory)),
            Some((m, phys)) => if m.virt(phys) is None {
                (m, Err(MapError::NoHhdm))
            } else {
                (m.page_zeroed(phys), Ok(phys))
            },
        }
    }

    /// The table below an entry; made, if it is missing and wanted.
    pub open spec fn step(self, table: u64, index: int, create: bool, user: bool) -> (
        MachineView,
        Result<Option<u64>, MapError>,
    ) {
        match self.entry(table, index) {
            None => (self, Err(MapError::NoHhdm)),
            Some(e) => if present(e) {
                if huge(e) {
                    (self, Err(MapError::HugePageConflict))
                } else {
                    (self, Ok(Some(address_of(e))))
                }
            } else if !create {
                (self, Ok(None))
            } else {
                match self.table_taken() {
                    (m, Err(e)) => (m, Err(e)),
                    (m, Ok(new)) => (
                        m.with_entry(
                            table,
                            index,
                            (new + (if user {
                                7int
                            } else {
                                3
                            })) as u64,
                        ),
                        Ok(Some(new)),
                    ),
                }
            },
        }
    }

    /// The lowest table of an address.
    pub open spec fn walk(self, space: AddressSpace, address: u64, create: bool, user: bool) -> (
        MachineView,
        Result<Option<u64>, MapError>,
    ) {
        match self.step(space.pml4_phys, index_pml4(address), create, user) {
            (m1, Ok(Some(pdpt))) => match m1.step(pdpt, index_pdpt(address), create, user) {
                (m2, Ok(Some(pd))) => m2.step(pd, index_pd(address), create, user),
                other => other,
            },
            other => other,
        }
    }

    /// What an address stands for.
    pub open spec fn translated(self, space: AddressSpace, address: u64) -> Option<Translation> {
        match self.entry(space.pml4_phys, index_pml4(address)) {
            Some(e4) if present(e4) => match self.entry(address_of(e4), index_pdpt(address)) {
                Some(e3) if present(e3) => if huge(e3) {
                    Some(
                        Translation {
                            physical_address: (e3 % 0x10_0000_0000_0000 / 0x40_0000_0000
                                * 0x40_0000_0000 + address % 0x4000_0000) as u64,
                            page_size: 0x4000_0000,
                        },
                    )
                } else {
                    match self.entry(address_of(e3), index_pd(address)) {
                        Some(e2) if present(e2) => if huge(e2) {
                            Some(
                                Translation {
                                    physical_address: (e2 % 0x10_0000_0000_0000 / 0x20_0000
                                        * 0x20_0000 + address % 0x20_0000) as u64,
                                    page_size: 0x20_0000,
                                },
                            )
                        } else {
                            match self.entry(address_of(e2), index_pt(address)) {
                                Some(e1) if present(e1) => Some(
                                    Translation {
                                        physical_address: (address_of(e1) + address % 4096) as u64,
                                        page_size: 4096,
                                    },
                                ),
                                _ => None,
                            }
                        },
                        _ => None,
                    }
                },
                _ => None,
            },
            _ => None,
        }
    }

    /// One page mapped.
    pub open spec fn mapped(self, space: AddressSpace, address: u64, phys: u64, flags: u64) -> (
        MachineView,
        Result<(), MapError>,
    ) {
        if address % 4096 != 0 || phys % 4096 != 0 {
            (self, Err(MapError::UnalignedAddress))
        } else {
            match self.walk(space, address, true, for_user(flags)) {
                (m, Err(e)) => (m, Err(e)),
                (m, Ok(None)) => (m, Err(MapError::NoHhdm)),
                (m, Ok(Some(table))) => match m.entry(table, index_pt(address)) {
                    None => (m, Err(MapError::NoHhdm)),
                    Some(e) => if present(e) {
                        (m, Err(MapError::AlreadyMapped))
                    } else {
                        (
                            m.with_entry(
                                table,
                                index_pt(address),
                                address_of(phys) | flags | 1u64,
                            ),
                            Ok(()),
                        )
                    },
                },
            }
        }
    }

    /// One page no longer mapped; the page that was.
    pub open spec fn unmapped(self, space: AddressSpace, address: u64) -> (
        MachineView,
        Result<Option<u64>, MapError>,
    ) {
        if address % 4096 != 0 {
            (self, Err(MapError::UnalignedAddress))
        } else {
            match self.walk(space, address, false, false).1 {
                Err(e) => (self, Err(e)),
                Ok(None) => (self, Ok(None)),
                Ok(Some(table)) => match self.entry(table, index_pt(address)) {
                    None => (self, Err(MapError::NoHhdm)),
                    Some(e) => if !present(e) {
                        (self, Ok(None))
                    } else {
                        (
                            self.with_entry(table, index_pt(address), 0),
                            Ok(Some(address_of(e))),
                        )
                    },
                },
            }
        }
    }
}

impl Machine {
    pub open spec fn view(&self) -> MachineView {
        MachineView { frames: self.memory@, ram: self.ram@, hhdm: self.hhdm, cr3: self.cr3 }
    }

    /// All frames that are managed are in memory.
    pub open spec fn wf(&self) -> bool {
        self.memory.wf() && self.memory@.frames.len() * 4096 <= self.ram.len()
    }

    /// What everything here keeps: the statistics, the direct map and the
    /// active tables.
    pub open spec fn same_place(&self, other: &Machine) -> bool {
        &&& self.memory.stats == other.memory.stats
        &&& self.hhdm == other.hhdm
        &&& self.cr3 == other.cr3
        &&& self.ram.len() == other.ram.len()
        &&& self.memory@.frames.len() == other.memory@.frames.len()
    }
}

pub fn init(machine: &mut Machine, hhdm_offset: u64)
    ensures
        final(machine)@ == (MachineView { hhdm: Some(hhdm_offset), ..old(machine)@ }),
        old(machine).wf() ==> final(machine).wf(),
{
    machine.hhdm = Some(hhdm_offset);
}

pub fn hhdm_offset(machine: &Machine) -> (r: Option<u64>)
    ensures
        r == machine.hhdm,
{
    machine.hhdm
}

pub fn phys_to_virt(machine: &Machine, physical_address: u64) -> (r: Option<u64>)
    ensures
        r == machine@.virt(physical_address),
{
    match machine.hhdm {
        None => None,
        Some(base) => base.checked_add(physical_address),
    }
}

pub fn virt_to_phys(machine: &Machine, virtual_address: u64) -> (r: Option<u64>)
    ensures
        r == (match machine.hhdm {
            Some(base) if virtual_address >= base => Some((virtual_address - base) as u64),
            _ => None,
        }),
{
    match machine.hhdm {
        None => None,
        Some(base) => virtual_address.checked_sub(base),
    }
}

pub fn current_cr3(machine: &Machine) -> (r: u64)
    ensures
        r == address_of(machine.cr3),
{
    machine.cr3 % 0x10_0000_0000_0000 / 4096 * 4096
}

pub fn current_address_space(machine: &Machine) -> (r: AddressSpace)
    ensures
        r.pml4_phys == address_of(machine.cr3),
{
    AddressSpace { pml4_phys: current_cr3(machine) }
}

fn read_entry(machine: &Machine, table: u64, index: usize) -> (r: Option<u64>)
    requires
        index < 512,
    ensures
        r == machine@.entry(table, index as int),
{
    let length: u64 = machine.ram.len() as u64;
    let offset: u64 = index as u64 * 8;
    match machine.hhdm {
        None => None,
        Some(base) => {
            if table > u64::MAX - base || offset > u64::MAX - base - table {
                return None;
            }
            if length < 8 || table + offset > length - 8 {
                return None;
            }
            proof {
                reveal(word_at);
            }
            Some(get_le64(machine.ram.as_slice(), (table + offset) as usize))
        },
    }
}

/// Writes an entry that can be reached.
fn write_entry(machine: &mut Machine, table: u64, index: usize, value: u64)
    requires
        old(machine).wf(),
        index < 512,
        old(machine)@.reachable(table, index as int),
    ensures
        final(machine).wf(),
        final(machine)@ == old(machine)@.with_entry(table, index as int, value),
        final(machine).same_place(old(machine)),
{
    let mut bytes: Vec<u8> = Vec::new();
    push_le64(&mut bytes, value);
    assert(bytes@ =~= bytes::le64_bytes(value));
    let at: usize = (table + index as u64 * 8) as usize;
    put_vec(&mut machine.ram, at, bytes.as_slice());
}

/// Takes a frame, if there is one.
pub(crate) fn take_frame(machine: &mut Machine) -> (r: Option<u64>)
    requires
        old(machine).wf(),
    ensures
        final(machine).wf(),
        final(machine).same_place(old(machine)),
        match r {
            None => old(machine)@.frame_taken() is None && *final(machine) == *old(machine),
            Some(phys) => {
                &&& old(machine)@.frame_taken() == Some((final(machine)@, phys))
                &&& phys % 4096 == 0
                &&& phys + 4096 <= final(machine).ram.len()
                &&& phys < 0x10_0000_0000
            },
        },
{
    let ghost v = machine.memory@;
    match machine.memory.allocator.alloc_one() {
        None => None,
        Some(frame) => {
            proof {
                crate::memory::law_handed_out_was_unused(v, 0);
                crate::memory::lemma_handed_out_length(v, 0);
                reveal_with_fuel(crate::memory::span, 1);
                let p = v.candidate(0)->0;
                assert(p * 4096 == frame.0);
                assert(p + 1 <= v.frames.len());
            }
            Some(frame.0)
        },
    }
}

/// Makes a page of memory zero.
pub(crate) fn zero_page(machine: &mut Machine, phys: u64)
    requires
        old(machine).wf(),
        phys + 4096 <= old(machine).ram.len(),
    ensures
        final(machine).wf(),
        final(machine)@ == old(machine)@.page_zeroed(phys),
        final(machine).same_place(old(machine)),
{
    let start: usize = phys as usize;
    let ghost before = machine.ram@;
    let mut i: usize = 0;
    while i < 4096
        invariant
            i <= 4096,
            start == phys,
            start + 4096 <= machine.ram.len(),
            machine.ram@.len() == before.len(),
            machine.memory == old(machine).memory,
            machine.hhdm == old(machine).hhdm,
            machine.cr3 == old(machine).cr3,
            forall|j: int|
                0 <= j < before.len() ==> machine.ram@[j] == if start <= j < start + i {
                    0
                } else {
                    before[j]
                },
        decreases 4096 - i,
    {
        machine.ram[start + i] = 0;
        i += 1;
    }
    assert(machine.ram@ =~= bytes::splice(before, phys as int, bytes::zeros(4096)));
}

pub(crate) fn allocate_table(machine: &mut Machine) -> (r: Result<u64, MapError>)
    requires
        old(machine).wf(),
    ensures
        final(machine).wf(),
        final(machine).same_place(old(machine)),
        (final(machine)@, r) == old(machine)@.table_taken(),
        r matches Ok(table) ==> table % 4096 == 0 && table + 4096 <= final(machine).ram.len()
            && table < 0x10_0000_0000,
{
    match take_frame(machine) {
        None => Err(MapError::OutOfMemory),
        Some(phys) => {
            if phys_to_virt(machine, phys).is_none() {
                return Err(MapError::NoHhdm);
            }
            zero_page(machine, phys);
            Ok(phys)
        },
    }
}

fn step_table(
    machine: &mut Machine,
    table: u64,
    index: usize,
    create: bool,
    user: bool,
) -> (r: Result<Option<u64>, MapError>)
    requires
        old(machine).wf(),
        index < 512,
    ensures
        final(machine).wf(),
        final(machine).same_place(old(machine)),
        (final(machine)@, r) == old(machine)@.step(table, index as int, create, user),
{
    match read_entry(machine, table, index) {
        None => Err(MapError::NoHhdm),
        Some(e) => {
            if e % 2 == 1 {
                if e / 128 % 2 == 1 {
                    return Err(MapError::HugePageConflict);
                }
                return Ok(Some(e % 0x10_0000_0000_0000 / 4096 * 4096));
            }
            if !create {
                return Ok(None);
            }
            match allocate_table(machine) {
                Err(e) => Err(e),
                Ok(new) => {
                    let flags: u64 = if user {
                        7
                    } else {
                        3
                    };
                    write_entry(machine, table, index, new + flags);
                    Ok(Some(new))
                },
            }
        },
    }
}

fn pte_table(machine: &mut Machine, space: AddressSpace, address: u64, create: bool, user: bool) -> (r:
    Result<Option<u64>, MapError>)
    requires
        old(machine).wf(),
    ensures
        final(machine).wf(),
        final(machine).same_place(old(machine)),
        (final(machine)@, r) == old(machine)@.walk(space, address, create, user),
{
    let i4: usize = (address / 0x80_0000_0000 % 512) as usize;
    let i3: usize = (address / 0x4000_0000 % 512) as usize;
    let i2: usize = (address / 0x20_0000 % 512) as usize;
    let pdpt: u64 = match step_table(machine, space.pml4_phys, i4, create, user) {
        Ok(Some(t)) => t,
        Ok(None) => {
            return Ok(None);
        },
        Err(e) => {
            return Err(e);
        },
    };
    let pd: u64 = match step_table(machine, pdpt, i3, create, user) {
        Ok(Some(t)) => t,
        Ok(None) => {
            return Ok(None);
        },
        Err(e) => {
            return Err(e);
        },
    };
    step_table(machine, pd, i2, create, user)
}

/// The lowest table of an address, where there is one.
fn find_table(machine: &Machine, space: AddressSpace, address: u64) -> (r: Result<
    Option<u64>,
    MapError,
>)
    ensures
        (machine@, r) == machine@.walk(space, address, false, false),
{
    let i4: usize = (address / 0x80_0000_0000 % 512) as usize;
    let i3: usize = (address / 0x4000_0000 % 512) as usize;
    let i2: usize = (address / 0x20_0000 % 512) as usize;
    let pdpt: u64 = match next_table(machine, space.pml4_phys, i4) {
        Ok(Some(t)) => t,
        Ok(None) => {
            return Ok(None);
        },
        Err(e) => {
            return Err(e);
        },
    };
    let pd: u64 = match next_table(machine, pdpt, i3) {
        Ok(Some(t)) => t,
        Ok(None) => {
            return Ok(None);
        },
        Err(e) => {
            return Err(e);
        },
    };
    next_table(machine, pd, i2)
}

fn next_table(machine: &Machine, table: u64, index: usize) -> (r: Result<Option<u64>, MapError>)
    requires
        index < 512,
    ensures
        (machine@, r) == machine@.step(table, index as int, false, false),
{
    match read_entry(machine, table, index) {
        None => Err(MapError::NoHhdm),
        Some(e) => {
            if e % 2 == 0 {
                Ok(None)
            } else if e / 128 % 2 == 1 {
                Err(MapError::HugePageConflict)
            } else {
                Ok(Some(e % 0x10_0000_0000_0000 / 4096 * 4096))
            }
        },
    }
}

pub fn translate(machine: &Machine, virtual_address: u64) -> (r: Option<Translation>)
    ensures
        r == machine@.translated(
            AddressSpace { pml4_phys: address_of(machine.cr3) },
            virtual_address,
        ),
{
    translate_in(machine, current_address_space(machine), virtual_address)
}

/// What an address stands for in a space.
pub fn translate_in(machine: &Machine, space: AddressSpace, virtual_address: u64) -> (r: Option<
    Translation,
>)
    ensures
        r == machine@.translated(space, virtual_address),
{
    let i4: usize = (virtual_address / 0x80_0000_0000 % 512) as usize;
    let i3: usize = (virtual_address / 0x4000_0000 % 512) as usize;
    let i2: usize = (virtual_address / 0x20_0000 % 512) as usize;
    let i1: usize = (virtual_address / 4096 % 512) as usize;
    let e4: u64 = match read_entry(machine, space.pml4_phys, i4) {
        None => {
            return None;
        },
        Some(e) => e,
    };
    if e4 % 2 == 0 {
        return None;
    }
    let e3: u64 = match read_entry(machine, e4 % 0x10_0000_0000_0000 / 4096 * 4096, i3) {
        None => {
            return None;
        },
        Some(e) => e,
    };
    if e3 % 2 == 0 {
        return None;
    }
    if e3 / 128 % 2 == 1 {
        return Some(
            Translation {
                physical_address: e3 % 0x10_0000_0000_0000 / 0x40_0000_0000 * 0x40_0000_0000
                    + virtual_address % 0x4000_0000,
                page_size: 0x4000_0000,
            },
        );
    }
    let e2: u64 = match read_entry(machine, e3 % 0x10_0000_0000_0000 / 4096 * 4096, i2) {
        None => {
            return None;
        },
        Some(e) => e,
    };
    if e2 % 2 == 0 {
        return None;
    }
    if e2 / 128 % 2 == 1 {
        return Some(
            Translation {
                physical_address: e2 % 0x10_0000_0000_0000 / 0x20_0000 * 0x20_0000 + virtual_address
                    % 0x20_0000,
                page_size: 0x20_0000,
            },
        );
    }
    match read_entry(machine, e2 % 0x10_0000_0000_0000 / 4096 * 4096, i1) {
        None => None,
        Some(e1) => {
            if e1 % 2 == 0 {
                return None;
            }
            Some(
                Translation {
                    physical_address: e1 % 0x10_0000_0000_0000 / 4096 * 4096 + virtual_address
                        % PAGE_SIZE,
                    page_size: PAGE_SIZE,
                },
            )
        },
    }
}

/// The flags of a mapped page.
pub fn flags_in(machine: &Machine, space: AddressSpace, virtual_address: u64) -> (r: Option<u64>)
    ensures
        r == (match machine@.walk(space, virtual_address, false, false).1 {
            Ok(Some(table)) => match machine@.entry(table, index_pt(virtual_address)) {
                Some(e) if present(e) => Some((e - address_of(e)) as u64),
                _ => None,
            },
            _ => None,
        }),
{
    match find_table(machine, space, virtual_address) {
        Ok(Some(table)) => match read_entry(
            machine,
            table,
            (virtual_address / 4096 % 512) as usize,
        ) {
            Some(e) => if e % 2 == 1 {
                Some(e - e % 0x10_0000_0000_0000 / 4096 * 4096)
            } else {
                None
            },
            None => None,
        },
        _ => None,
    }
}

/// Maps one page.
pub fn map(
    machine: &mut Machine,
    space: AddressSpace,
    virtual_address: u64,
    physical_address: u64,
    flags: u64,
) -> (r: Result<(), MapError>)
    requires
        old(machine).wf(),
    ensures
        final(machine).wf(),
        final(machine).same_place(old(machine)),
        (final(machine)@, r) == old(machine)@.mapped(
            space,
            virtual_address,
            physical_address,
            flags,
        ),
{
    if virtual_address % PAGE_SIZE != 0 || physical_address % PAGE_SIZE != 0 {
        return Err(MapError::UnalignedAddress);
    }
    let user: bool = flags / 4 % 2 == 1;
    let table: u64 = match pte_table(machine, space, virtual_address, true, user) {
        Err(e) => {
            return Err(e);
        },
        Ok(None) => {
            return Err(MapError::NoHhdm);
        },
        Ok(Some(t)) => t,
    };
    let index: usize = (virtual_address / 4096 % 512) as usize;
    match read_entry(machine, table, index) {
        None => Err(MapError::NoHhdm),
        Some(e) => {
            if e % 2 == 1 {
                return Err(MapError::AlreadyMapped);
            }
            let page: u64 = physical_address % 0x10_0000_0000_0000 / 4096 * 4096;
            write_entry(machine, table, index, page | flags | 1u64);
            Ok(())
        },
    }
}

/// Removes a mapping; returns the page, if there was one.
pub fn unmap(machine: &mut Machine, space: AddressSpace, virtual_address: u64) -> (r: Result<
    Option<u64>,
    MapError,
>)
    requires
        old(machine).wf(),
    ensures
        final(machine).wf(),
        final(machine).same_place(old(machine)),
        (final(machine)@, r) == old(machine)@.unmapped(space, virtual_address),
{
    if virtual_address % PAGE_SIZE != 0 {
        return Err(MapError::UnalignedAddress);
    }
    let table: u64 = match find_table(machine, space, virtual_address) {
        Err(e) => {
            return Err(e);
        },
        Ok(None) => {
            return Ok(None);
        },
        Ok(Some(t)) => t,
    };
    let index: usize = (virtual_address / 4096 % 512) as usize;
    match read_entry(machine, table, index) {
        None => Err(MapError::NoHhdm),
        Some(e) => {
            if e % 2 == 0 {
                return Ok(None);
            }
            write_entry(machine, table, index, 0);
            Ok(Some(e % 0x10_0000_0000_0000 / 4096 * 4096))
        },
    }
}

// ---------------------------------------------------------------------------
// Whole address spaces
// ---------------------------------------------------------------------------
impl MachineView {
    /// The entries of a table from number `i` on, that are present.
    pub open spec fn present_from(self, table: u64, i: int) -> int
        decreases 512 - i,
    {
        if i >= 512 {
            0
        } else {
            (if self.entry(table, i) matches Some(e) && present(e) {
                1int
            } else {
                0
            }) + self.present_from(table, i + 1)
        }
    }

    /// The entries from number `i` on copied from one table to another.
    pub open spec fn copied_from(self, from: u64, to: u64, i: int) -> (
        MachineView,
        Result<(), MapError>,
    )
        decreases 512 - i,
    {
        if i >= 512 {
            (self, Ok(()))
        } else {
            match self.entry(from, i) {
                None => (self, Err(MapError::NoHhdm)),
                Some(e) => if !self.reachable(to, i) {
                    (self, Err(MapError::NoHhdm))
                } else {
                    self.with_entry(to, i, e).copied_from(from, to, i + 1)
                },
            }
        }
    }

    /// A new address space: no user mappings, and the kernel's half of the
    /// active one.
    pub open spec fn space_created(self) -> (MachineView, Result<AddressSpace, MapError>) {
        match self.table_taken() {
            (m, Err(e)) => (m, Err(e)),
            (m, Ok(table)) => match m.copied_from(address_of(self.cr3), table, 256) {
                (m2, Ok(())) => (m2, Ok(AddressSpace { pml4_phys: table })),
                (m2, Err(e)) => (m2, Err(e)),
            },
        }
    }

    /// Whether anything is mapped through the entries of a table from number
    /// `i` on.
    pub open spec fn leaf_from(self, table: u64, level: nat, i: int) -> Result<bool, MapError>
        decreases level, 512 - i,
    {
        if i >= 512 {
            Ok(false)
        } else {
            match self.entry(table, i) {
                None => Err(MapError::NoHhdm),
                Some(e) => if !present(e) {
                    self.leaf_from(table, level, i + 1)
                } else if level <= 1 || huge(e) {
                    Ok(true)
                } else {
                    match self.leaf_from(address_of(e), (level - 1) as nat, 0) {
                        Ok(false) => self.leaf_from(table, level, i + 1),
                        other => other,
                    }
                },
            }
        }
    }

    pub open spec fn frame_released(self, phys: u64) -> MachineView {
        MachineView { frames: memory::freed(self.frames, PhysFrame(phys)), ..self }
    }

    /// The tables below the entries of a table, from number `i` on, given back;
    /// how many they were, besides `count`.
    pub open spec fn torn_from(self, table: u64, level: nat, i: int, count: int) -> (
        MachineView,
        Result<int, MapError>,
    )
        decreases level, 512 - i,
    {
        if i >= 512 {
            (self, Ok(count))
        } else {
            match self.entry(table, i) {
                None => (self, Err(MapError::NoHhdm)),
                Some(e) => if !present(e) {
                    self.torn_from(table, level, i + 1, count)
                } else if level <= 1 || huge(e) {
                    (self, Err(MapError::MappingsRemain))
                } else {
                    let below = address_of(e);
                    match self.with_entry(table, i, 0).torn_from(below, (level - 1) as nat, 0, 0) {
                        (m, Err(e)) => (m, Err(e)),
                        (m, Ok(n)) => if !memory::is_used(m.frames, PhysFrame(below)) {
                            (m, Err(MapError::FrameReleaseFailed))
                        } else {
                            m.frame_released(below).torn_from(table, level, i + 1, count + n + 1)
                        },
                    }
                },
            }
        }
    }

    /// Why a user half, from entry `i` on, cannot be given up.
    pub open spec fn in_the_way(self, pml4: u64, i: int) -> Option<MapError>
        decreases 256 - i,
    {
        if i >= 256 {
            None
        } else {
            match self.entry(pml4, i) {
                None => Some(MapError::NoHhdm),
                Some(e) => if !present(e) {
                    self.in_the_way(pml4, i + 1)
                } else if huge(e) {
                    Some(MapError::MappingsRemain)
                } else {
                    match self.leaf_from(address_of(e), 3, 0) {
                        Err(e) => Some(e),
                        Ok(true) => Some(MapError::MappingsRemain),
                        Ok(false) => self.in_the_way(pml4, i + 1),
                    }
                },
            }
        }
    }

    /// The tables of a user half, from entry `i` on, given back.
    pub open spec fn half_torn(self, pml4: u64, i: int, count: int) -> (
        MachineView,
        Result<int, MapError>,
    )
        decreases 256 - i,
    {
        if i >= 256 {
            (self, Ok(count))
        } else {
            match self.entry(pml4, i) {
                None => (self, Err(MapError::NoHhdm)),
                Some(e) => if !present(e) {
                    self.half_torn(pml4, i + 1, count)
                } else {
                    let below = address_of(e);
                    match self.with_entry(pml4, i, 0).torn_from(below, 3, 0, 0) {
                        (m, Err(e)) => (m, Err(e)),
                        (m, Ok(n)) => if !memory::is_used(m.frames, PhysFrame(below)) {
                            (m, Err(MapError::FrameReleaseFailed))
                        } else {
                            m.frame_released(below).half_torn(pml4, i + 1, count + n + 1)
                        },
                    }
                },
            }
        }
    }

    /// An address space given up, if it is not the active one and nothing is
    /// mapped in its user half; the number of tables that it had.
    pub open spec fn space_destroyed(self, space: AddressSpace) -> (
        MachineView,
        Result<int, MapError>,
    ) {
        let pml4 = space.pml4_phys;
        if pml4 == address_of(self.cr3) {
            (self, Err(MapError::ActiveAddressSpace))
        } else {
            match self.in_the_way(pml4, 0) {
                Some(e) => (self, Err(e)),
                None => match self.half_torn(pml4, 0, 0) {
                    (m, Err(e)) => (m, Err(e)),
                    (m, Ok(n)) => if !memory::is_used(m.frames, PhysFrame(pml4)) {
                        (m, Err(MapError::FrameReleaseFailed))
                    } else {
                        (m.frame_released(pml4), Ok(n + 1))
                    },
                },
            }
        }
    }
}

/// The most tables that a table of a level can have below it.
spec fn tables_below(level: nat) -> int
    decreases level,
{
    if level <= 1 {
        0
    } else {
        512 * (tables_below((level - 1) as nat) + 1)
    }
}

/// Makes an address space the active one.
pub fn activate(machine: &mut Machine, space: AddressSpace)
    requires
        old(machine).wf(),
    ensures
        final(machine).wf(),
        final(machine)@ == (MachineView { cr3: space.pml4_phys, ..old(machine)@ }),
        final(machine).memory == old(machine).memory,
        final(machine).ram == old(machine).ram,
{
    machine.cr3 = space.pml4_phys;
}

pub fn inspect_current(machine: &Machine) -> (r: PageTableSummary)
    ensures
        r.hhdm_offset == (match machine.hhdm {
            Some(base) => base,
            None => 0,
        }),
        r.cr3 == address_of(machine.cr3),
        r.present_pml4_entries == machine@.present_from(address_of(machine.cr3), 0),
{
    let hhdm_offset: u64 = match machine.hhdm {
        Some(base) => base,
        None => 0,
    };
    let cr3: u64 = current_cr3(machine);
    let mut count: usize = 0;
    let mut index: usize = 0;
    while index < 512
        invariant
            index <= 512,
            count <= index,
            cr3 == address_of(machine.cr3),
            count + machine@.present_from(cr3, index as int) == machine@.present_from(cr3, 0),
        decreases 512 - index,
    {
        if let Some(e) = read_entry(machine, cr3, index) {
            if e % 2 == 1 {
                count += 1;
            }
        }
        index += 1;
    }
    PageTableSummary { hhdm_offset, cr3, present_pml4_entries: count }
}

/// A new address space that shares the kernel's half of the active one.
pub fn create_address_space(machine: &mut Machine) -> (r: Result<AddressSpace, MapError>)
    requires
        old(machine).wf(),
    ensures
        final(machine).wf(),
        final(machine).same_place(old(machine)),
        (final(machine)@, r) == old(machine)@.space_created(),
{
    let current: u64 = current_cr3(machine);
    let table: u64 = match allocate_table(machine) {
        Err(e) => {
            return Err(e);
        },
        Ok(t) => t,
    };
    let ghost start = machine@;
    let mut index: usize = 256;
    while index < 512
        invariant
            256 <= index <= 512,
            machine.wf(),
            machine.same_place(old(machine)),
            table + 4096 <= machine.ram.len(),
            current == address_of(old(machine).cr3),
            old(machine)@.table_taken() == (start, Ok::<u64, MapError>(table)),
            machine@.copied_from(current, table, index as int) == start.copied_from(
                current,
                table,
                256,
            ),
        decreases 512 - index,
    {
        let e: u64 = match read_entry(machine, current, index) {
            None => {
                return Err(MapError::NoHhdm);
            },
            Some(e) => e,
        };
        match read_entry(machine, table, index) {
            None => {
                return Err(MapError::NoHhdm);
            },
            Some(_) => {},
        }
        write_entry(machine, table, index, e);
        index += 1;
    }
    Ok(AddressSpace { pml4_phys: table })
}

fn contains_leaf_mapping(machine: &Machine, table: u64, level: u8) -> (r: Result<bool, MapError>)
    ensures
        r == machine@.leaf_from(table, level as nat, 0),
    decreases level,
{
    let mut index: usize = 0;
    while index < 512
        invariant
            index <= 512,
            machine@.leaf_from(table, level as nat, 0) == machine@.leaf_from(
                table,
                level as nat,
                index as int,
            ),
        decreases 512 - index,
    {
        match read_entry(machine, table, index) {
            None => {
                return Err(MapError::NoHhdm);
            },
            Some(e) => {
                if e % 2 == 1 {
                    if level <= 1 || e / 128 % 2 == 1 {
                        return Ok(true);
                    }
                    match contains_leaf_mapping(
                        machine,
                        e % 0x10_0000_0000_0000 / 4096 * 4096,
                        level - 1,
                    ) {
                        Ok(false) => {},
                        Ok(true) => {
                            return Ok(true);
                        },
                        Err(e) => {
                            return Err(e);
                        },
                    }
                }
            },
        }
        index += 1;
    }
    Ok(false)
}

/// Gives back a table's frame.
pub(crate) fn release_table(machine: &mut Machine, phys: u64) -> (r: bool)
    requires
        old(machine).wf(),
    ensures
        final(machine).wf(),
        final(machine).same_place(old(machine)),
        r == memory::is_used(old(machine)@.frames, PhysFrame(phys)),
        final(machine)@ == old(machine)@.frame_released(phys),
        !r ==> final(machine)@ == old(machine)@,
{
    let ghost v = machine.memory@;
    let r = machine.memory.allocator.free(PhysFrame(phys));
    proof {
        crate::memory::lemma_freed_length(v, PhysFrame(phys));
    }
    r
}

pub open spec fn same_count(spec_count: Result<int, MapError>, count: Result<usize, MapError>) -> bool {
    match count {
        Ok(n) => spec_count == Ok::<int, MapError>(n as int),
        Err(e) => spec_count == Err::<int, MapError>(e),
    }
}

fn destroy_table(machine: &mut Machine, table: u64, level: u8) -> (r: Result<usize, MapError>)
    requires
        old(machine).wf(),
        level <= 3,
    ensures
        final(machine).wf(),
        final(machine).same_place(old(machine)),
        final(machine)@ == old(machine)@.torn_from(table, level as nat, 0, 0).0,
        same_count(old(machine)@.torn_from(table, level as nat, 0, 0).1, r),
        r matches Ok(n) ==> n <= tables_below(level as nat),
    decreases level,
{
    let ghost start = machine@;
    let mut count: usize = 0;
    let mut index: usize = 0;
    proof {
        reveal_with_fuel(tables_below, 4);
    }
    let ghost each = if level <= 1 {
        0
    } else {
        tables_below((level - 1) as nat) + 1
    };
    assert(each <= 513);
    assert(0 <= each);
    while index < 512
        invariant
            index <= 512,
            level <= 3,
            machine.wf(),
            machine.same_place(old(machine)),
            start == old(machine)@,
            count <= index * each,
            0 <= each <= 513,
            level > 1 ==> each == tables_below((level - 1) as nat) + 1,
            machine@.torn_from(table, level as nat, index as int, count as int) == start.torn_from(
                table,
                level as nat,
                0,
                0,
            ),
        decreases 512 - index,
    {
        proof {
            assert((index + 1) * each == index * each + each) by (nonlinear_arith);
            assert(0 <= index * each <= 512 * 513) by (nonlinear_arith)
                requires
                    0 <= index <= 512,
                    0 <= each <= 513,
            ;
        }
        match read_entry(machine, table, index) {
            None => {
                return Err(MapError::NoHhdm);
            },
            Some(e) => {
                if e % 2 == 1 {
                    if level <= 1 || e / 128 % 2 == 1 {
                        return Err(MapError::MappingsRemain);
                    }
                    let below: u64 = e % 0x10_0000_0000_0000 / 4096 * 4096;
                    write_entry(machine, table, index, 0);
                    match destroy_table(machine, below, level - 1) {
                        Err(e) => {
                            return Err(e);
                        },
                        Ok(n) => {
                            if !release_table(machine, below) {
                                return Err(MapError::FrameReleaseFailed);
                            }
                            count = count + n + 1;
                        },
                    }
                }
            },
        }
        index += 1;
    }
    proof {
        if level > 1 {
            assert(tables_below(level as nat) == 512 * each);
        } else {
            assert(512 * each == 0);
        }
    }
    Ok(count)
}

/// Gives up an address space in which nothing is mapped any more; returns how
/// many tables it had. The kernel's half is shared and stays.
pub fn destroy_address_space(machine: &mut Machine, space: AddressSpace) -> (r: Result<
    usize,
    MapError,
>)
    requires
        old(machine).wf(),
    ensures
        final(machine).wf(),
        final(machine).same_place(old(machine)),
        final(machine)@ == old(machine)@.space_destroyed(space).0,
        same_count(old(machine)@.space_destroyed(space).1, r),
{
    let pml4: u64 = space.pml4_phys;
    if pml4 == current_cr3(machine) {
        return Err(MapError::ActiveAddressSpace);
    }
    let mut index: usize = 0;
    while index < 256
        invariant
            index <= 256,
            *machine == *old(machine),
            machine.wf(),
            pml4 == space.pml4_phys,
            pml4 != address_of(machine.cr3),
            machine@.in_the_way(pml4, 0) == machine@.in_the_way(pml4, index as int),
        decreases 256 - index,
    {
        match read_entry(machine, pml4, index) {
            None => {
                return Err(MapError::NoHhdm);
            },
            Some(e) => {
                if e % 2 == 1 {
                    if e / 128 % 2 == 1 {
                        return Err(MapError::MappingsRemain);
                    }
                    match contains_leaf_mapping(
                        machine,
                        e % 0x10_0000_0000_0000 / 4096 * 4096,
                        3,
                    ) {
                        Err(e) => {
                            return Err(e);
                        },
                        Ok(true) => {
                            return Err(MapError::MappingsRemain);
                        },
                        Ok(false) => {},
                    }
                }
            },
        }
        index += 1;
    }
    let ghost start = machine@;
    let mut count: usize = 0;
    index = 0;
    proof {
        reveal_with_fuel(tables_below, 4);
        assert(tables_below(3) == 262656);
    }
    while index < 256
        invariant
            index <= 256,
            machine.wf(),
            machine.same_place(old(machine)),
            start == old(machine)@,
            pml4 == space.pml4_phys,
            pml4 != address_of(start.cr3),
            start.in_the_way(pml4, 0) is None,
            tables_below(3) == 262656,
            count <= index * 262657,
            machine@.half_torn(pml4, index as int, count as int) == start.half_torn(pml4, 0, 0),
        decreases 256 - index,
    {
        match read_entry(machine, pml4, index) {
            None => {
                return Err(MapError::NoHhdm);
            },
            Some(e) => {
                if e % 2 == 1 {
                    let below: u64 = e % 0x10_0000_0000_0000 / 4096 * 4096;
                    write_entry(machine, pml4, index, 0);
                    match destroy_table(machine, below, 3) {
                        Err(e) => {
                            return Err(e);
                        },
                        Ok(n) => {
                            if !release_table(machine, below) {
                                return Err(MapError::FrameReleaseFailed);
                            }
                            count = count + n + 1;
                        },
                    }
                }
            },
        }
        index += 1;
    }
    if !release_table(machine, pml4) {
        return Err(MapError::FrameReleaseFailed);
    }
    Ok(count + 1)
}

impl MachineView {
    /// The frames of the tables of a tree set aside: the root's, and those
    /// below its entries from number `i` on.
    pub open spec fn tree_reserved(self, table: u64, levels: nat, i: int) -> MachineView
        decreases levels, 512 - i,
    {
        if levels <= 1 || i >= 512 {
            self
        } else {
            match self.entry(table, i) {
                Some(e) if present(e) && !huge(e) => {
                    let below = address_of(e);
                    self.frame_reserved(below).tree_reserved(
                        below,
                        (levels - 1) as nat,
                        0,
                    ).tree_reserved(table, levels, i + 1)
                },
                _ => self.tree_reserved(table, levels, i + 1),
            }
        }
    }

    /// How many of those frames are managed.
    pub open spec fn tree_size(self, table: u64, levels: nat, i: int) -> int
        decreases levels, 512 - i,
    {
        if levels <= 1 || i >= 512 {
            0
        } else {
            match self.entry(table, i) {
                Some(e) if present(e) && !huge(e) => {
                    let below = address_of(e);
                    (if memory::frame_of(self.frames, PhysFrame(below)) is Some {
                        1int
                    } else {
                        0
                    }) + self.tree_size(below, (levels - 1) as nat, 0) + self.tree_size(
                        table,
                        levels,
                        i + 1,
                    )
                },
                _ => self.tree_size(table, levels, i + 1),
            }
        }
    }

    pub open spec fn frame_reserved(self, phys: u64) -> MachineView {
        match memory::frame_of(self.frames, PhysFrame(phys)) {
            Some(p) => MachineView { frames: self.frames.set_aside(p), ..self },
            None => self,
        }
    }
}

/// Setting frames aside changes neither what is stored nor how many there are.
spec fn same_store(m: MachineView, w: MachineView) -> bool {
    &&& w.ram == m.ram
    &&& w.hhdm == m.hhdm
    &&& w.cr3 == m.cr3
    &&& w.frames.len_is(m.frames.frames.len())
}

impl BuddyView {
    pub open spec fn len_is(self, n: nat) -> bool {
        self.frames.len() == n
    }
}

proof fn lemma_tree_size_same(m: MachineView, w: MachineView, table: u64, levels: nat, i: int)
    requires
        same_store(m, w),
    ensures
        m.tree_size(table, levels, i) == w.tree_size(table, levels, i),
    decreases levels, 512 - i,
{
    if levels > 1 && i < 512 {
        assert(m.entry(table, i) == w.entry(table, i));
        lemma_tree_size_same(m, w, table, levels, i + 1);
        if let Some(e) = m.entry(table, i) {
            if present(e) && !huge(e) {
                lemma_tree_size_same(m, w, address_of(e), (levels - 1) as nat, 0);
            }
        }
    }
}

/// The most tables in a tree below its root.
spec fn most_tables(levels: nat) -> int
    decreases levels,
{
    if levels <= 1 {
        0
    } else {
        512 * (most_tables((levels - 1) as nat) + 1)
    }
}

/// Sets aside the frames below a table; returns how many are managed.
fn reserve_below(machine: &mut Machine, table: u64, levels: usize) -> (r: usize)
    requires
        old(machine).wf(),
        levels <= 4,
    ensures
        final(machine).wf(),
        final(machine).same_place(old(machine)),
        same_store(old(machine)@, final(machine)@),
        final(machine)@ == old(machine)@.tree_reserved(table, levels as nat, 0),
        r == old(machine)@.tree_size(table, levels as nat, 0),
        r <= most_tables(levels as nat),
    decreases levels,
{
    let ghost start = machine@;
    let mut count: usize = 0;
    if levels <= 1 {
        return 0;
    }
    let mut index: usize = 0;
    proof {
        reveal_with_fuel(most_tables, 5);
    }
    let ghost each = most_tables((levels - 1) as nat) + 1;
    assert(0 <= each <= 262657);
    while index < 512
        invariant
            index <= 512,
            2 <= levels <= 4,
            machine.wf(),
            machine.same_place(old(machine)),
            start == old(machine)@,
            same_store(start, machine@),
            0 <= each <= 262657,
            each == most_tables((levels - 1) as nat) + 1,
            count <= index * each,
            machine@.tree_reserved(table, levels as nat, index as int) == start.tree_reserved(
                table,
                levels as nat,
                0,
            ),
            count + start.tree_size(table, levels as nat, index as int) == start.tree_size(
                table,
                levels as nat,
                0,
            ),
        decreases 512 - index,
    {
        proof {
            assert((index + 1) * each == index * each + each) by (nonlinear_arith);
            assert(0 <= index * each <= 512 * 262657) by (nonlinear_arith)
                requires
                    0 <= index <= 512,
                    0 <= each <= 262657,
            ;
            assert(machine@.entry(table, index as int) == start.entry(table, index as int));
        }
        if let Some(e) = read_entry(machine, table, index) {
            if e % 2 == 1 && e / 128 % 2 == 0 {
                let below: u64 = e % 0x10_0000_0000_0000 / 4096 * 4096;
                let ghost v = machine@;
                let found = machine.memory.allocator.reserve(PhysFrame(below));
                proof {
                    assert(machine@ == v.frame_reserved(below));
                    lemma_tree_size_same(start, machine@, below, (levels - 1) as nat, 0);
                    assert(memory::frame_of(start.frames, PhysFrame(below)) is Some == found);
                }
                if found {
                    count += 1;
                }
                let more: usize = reserve_below(machine, below, levels - 1);
                count += more;
            }
        }
        index += 1;
    }
    count
}

/// Sets aside the frames of the active page tables, which somebody else made;
/// returns how many of them are managed.
pub fn reserve_active_page_tables(machine: &mut Machine) -> (r: usize)
    requires
        old(machine).wf(),
    ensures
        final(machine).wf(),
        final(machine).same_place(old(machine)),
        ({
            let root = address_of(old(machine).cr3);
            &&& final(machine)@ == old(machine)@.frame_reserved(root).tree_reserved(root, 4, 0)
            &&& r == old(machine)@.tree_size(root, 4, 0) + (if memory::frame_of(
                old(machine)@.frames,
                PhysFrame(root),
            ) is Some {
                1int
            } else {
                0
            })
        }),
{
    let root: u64 = current_cr3(machine);
    let ghost v = machine@;
    let found = machine.memory.allocator.reserve(PhysFrame(root));
    proof {
        assert(machine@ == v.frame_reserved(root));
        lemma_tree_size_same(v, machine@, root, 4, 0);
        reveal_with_fuel(most_tables, 5);
    }
    let below: usize = reserve_below(machine, root, 4);
    if found {
        below + 1
    } else {
        below
    }
}

// ---------------------------------------------------------------------------
// Laws
// ---------------------------------------------------------------------------
#[verifier::opaque]
pub open spec fn frames_valid(v: BuddyView) -> bool {
    v.valid()
}

/// The frame that is handed out next was not in use, and no other changes its
/// being so.
proof fn lemma_next_frame(v: BuddyView)
    requires
        frames_valid(v),
        v.candidate(0) is Some,
    ensures
        frames_valid(v.handed_out(0)),
        v.handed_out(0).frames.len() == v.frames.len(),
        v.frames.len() <= 16_777_216,
        0 <= v.candidate(0)->0 < v.frames.len(),
        !v.frames[v.candidate(0)->0].allocated,
        v.handed_out(0).frames[v.candidate(0)->0].allocated,
        forall|q: int|
            0 <= q < v.frames.len() && (#[trigger] v.frames[q]).allocated ==> v.handed_out(
                0,
            ).frames[q].allocated,
{
    reveal(frames_valid);
    crate::memory::law_handed_out_was_unused(v, 0);
    crate::memory::lemma_handed_out_length(v, 0);
    let p = v.candidate(0)->0;
    assert(crate::memory::span(0) == 1);
    if v.frames[p].allocated {
        assert(p >= p + 1 || p + crate::memory::span(v.frames[p].order) <= p);
        crate::memory::lemma_span_positive(v.frames[p].order);
    }
}

impl MachineView {
    /// Memory holds all frames, and the allocator is in order.
    pub open spec fn sound(self) -> bool {
        frames_valid(self.frames) && self.frames.frames.len() * 4096 <= self.ram.len()
    }

    /// A table in a frame that was handed out.
    pub open spec fn owns(self, table: u64) -> bool {
        &&& table % 4096 == 0
        &&& table / 4096 < self.frames.frames.len()
        &&& self.frames.frames[(table / 4096) as int].allocated
    }

    /// The table that an entry leads to.
    pub open spec fn below(self, table: u64, index: int) -> Option<u64> {
        match self.entry(table, index) {
            Some(e) => if present(e) && !huge(e) {
                Some(address_of(e))
            } else {
                None
            },
            None => None,
        }
    }

    /// The tables that an address goes through are in frames of their own.
    pub open spec fn path_apart(self, space: AddressSpace, address: u64) -> bool {
        let t4 = space.pml4_phys;
        &&& self.owns(t4)
        &&& match self.below(t4, index_pml4(address)) {
            None => true,
            Some(t3) => {
                &&& self.owns(t3)
                &&& t3 != t4
                &&& match self.below(t3, index_pdpt(address)) {
                    None => true,
                    Some(t2) => {
                        &&& self.owns(t2)
                        &&& t2 != t4 && t2 != t3
                        &&& match self.below(t2, index_pd(address)) {
                            None => true,
                            Some(t1) => self.owns(t1) && t1 != t4 && t1 != t3 && t1 != t2,
                        }
                    },
                }
            },
        }
    }
}

proof fn lemma_zeroed_words(ram: Seq<u8>, page: int, at: int)
    requires
        0 <= page,
        page + 4096 <= ram.len(),
        0 <= at,
        at + 8 <= ram.len(),
    ensures
        at + 8 <= page || page + 4096 <= at ==> word_at(bytes::splice(ram, page, bytes::zeros(4096)), at)
            == word_at(ram, at),
        page <= at && at + 8 <= page + 4096 ==> word_at(bytes::splice(ram, page, bytes::zeros(4096)), at) == 0,
{
    reveal(word_at);
    let s = bytes::splice(ram, page, bytes::zeros(4096));
    if at + 8 <= page || page + 4096 <= at {
        assert(s[at] == ram[at] && s[at + 1] == ram[at + 1] && s[at + 2] == ram[at + 2] && s[at + 3]
            == ram[at + 3] && s[at + 4] == ram[at + 4] && s[at + 5] == ram[at + 5] && s[at + 6]
            == ram[at + 6] && s[at + 7] == ram[at + 7]);
    }
    if page <= at && at + 8 <= page + 4096 {
        assert(s[at] == 0 && s[at + 1] == 0 && s[at + 2] == 0 && s[at + 3] == 0 && s[at + 4] == 0
            && s[at + 5] == 0 && s[at + 6] == 0 && s[at + 7] == 0);
    }
}

/// Writing an entry changes no other entry of any table.
proof fn lemma_entry_write(m: MachineView, table: u64, index: int, value: u64, t: u64, i: int)
    requires
        m.reachable(table, index),
        0 <= index < 512,
        0 <= i < 512,
        table % 4096 == 0,
        t % 4096 == 0,
    ensures
        m.with_entry(table, index, value).entry(t, i) == if t == table && i == index {
            Some(value)
        } else {
            m.entry(t, i)
        },
{
    lemma_word_write(m.ram, table + index * 8, value);
    let w = m.with_entry(table, index, value);
    if m.reachable(t, i) {
        let at = t + i * 8;
        if !(t == table && i == index) {
            assert(at + 8 <= table + index * 8 || table + index * 8 + 8 <= at);
            assert(word_at(w.ram, at) == word_at(m.ram, at));
        }
    }
}

proof fn lemma_table_entry(n: u64, flags: int)
    requires
        n % 4096 == 0,
        n < 0x10_0000_0000_0000,
        flags == 7 || flags == 3,
    ensures
        present((n + flags) as u64),
        !huge((n + flags) as u64),
        address_of((n + flags) as u64) == n,
{
}

/// Addresses in one page go through the same entries.
proof fn lemma_same_page(page: u64, address: u64)
    requires
        page % 4096 == 0,
        page <= address < page + 4096,
    ensures
        index_pml4(address) == index_pml4(page),
        index_pdpt(address) == index_pdpt(page),
        index_pd(address) == index_pd(page),
        index_pt(address) == index_pt(page),
        address % 4096 == address - page,
{
    assert(address / 4096 == page / 4096);
    assert(address / 0x20_0000 == address / 4096 / 512 && page / 0x20_0000 == page / 4096 / 512);
    assert(address / 0x4000_0000 == address / 4096 / 0x4_0000 && page / 0x4000_0000 == page / 4096
        / 0x4_0000);
    assert(address / 0x80_0000_0000 == address / 4096 / 0x800_0000 && page / 0x80_0000_0000 == page
        / 4096 / 0x800_0000);
}

/// What a step that makes sure of a table does: the entry leads to the table,
/// the other entries of the tables in use stay, and a table that was missing is
/// a new one, empty.
#[verifier::rlimit(60)]
proof fn lemma_step(m: MachineView, table: u64, index: int, user: bool, used: Set<u64>)
    requires
        m.sound(),
        0 <= index < 512,
        used.contains(table),
        forall|t: u64| used.contains(t) ==> #[trigger] m.owns(t),
        m.step(table, index, true, user).1 matches Ok(Some(_)),
    ensures
        ({
            let w = m.step(table, index, true, user).0;
            let n = m.step(table, index, true, user).1->Ok_0->0;
            &&& w.sound()
            &&& w.hhdm == m.hhdm
            &&& forall|t: u64| m.owns(t) ==> #[trigger] w.owns(t)
            &&& w.entry(table, index) matches Some(e) && present(e) && !huge(e) && address_of(e) == n
            &&& forall|t: u64, i: int|
                used.contains(t) && 0 <= i < 512 && !(t == table && i == index)
                    ==> #[trigger] w.entry(t, i) == m.entry(t, i)
            &&& m.entry(table, index) matches Some(e) && (if present(e) {
                w == m
            } else {
                &&& w.owns(n)
                &&& !used.contains(n)
                &&& forall|i: int| 0 <= i < 512 ==> (#[trigger] w.entry(n, i) == Some(0u64) || !w.reachable(n, i))
            })
        }),
{
    let e = m.entry(table, index)->0;
    if !present(e) {
        lemma_next_frame(m.frames);
        let p = m.frames.candidate(0)->0;
        let n = (p * 4096) as u64;
        let (m1, _) = m.frame_taken()->0;
        let m2 = m1.page_zeroed(n);
        let flags: int = if user {
            7
        } else {
            3
        };
        let value = (n + flags) as u64;
        let w = m2.with_entry(table, index, value);
        assert(n == p * 4096 && n % 4096 == 0 && n / 4096 == p);
        assert(!m.owns(n));
        assert(!used.contains(n));
        assert(m.owns(table));
        assert forall|t: u64| m.owns(t) implies #[trigger] w.owns(t) by {
            let q = (t / 4096) as int;
            assert(m.frames.frames[q].allocated);
        }
        assert(m2.reachable(table, index));
        lemma_table_entry(n, flags);
        lemma_entry_write(m2, table, index, value, table, index);
        assert forall|t: u64, i: int|
            used.contains(t) && 0 <= i < 512 && !(t == table && i == index) implies #[trigger] w.entry(
            t,
            i,
        ) == m.entry(t, i) by {
            assert(m.owns(t));
            lemma_entry_write(m2, table, index, value, t, i);
            if m.reachable(t, i) {
                assert(t != n);
                lemma_zeroed_words(m.ram, n as int, t + i * 8);
            }
        }
        assert forall|i: int| 0 <= i < 512 implies (#[trigger] w.entry(n, i) == Some(0u64)
            || !w.reachable(n, i)) by {
            lemma_entry_write(m2, table, index, value, n, i);
            assert(n != table);
            if m2.reachable(n, i) {
                lemma_zeroed_words(m.ram, n as int, n + i * 8);
            }
        }
    }
}

/// The walk that makes the tables of an address, in steps.
spec fn walk_state(m: MachineView, space: AddressSpace, address: u64, user: bool) -> (
    MachineView,
    u64,
    u64,
    u64,
) {
    let (m1, r1) = m.step(space.pml4_phys, index_pml4(address), true, user);
    let t3 = r1->Ok_0->0;
    let (m2, r2) = m1.step(t3, index_pdpt(address), true, user);
    let t2 = r2->Ok_0->0;
    let (m3, r3) = m2.step(t2, index_pd(address), true, user);
    (m3, t3, t2, r3->Ok_0->0)
}

/// After that walk the four tables differ, and lead from one to the next.
#[verifier::rlimit(60)]
proof fn lemma_walk(m: MachineView, space: AddressSpace, address: u64, user: bool)
    requires
        m.sound(),
        m.path_apart(space, address),
        m.walk(space, address, true, user).1 matches Ok(Some(_)),
    ensures
        ({
            let (w, t3, t2, t1) = walk_state(m, space, address, user);
            let t4 = space.pml4_phys;
            &&& w == m.walk(space, address, true, user).0
            &&& m.walk(space, address, true, user).1 == Ok::<Option<u64>, MapError>(Some(t1))
            &&& w.sound()
            &&& w.hhdm == m.hhdm
            &&& w.owns(t4) && w.owns(t3) && w.owns(t2) && w.owns(t1)
            &&& t1 != t4 && t1 != t3 && t1 != t2
            &&& w.entry(t4, index_pml4(address)) matches Some(e) && present(e) && !huge(e)
                && address_of(e) == t3
            &&& w.entry(t3, index_pdpt(address)) matches Some(e) && present(e) && !huge(e)
                && address_of(e) == t2
            &&& w.entry(t2, index_pd(address)) matches Some(e) && present(e) && !huge(e)
                && address_of(e) == t1
        }),
{
    let t4 = space.pml4_phys;
    let i4 = index_pml4(address);
    let i3 = index_pdpt(address);
    let i2 = index_pd(address);
    let (m1, r1) = m.step(t4, i4, true, user);
    let t3 = r1->Ok_0->0;
    let s4 = set![t4];
    lemma_step(m, t4, i4, user, s4);
    let (m2, r2) = m1.step(t3, i3, true, user);
    let t2 = r2->Ok_0->0;
    assert(m1.owns(t4) && m1.owns(t3) && t3 != t4);
    let fresh3 = !present(m.entry(t4, i4)->0);
    let s3 = set![t4, t3];
    lemma_step(m1, t3, i3, user, s3);
    let (m3, r3) = m2.step(t2, i2, true, user);
    let t1 = r3->Ok_0->0;
    if fresh3 {
        assert(m1.entry(t3, i3) == Some(0u64));
    }
    assert(m2.owns(t2) && t2 != t4 && t2 != t3);
    let fresh2 = !present(m1.entry(t3, i3)->0);
    let s2 = set![t4, t3, t2];
    lemma_step(m2, t2, i2, user, s2);
    if fresh2 {
        assert(m2.entry(t2, i2) == Some(0u64));
    } else {
        assert(m2 == m1 && m1 == m);
    }
    assert(m3.owns(t1) && t1 != t4 && t1 != t3 && t1 != t2);
    assert(m2.entry(t4, i4) == m1.entry(t4, i4));
    assert(m3.entry(t4, i4) == m2.entry(t4, i4));
    assert(m3.entry(t3, i3) == m2.entry(t3, i3));
}

proof fn lemma_leaf(page: u64, flags: u64)
    requires
        page < 0x10_0000_0000_0000,
        page % 4096 == 0,
        flags % 0x10_0000_0000_0000 < 4096,
    ensures
        present(page | flags | 1u64),
        address_of(page | flags | 1u64) == page,
        address_of(page) == page,
{
    assert((page | flags | 1u64) % 2 == 1 && (page | flags | 1u64) % 0x10_0000_0000_0000u64 / 4096
        * 4096 == page) by (bit_vector)
        requires
            page < 0x10_0000_0000_0000u64,
            page % 4096 == 0,
            flags % 0x10_0000_0000_0000u64 < 4096,
    ;
}

/// A page that was mapped is found: every address in it stands for the same
/// place in the physical page. The flags hold no address bits.
#[verifier::rlimit(60)]
pub proof fn law_map_then_translate(
    m: MachineView,
    space: AddressSpace,
    page: u64,
    phys: u64,
    flags: u64,
    address: u64,
)
    requires
        m.sound(),
        m.path_apart(space, page),
        phys < 0x10_0000_0000_0000,
        flags % 0x10_0000_0000_0000 < 4096,
        m.mapped(space, page, phys, flags).1 is Ok,
        page <= address < page + 4096,
    ensures
        m.mapped(space, page, phys, flags).0.translated(space, address) == Some(
            Translation { physical_address: (phys + (address - page)) as u64, page_size: 4096 },
        ),
{
    let user = for_user(flags);
    lemma_walk(m, space, page, user);
    let (w, t3, t2, t1) = walk_state(m, space, page, user);
    let t4 = space.pml4_phys;
    let value = address_of(phys) | flags | 1u64;
    lemma_leaf(phys, flags);
    let z = w.with_entry(t1, index_pt(page), value);
    lemma_entry_write(w, t1, index_pt(page), value, t4, index_pml4(page));
    lemma_entry_write(w, t1, index_pt(page), value, t3, index_pdpt(page));
    lemma_entry_write(w, t1, index_pt(page), value, t2, index_pd(page));
    lemma_entry_write(w, t1, index_pt(page), value, t1, index_pt(page));
    lemma_same_page(page, address);
    assert(z == m.mapped(space, page, phys, flags).0);
}

/// Unmapping a page that was mapped gives the physical page back, and no
/// address in it stands for anything any more.
#[verifier::rlimit(60)]
pub proof fn law_unmap_undoes_map(
    m: MachineView,
    space: AddressSpace,
    page: u64,
    phys: u64,
    flags: u64,
    address: u64,
)
    requires
        m.sound(),
        m.path_apart(space, page),
        phys < 0x10_0000_0000_0000,
        flags % 0x10_0000_0000_0000 < 4096,
        m.mapped(space, page, phys, flags).1 is Ok,
        page <= address < page + 4096,
    ensures
        ({
            let z = m.mapped(space, page, phys, flags).0;
            &&& z.unmapped(space, page).1 == Ok::<Option<u64>, MapError>(Some(phys))
            &&& z.unmapped(space, page).0.translated(space, address) is None
        }),
{
    let user = for_user(flags);
    lemma_walk(m, space, page, user);
    let (w, t3, t2, t1) = walk_state(m, space, page, user);
    let t4 = space.pml4_phys;
    let i1 = index_pt(page);
    let value = address_of(phys) | flags | 1u64;
    lemma_leaf(phys, flags);
    let z = w.with_entry(t1, i1, value);
    lemma_entry_write(w, t1, i1, value, t4, index_pml4(page));
    lemma_entry_write(w, t1, i1, value, t3, index_pdpt(page));
    lemma_entry_write(w, t1, i1, value, t2, index_pd(page));
    lemma_entry_write(w, t1, i1, value, t1, i1);
    assert(z == m.mapped(space, page, phys, flags).0);
    assert(z.walk(space, page, false, false) == (z, Ok::<Option<u64>, MapError>(Some(t1))));
    let y = z.with_entry(t1, i1, 0);
    lemma_entry_write(z, t1, i1, 0, t4, index_pml4(page));
    lemma_entry_write(z, t1, i1, 0, t3, index_pdpt(page));
    lemma_entry_write(z, t1, i1, 0, t2, index_pd(page));
    lemma_entry_write(z, t1, i1, 0, t1, i1);
    lemma_same_page(page, address);
}

} // verus!
