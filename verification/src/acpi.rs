//! The tables that firmware leaves in memory, found and checked.
use vstd::prelude::*;

use crate::bytes::{self, get_le16, get_le32, get_le64, holds_at};
use crate::memory::PAGE_SIZE;
use crate::paging::{self, AddressSpace, Machine, MachineView};

verus! {

pub const RSDP_V1_LENGTH: usize = 20;

pub const RSDP_V2_LENGTH: usize = 36;

pub const SDT_HEADER_LENGTH: usize = 36;

pub const MAX_TABLE_LENGTH: usize = 1_048_576;

pub const MAX_ROOT_ENTRIES: usize = 1024;

/// Where tables are mapped while they are read.
pub const ACPI_WINDOW: u64 = 0xffff_fe80_0000_0000;

#[derive(Clone, Copy, Debug, PartialEq, Eq, Structural)]
pub enum AcpiError {
    NoHhdm,
    NullAddress,
    AddressOverflow,
    InvalidRsdp,
    InvalidChecksum,
    InvalidTableLength,
    InvalidRootTable,
    InvalidMadt,
}

#[derive(Clone, Copy, Debug, PartialEq, Eq, Structural)]
pub enum RootTable {
    Rsdt,
    Xsdt,
}

#[derive(Clone, Copy, Debug, PartialEq, Eq, Structural)]
pub struct MadtInfo {
    pub local_apic_address: u32,
    pub flags: u32,
    pub enabled_processors: usize,
    pub io_apics: usize,
    pub interrupt_source_overrides: usize,
    pub io_apic: Option<IoApicDescriptor>,
    pub timer_gsi: u32,
    pub keyboard_gsi: u32,
}

#[derive(Clone, Copy, Debug, PartialEq, Eq, Structural)]
pub struct IoApicDescriptor {
    pub physical_address: u32,
    pub global_irq_base: u32,
}

#[derive(Clone, Copy, Debug, PartialEq, Eq, Structural)]
pub struct McfgInfo {
    pub regions: usize,
    pub first_region: Option<PciEcamRegion>,
}

#[derive(Clone, Copy, Debug, PartialEq, Eq, Structural)]
pub struct PciEcamRegion {
    pub base_address: u64,
    pub segment_group: u16,
    pub start_bus: u8,
    pub end_bus: u8,
}

#[derive(Clone, Copy, Debug, PartialEq, Eq, Structural)]
pub struct AcpiInfo {
    pub revision: u8,
    pub root: RootTable,
    pub table_count: usize,
    pub madt: Option<MadtInfo>,
    pub mcfg: Option<McfgInfo>,
}

// ---------------------------------------------------------------------------
// Memory
// ---------------------------------------------------------------------------
/// A byte of memory; there are ones where there is no memory.
pub open spec fn byte_at(ram: Seq<u8>, address: int) -> u8 {
    if 0 <= address < ram.len() {
        ram[address]
    } else {
        0xff
    }
}

pub open spec fn bytes_at(ram: Seq<u8>, address: int, n: int) -> Seq<u8> {
    Seq::new(n as nat, |i: int| byte_at(ram, address + i))
}

pub open spec fn page_part(current: int, remaining: int) -> int {
    if remaining < 4096 - current % 4096 {
        remaining
    } else {
        4096 - current % 4096
    }
}

/// The window turned to a page, and whether that went well.
#[verifier::opaque]
pub open spec fn window_opened(m: MachineView, space: AddressSpace, page: u64) -> (
    MachineView,
    bool,
) {
    let (after, r) = m.mapped(space, ACPI_WINDOW, page, 0);
    (after, r is Ok)
}

/// The window turned to nothing, and whether that went well.
#[verifier::opaque]
pub open spec fn window_closed(m: MachineView, space: AddressSpace) -> (MachineView, bool) {
    let (after, r) = m.unmapped(space, ACPI_WINDOW);
    (after, r is Ok)
}

fn open_window(machine: &mut Machine, space: AddressSpace, page: u64) -> (r: bool)
    requires
        old(machine).wf(),
    ensures
        final(machine).wf(),
        final(machine).same_place(old(machine)),
        (final(machine)@, r) == window_opened(old(machine)@, space, page),
{
    proof {
        reveal(window_opened);
    }
    paging::map(machine, space, ACPI_WINDOW, page, 0).is_ok()
}

fn close_window(machine: &mut Machine, space: AddressSpace) -> (r: bool)
    requires
        old(machine).wf(),
    ensures
        final(machine).wf(),
        final(machine).same_place(old(machine)),
        (final(machine)@, r) == window_closed(old(machine)@, space),
{
    proof {
        reveal(window_closed);
    }
    paging::unmap(machine, space, ACPI_WINDOW).is_ok()
}

/// Memory read through the window, page by page.
pub open spec fn window_read(
    m: MachineView,
    space: AddressSpace,
    current: int,
    remaining: int,
    bytes: Seq<u8>,
) -> (MachineView, Result<Seq<u8>, AcpiError>)
    decreases remaining,
{
    let page = current / 4096 * 4096;
    let n = page_part(current, remaining);
    if remaining <= 0 {
        (m, Ok(bytes))
    } else {
        match window_opened(m, space, page as u64) {
            (m1, false) => (m1, Err(AcpiError::NoHhdm)),
            (m1, true) => match window_closed(m1, space) {
                (m2, false) => (m2, Err(AcpiError::NoHhdm)),
                (m2, true) => window_read(
                    m2,
                    space,
                    current + n,
                    remaining - n,
                    bytes + bytes_at(m1.ram, current, n),
                ),
            },
        }
    }
}

#[verifier::opaque]
pub open spec fn physical_read(m: MachineView, space: AddressSpace, address: u64, length: int) -> (
    MachineView,
    Result<Seq<u8>, AcpiError>,
) {
    if address == 0 {
        (m, Err(AcpiError::NullAddress))
    } else if address + length > u64::MAX {
        (m, Err(AcpiError::AddressOverflow))
    } else if m.translated(space, ACPI_WINDOW) is Some {
        (m, Err(AcpiError::NoHhdm))
    } else {
        window_read(m, space, address as int, length, Seq::empty())
    }
}

fn physical_bytes(machine: &mut Machine, physical_address: u64, length: usize) -> (r: Result<
    Vec<u8>,
    AcpiError,
>)
    requires
        old(machine).wf(),
    ensures
        final(machine).wf(),
        final(machine).same_place(old(machine)),
        ({
            let (after, read) = physical_read(
                old(machine)@,
                AddressSpace { pml4_phys: paging::address_of(old(machine).cr3) },
                physical_address,
                length as int,
            );
            &&& final(machine)@ == after
            &&& match r {
                Ok(bytes) => read == Ok::<Seq<u8>, AcpiError>(bytes@) && bytes@.len() == length,
                Err(e) => read == Err::<Seq<u8>, AcpiError>(e),
            }
        }),
{
    proof {
        reveal(physical_read);
    }
    if physical_address == 0 {
        return Err(AcpiError::NullAddress);
    }
    if physical_address.checked_add(length as u64).is_none() {
        return Err(AcpiError::AddressOverflow);
    }
    if paging::translate(machine, ACPI_WINDOW).is_some() {
        return Err(AcpiError::NoHhdm);
    }
    let space = paging::current_address_space(machine);
    let mut bytes: Vec<u8> = Vec::new();
    let mut current: u64 = physical_address;
    let mut remaining: usize = length;
    let ghost goal = window_read(machine@, space, current as int, length as int, Seq::empty());
    assert(bytes@ =~= Seq::<u8>::empty());
    while remaining != 0
        invariant
            machine.wf(),
            machine.same_place(old(machine)),
            space.pml4_phys == paging::address_of(old(machine).cr3),
            current + remaining == physical_address + length,
            physical_address + length <= u64::MAX,
            bytes@.len() + remaining == length,
            goal == physical_read(old(machine)@, space, physical_address, length as int),
            goal == window_read(machine@, space, current as int, remaining as int, bytes@),
        decreases remaining,
    {
        let inside: usize = (current % PAGE_SIZE) as usize;
        let page: u64 = current - inside as u64;
        let n: usize = if remaining < 4096 - inside {
            remaining
        } else {
            4096 - inside
        };
        assert(page == current as int / 4096 * 4096);
        if !open_window(machine, space, page) {
            return Err(AcpiError::NoHhdm);
        }
        let ghost m1 = machine@;
        let ghost before = bytes@;
        let mut i: usize = 0;
        while i < n
            invariant
                i <= n,
                n <= 4096,
                current + n <= u64::MAX,
                machine@ == m1,
                bytes@ == before + bytes_at(m1.ram, current as int, i as int),
            decreases n - i,
        {
            let at: u64 = current + i as u64;
            assert(machine.ram@.len() == machine.ram.len());
            let byte: u8 = if at < machine.ram.len() as u64 {
                machine.ram[at as usize]
            } else {
                0xff
            };
            bytes.push(byte);
            i += 1;
            assert(bytes@ =~= before + bytes_at(m1.ram, current as int, i as int));
        }
        if !close_window(machine, space) {
            return Err(AcpiError::NoHhdm);
        }
        current = current + n as u64;
        remaining = remaining - n;
    }
    Ok(bytes)
}

// ---------------------------------------------------------------------------
// Tables
// ---------------------------------------------------------------------------
pub open spec fn sum(bytes: Seq<u8>) -> int
    decreases bytes.len(),
{
    if bytes.len() == 0 {
        0
    } else {
        sum(bytes.drop_last()) + bytes.last()
    }
}

/// Whether all bytes add up to zero.
pub open spec fn sums_to_zero(bytes: Seq<u8>) -> bool {
    sum(bytes) % 256 == 0
}

fn checksum(bytes: &[u8]) -> (r: bool)
    ensures
        r == sums_to_zero(bytes@),
{
    let mut total: u8 = 0;
    let mut i: usize = 0;
    assert(bytes@.take(0) =~= Seq::<u8>::empty());
    while i < bytes.len()
        invariant
            i <= bytes@.len(),
            total == sum(bytes@.take(i as int)) % 256,
        decreases bytes@.len() - i,
    {
        assert(bytes@.take(i + 1).drop_last() =~= bytes@.take(i as int));
        total = ((total as u16 + bytes[i] as u16) % 256) as u8;
        i += 1;
    }
    assert(bytes@.take(i as int) =~= bytes@);
    total == 0
}

/// A table with its header, whose bytes add up to zero.
#[verifier::opaque]
pub open spec fn table_read(m: MachineView, space: AddressSpace, address: u64) -> (
    MachineView,
    Result<Seq<u8>, AcpiError>,
) {
    match physical_read(m, space, address, 36) {
        (m1, Err(e)) => (m1, Err(e)),
        (m1, Ok(header)) => {
            let length = bytes::le32_at(header, 4);
            if length < 36 || length > 1_048_576 {
                (m1, Err(AcpiError::InvalidTableLength))
            } else {
                match physical_read(m1, space, address, length) {
                    (m2, Err(e)) => (m2, Err(e)),
                    (m2, Ok(table)) => if sums_to_zero(table) {
                        (m2, Ok(table))
                    } else {
                        (m2, Err(AcpiError::InvalidChecksum))
                    },
                }
            }
        },
    }
}

fn sdt(machine: &mut Machine, physical_address: u64) -> (r: Result<Vec<u8>, AcpiError>)
    requires
        old(machine).wf(),
    ensures
        final(machine).wf(),
        final(machine).same_place(old(machine)),
        ({
            let (after, read) = table_read(
                old(machine)@,
                AddressSpace { pml4_phys: paging::address_of(old(machine).cr3) },
                physical_address,
            );
            &&& final(machine)@ == after
            &&& match r {
                Ok(bytes) => read == Ok::<Seq<u8>, AcpiError>(bytes@) && 36 <= bytes@.len()
                    <= 1_048_576,
                Err(e) => read == Err::<Seq<u8>, AcpiError>(e),
            }
        }),
{
    proof {
        reveal(table_read);
    }
    let header: Vec<u8> = match physical_bytes(machine, physical_address, SDT_HEADER_LENGTH) {
        Err(e) => {
            return Err(e);
        },
        Ok(header) => header,
    };
    let length: u32 = get_le32(header.as_slice(), 4);
    if length < 36 || length > 1_048_576 {
        return Err(AcpiError::InvalidTableLength);
    }
    let table: Vec<u8> = match physical_bytes(machine, physical_address, length as usize) {
        Err(e) => {
            return Err(e);
        },
        Ok(table) => table,
    };
    if !checksum(table.as_slice()) {
        return Err(AcpiError::InvalidChecksum);
    }
    Ok(table)
}

/// What a record of the interrupt table adds to what is known.
pub open spec fn madt_record(t: Seq<u8>, o: int, length: int, info: MadtInfo) -> MadtInfo {
    let kind = t[o];
    if kind == 0 && length >= 8 && bytes::le32_at(t, o + 4) % 2 == 1 {
        MadtInfo { enabled_processors: (info.enabled_processors + 1) as usize, ..info }
    } else if kind == 1 && length >= 12 {
        MadtInfo {
            io_apics: (info.io_apics + 1) as usize,
            io_apic: if info.io_apic is None {
                Some(
                    IoApicDescriptor {
                        physical_address: bytes::le32_at(t, o + 4) as u32,
                        global_irq_base: bytes::le32_at(t, o + 8) as u32,
                    },
                )
            } else {
                info.io_apic
            },
            ..info
        }
    } else if kind == 2 && length >= 10 {
        MadtInfo {
            interrupt_source_overrides: (info.interrupt_source_overrides + 1) as usize,
            timer_gsi: if t[o + 2] == 0 && t[o + 3] == 0 {
                bytes::le32_at(t, o + 4) as u32
            } else {
                info.timer_gsi
            },
            keyboard_gsi: if t[o + 2] == 0 && t[o + 3] == 1 {
                bytes::le32_at(t, o + 4) as u32
            } else {
                info.keyboard_gsi
            },
            ..info
        }
    } else if kind == 9 && length >= 16 && bytes::le32_at(t, o + 8) % 2 == 1 {
        MadtInfo { enabled_processors: (info.enabled_processors + 1) as usize, ..info }
    } else {
        info
    }
}

/// What the records from a place on add.
pub open spec fn madt_records(t: Seq<u8>, o: int, info: MadtInfo) -> Result<MadtInfo, AcpiError>
    decreases t.len() - o,
{
    if o >= t.len() {
        Ok(info)
    } else if t.len() - o < 2 {
        Err(AcpiError::InvalidMadt)
    } else {
        let length = t[o + 1] as int;
        if length < 2 || o + length > t.len() {
            Err(AcpiError::InvalidMadt)
        } else {
            madt_records(t, o + length, madt_record(t, o, length, info))
        }
    }
}

/// What the interrupt table says.
#[verifier::opaque]
pub open spec fn madt(t: Seq<u8>) -> Result<MadtInfo, AcpiError> {
    if t.len() < 44 {
        Err(AcpiError::InvalidMadt)
    } else {
        madt_records(
            t,
            44,
            MadtInfo {
                local_apic_address: bytes::le32_at(t, 36) as u32,
                flags: bytes::le32_at(t, 40) as u32,
                enabled_processors: 0,
                io_apics: 0,
                interrupt_source_overrides: 0,
                io_apic: None,
                timer_gsi: 0,
                keyboard_gsi: 1,
            },
        )
    }
}

pub fn parse_madt(table: &[u8]) -> (r: Result<MadtInfo, AcpiError>)
    ensures
        r == madt(table@),
{
    assert(table@.len() == table.len());
    proof {
        reveal(madt);
    }
    if table.len() < 44 {
        return Err(AcpiError::InvalidMadt);
    }
    let mut info = MadtInfo {
        local_apic_address: get_le32(table, 36),
        flags: get_le32(table, 40),
        enabled_processors: 0,
        io_apics: 0,
        interrupt_source_overrides: 0,
        io_apic: None,
        timer_gsi: 0,
        keyboard_gsi: 1,
    };
    let mut offset: usize = 44;
    while offset < table.len()
        invariant
            offset <= table@.len(),
            table@.len() == table.len(),
            info.enabled_processors <= offset,
            info.io_apics <= offset,
            info.interrupt_source_overrides <= offset,
            madt(table@) == madt_records(table@, offset as int, info),
        decreases table@.len() - offset,
    {
        proof {
            reveal(madt);
        }
        if table.len() - offset < 2 {
            return Err(AcpiError::InvalidMadt);
        }
        let kind: u8 = table[offset];
        let length: usize = table[offset + 1] as usize;
        if length < 2 || length > table.len() - offset {
            return Err(AcpiError::InvalidMadt);
        }
        let ghost before = info;
        if kind == 0 {
            if length >= 8 && get_le32(table, offset + 4) % 2 == 1 {
                info.enabled_processors = info.enabled_processors + 1;
            }
        } else if kind == 1 {
            if length >= 12 {
                info.io_apics = info.io_apics + 1;
                if info.io_apic.is_none() {
                    info.io_apic = Some(
                        IoApicDescriptor {
                            physical_address: get_le32(table, offset + 4),
                            global_irq_base: get_le32(table, offset + 8),
                        },
                    );
                }
            }
        } else if kind == 2 {
            if length >= 10 {
                info.interrupt_source_overrides = info.interrupt_source_overrides + 1;
                if table[offset + 2] == 0 {
                    if table[offset + 3] == 0 {
                        info.timer_gsi = get_le32(table, offset + 4);
                    } else if table[offset + 3] == 1 {
                        info.keyboard_gsi = get_le32(table, offset + 4);
                    }
                }
            }
        } else if kind == 9 {
            if length >= 16 && get_le32(table, offset + 8) % 2 == 1 {
                info.enabled_processors = info.enabled_processors + 1;
            }
        }
        assert(info == madt_record(table@, offset as int, length as int, before));
        offset = offset + length;
    }
    Ok(info)
}

/// What the table of configuration regions says.
#[verifier::opaque]
pub open spec fn mcfg(t: Seq<u8>) -> Result<McfgInfo, AcpiError> {
    if t.len() < 44 || (t.len() - 44) % 16 != 0 {
        Err(AcpiError::InvalidTableLength)
    } else {
        Ok(
            McfgInfo {
                regions: ((t.len() - 44) / 16) as usize,
                first_region: if t.len() > 44 {
                    Some(
                        PciEcamRegion {
                            base_address: bytes::le64_at(t, 44) as u64,
                            segment_group: bytes::le16_at(t, 52) as u16,
                            start_bus: t[54],
                            end_bus: t[55],
                        },
                    )
                } else {
                    None
                },
            },
        )
    }
}

pub fn parse_mcfg(table: &[u8]) -> (r: Result<McfgInfo, AcpiError>)
    ensures
        r == mcfg(table@),
{
    assert(table@.len() == table.len());
    proof {
        reveal(mcfg);
    }
    if table.len() < 44 || (table.len() - 44) % 16 != 0 {
        return Err(AcpiError::InvalidTableLength);
    }
    let regions: usize = (table.len() - 44) / 16;
    let first_region: Option<PciEcamRegion> = if regions != 0 {
        Some(
            PciEcamRegion {
                base_address: get_le64(table, 44),
                segment_group: get_le16(table, 52),
                start_bus: table[54],
                end_bus: table[55],
            },
        )
    } else {
        None
    };
    Ok(McfgInfo { regions, first_region })
}

// ---------------------------------------------------------------------------
// Discovery
// ---------------------------------------------------------------------------
/// `RSD PTR ` at the start.
pub open spec fn is_rsdp(t: Seq<u8>) -> bool {
    t.subrange(0, 8) == seq![0x52u8, 0x53, 0x44, 0x20, 0x50, 0x54, 0x52, 0x20]
}

pub open spec fn rsdt_signature() -> Seq<u8> {
    seq![0x52u8, 0x53, 0x44, 0x54]
}

pub open spec fn xsdt_signature() -> Seq<u8> {
    seq![0x58u8, 0x53, 0x44, 0x54]
}

pub open spec fn madt_signature() -> Seq<u8> {
    seq![0x41u8, 0x50, 0x49, 0x43]
}

pub open spec fn mcfg_signature() -> Seq<u8> {
    seq![0x4du8, 0x43, 0x46, 0x47]
}

/// Where the root table is, and which one it is.
#[verifier::opaque]
pub open spec fn root_found(m: MachineView, space: AddressSpace, rsdp: u64) -> (
    MachineView,
    Result<(u8, RootTable, u64), AcpiError>,
) {
    match physical_read(m, space, rsdp, 20) {
        (m1, Err(e)) => (m1, Err(e)),
        (m1, Ok(first)) => if !is_rsdp(first) || !sums_to_zero(first) {
            (m1, Err(AcpiError::InvalidRsdp))
        } else if first[15] < 2 {
            (m1, Ok((first[15], RootTable::Rsdt, bytes::le32_at(first, 16) as u64)))
        } else {
            match physical_read(m1, space, rsdp, 36) {
                (m2, Err(e)) => (m2, Err(e)),
                (m2, Ok(longer)) => {
                    let length = bytes::le32_at(longer, 20);
                    if length < 36 || length > 1_048_576 {
                        (m2, Err(AcpiError::InvalidRsdp))
                    } else {
                        match physical_read(m2, space, rsdp, length) {
                            (m3, Err(e)) => (m3, Err(e)),
                            (m3, Ok(whole)) => if !sums_to_zero(whole) {
                                (m3, Err(AcpiError::InvalidChecksum))
                            } else if bytes::le64_at(whole, 24) != 0 {
                                (
                                    m3,
                                    Ok((first[15], RootTable::Xsdt, bytes::le64_at(whole, 24) as u64)),
                                )
                            } else {
                                (
                                    m3,
                                    Ok((first[15], RootTable::Rsdt, bytes::le32_at(first, 16) as u64)),
                                )
                            },
                        }
                    }
                },
            }
        },
    }
}

/// What a table adds to what is known.
#[verifier::opaque]
pub open spec fn table_known(t: Seq<u8>, info: AcpiInfo) -> Result<AcpiInfo, AcpiError> {
    if t.subrange(0, 4) == madt_signature() {
        match madt(t) {
            Ok(found) => Ok(AcpiInfo { madt: Some(found), ..info }),
            Err(e) => Err(e),
        }
    } else if t.subrange(0, 4) == mcfg_signature() {
        match mcfg(t) {
            Ok(found) => Ok(AcpiInfo { mcfg: Some(found), ..info }),
            Err(e) => Err(e),
        }
    } else {
        Ok(info)
    }
}

pub open spec fn entry_address(root: Seq<u8>, kind: RootTable, o: int) -> u64 {
    match kind {
        RootTable::Rsdt => bytes::le32_at(root, o) as u64,
        RootTable::Xsdt => bytes::le64_at(root, o) as u64,
    }
}

pub open spec fn entry_size(kind: RootTable) -> int {
    match kind {
        RootTable::Rsdt => 4,
        RootTable::Xsdt => 8,
    }
}

/// What the tables that a root table lists add, from a place on.
pub open spec fn tables_known(
    m: MachineView,
    space: AddressSpace,
    root: Seq<u8>,
    o: int,
    info: AcpiInfo,
) -> (MachineView, Result<AcpiInfo, AcpiError>)
    decreases (if o < root.len() { root.len() - o } else { 0 }),
{
    if o >= root.len() {
        (m, Ok(info))
    } else {
        match table_read(m, space, entry_address(root, info.root, o)) {
            (m1, Err(e)) => (m1, Err(e)),
            (m1, Ok(t)) => match table_known(t, info) {
                Err(e) => (m1, Err(e)),
                Ok(more) => tables_known(m1, space, root, o + entry_size(info.root), more),
            },
        }
    }
}

pub open spec fn signature_of(kind: RootTable) -> Seq<u8> {
    match kind {
        RootTable::Rsdt => rsdt_signature(),
        RootTable::Xsdt => xsdt_signature(),
    }
}

/// What the tables say, from the root pointer on.
pub open spec fn discovered(m: MachineView, space: AddressSpace, rsdp: u64) -> (
    MachineView,
    Result<AcpiInfo, AcpiError>,
) {
    match root_found(m, space, rsdp) {
        (m1, Err(e)) => (m1, Err(e)),
        (m1, Ok((revision, kind, address))) => match table_read(m1, space, address) {
            (m2, Err(e)) => (m2, Err(e)),
            (m2, Ok(root)) => {
                let room = root.len() - 36;
                if root.subrange(0, 4) != signature_of(kind) || room % entry_size(kind) != 0
                    || room / entry_size(kind) > 1024 {
                    (m2, Err(AcpiError::InvalidRootTable))
                } else {
                    tables_known(
                        m2,
                        space,
                        root,
                        36,
                        AcpiInfo {
                            revision,
                            root: kind,
                            table_count: (room / entry_size(kind)) as usize,
                            madt: None,
                            mcfg: None,
                        },
                    )
                }
            },
        },
    }
}

fn find_root(machine: &mut Machine, rsdp_physical: u64) -> (r: Result<
    (u8, RootTable, u64),
    AcpiError,
>)
    requires
        old(machine).wf(),
    ensures
        final(machine).wf(),
        final(machine).same_place(old(machine)),
        (final(machine)@, r) == root_found(
            old(machine)@,
            AddressSpace { pml4_phys: paging::address_of(old(machine).cr3) },
            rsdp_physical,
        ),
{
    proof {
        reveal(root_found);
    }
    let first: Vec<u8> = match physical_bytes(machine, rsdp_physical, RSDP_V1_LENGTH) {
        Err(e) => {
            return Err(e);
        },
        Ok(first) => first,
    };
    let signature: [u8; 8] = [0x52, 0x53, 0x44, 0x20, 0x50, 0x54, 0x52, 0x20];
    assert(signature@ =~= seq![0x52u8, 0x53, 0x44, 0x20, 0x50, 0x54, 0x52, 0x20]);
    if !holds_at(first.as_slice(), 0, &signature) || !checksum(first.as_slice()) {
        return Err(AcpiError::InvalidRsdp);
    }
    let revision: u8 = first[15];
    let rsdt: u64 = get_le32(first.as_slice(), 16) as u64;
    if revision < 2 {
        return Ok((revision, RootTable::Rsdt, rsdt));
    }
    let longer: Vec<u8> = match physical_bytes(machine, rsdp_physical, RSDP_V2_LENGTH) {
        Err(e) => {
            return Err(e);
        },
        Ok(longer) => longer,
    };
    let length: u32 = get_le32(longer.as_slice(), 20);
    if length < 36 || length > 1_048_576 {
        return Err(AcpiError::InvalidRsdp);
    }
    let whole: Vec<u8> = match physical_bytes(machine, rsdp_physical, length as usize) {
        Err(e) => {
            return Err(e);
        },
        Ok(whole) => whole,
    };
    if !checksum(whole.as_slice()) {
        return Err(AcpiError::InvalidChecksum);
    }
    let xsdt: u64 = get_le64(whole.as_slice(), 24);
    if xsdt != 0 {
        Ok((revision, RootTable::Xsdt, xsdt))
    } else {
        Ok((revision, RootTable::Rsdt, rsdt))
    }
}

fn know_table(table: &[u8], info: AcpiInfo) -> (r: Result<AcpiInfo, AcpiError>)
    requires
        table@.len() >= 36,
    ensures
        r == table_known(table@, info),
        r matches Ok(more) ==> more.root == info.root,
{
    proof {
        reveal(table_known);
    }
    let apic: [u8; 4] = [0x41, 0x50, 0x49, 0x43];
    let regions: [u8; 4] = [0x4d, 0x43, 0x46, 0x47];
    assert(apic@ =~= madt_signature());
    assert(regions@ =~= mcfg_signature());
    assert(table@.len() == table.len());
    if holds_at(table, 0, &apic) {
        match parse_madt(table) {
            Ok(found) => Ok(AcpiInfo { madt: Some(found), ..info }),
            Err(e) => Err(e),
        }
    } else if holds_at(table, 0, &regions) {
        match parse_mcfg(table) {
            Ok(found) => Ok(AcpiInfo { mcfg: Some(found), ..info }),
            Err(e) => Err(e),
        }
    } else {
        Ok(info)
    }
}

/// Reads what firmware says of the machine, from the root pointer on.
pub fn initialize(machine: &mut Machine, rsdp_physical: u64) -> (r: Result<AcpiInfo, AcpiError>)
    requires
        old(machine).wf(),
    ensures
        final(machine).wf(),
        final(machine).same_place(old(machine)),
        (final(machine)@, r) == discovered(
            old(machine)@,
            AddressSpace { pml4_phys: paging::address_of(old(machine).cr3) },
            rsdp_physical,
        ),
{
    let ghost space = AddressSpace { pml4_phys: paging::address_of(old(machine).cr3) };
    let (revision, root, address): (u8, RootTable, u64) = match find_root(machine, rsdp_physical) {
        Err(e) => {
            return Err(e);
        },
        Ok(found) => found,
    };
    let table: Vec<u8> = match sdt(machine, address) {
        Err(e) => {
            return Err(e);
        },
        Ok(table) => table,
    };
    let expected: [u8; 4] = match root {
        RootTable::Rsdt => [0x52, 0x53, 0x44, 0x54],
        RootTable::Xsdt => [0x58, 0x53, 0x44, 0x54],
    };
    assert(expected@ =~= signature_of(root));
    if !holds_at(table.as_slice(), 0, &expected) {
        return Err(AcpiError::InvalidRootTable);
    }
    let size: usize = match root {
        RootTable::Rsdt => 4,
        RootTable::Xsdt => 8,
    };
    let room: usize = table.len() - SDT_HEADER_LENGTH;
    if room % size != 0 || room / size > MAX_ROOT_ENTRIES {
        return Err(AcpiError::InvalidRootTable);
    }
    let mut info = AcpiInfo {
        revision,
        root,
        table_count: room / size,
        madt: None,
        mcfg: None,
    };
    let mut offset: usize = SDT_HEADER_LENGTH;
    let ghost goal = discovered(old(machine)@, space, rsdp_physical);
    while offset < table.len()
        invariant
            machine.wf(),
            machine.same_place(old(machine)),
            space == (AddressSpace { pml4_phys: paging::address_of(old(machine).cr3) }),
            36 <= offset <= table@.len() <= 1_048_576,
            size == entry_size(root),
            info.root == root,
            (table@.len() - offset) % (size as int) == 0,
            goal == discovered(old(machine)@, space, rsdp_physical),
            goal == tables_known(machine@, space, table@, offset as int, info),
        decreases table@.len() - offset,
    {
        assert(table@.len() - offset >= size) by {
            if root == RootTable::Rsdt {
                assert((table@.len() - offset) % 4 == 0);
            } else {
                assert((table@.len() - offset) % 8 == 0);
            }
        }
        let address: u64 = match root {
            RootTable::Rsdt => get_le32(table.as_slice(), offset) as u64,
            RootTable::Xsdt => get_le64(table.as_slice(), offset),
        };
        let listed: Vec<u8> = match sdt(machine, address) {
            Err(e) => {
                return Err(e);
            },
            Ok(listed) => listed,
        };
        match know_table(listed.as_slice(), info) {
            Err(e) => {
                return Err(e);
            },
            Ok(more) => {
                info = more;
            },
        }
        offset = offset + size;
        assert((table@.len() - offset) % (size as int) == 0) by {
            if root == RootTable::Rsdt {
                assert((table@.len() - offset) % 4 == 0);
            } else {
                assert((table@.len() - offset) % 8 == 0);
            }
        }
    }
    Ok(info)
}

/// Checks the sum on a known good and a known bad text.
pub fn self_check() -> (r: bool)
    ensures
        r,
{
    let good: [u8; 4] = [1, 2, 3, 250];
    let bad: [u8; 4] = [1, 2, 3, 249];
    proof {
        reveal_with_fuel(sum, 5);
    }
    checksum(&good) && !checksum(&bad)
}

proof fn lemma_sum_update(bytes: Seq<u8>, i: int, b: u8)
    requires
        0 <= i < bytes.len(),
    ensures
        sum(bytes.update(i, b)) == sum(bytes) - bytes[i] + b,
    decreases bytes.len(),
{
    let changed = bytes.update(i, b);
    if i == bytes.len() - 1 {
        assert(changed.drop_last() =~= bytes.drop_last());
    } else {
        lemma_sum_update(bytes.drop_last(), i, b);
        assert(changed.drop_last() =~= bytes.drop_last().update(i, b));
    }
}

/// A table in which one byte is wrong does not add up.
pub proof fn law_wrong_byte_detected(bytes: Seq<u8>, i: int, b: u8)
    requires
        0 <= i < bytes.len(),
        sums_to_zero(bytes),
        b != bytes[i],
    ensures
        !sums_to_zero(bytes.update(i, b)),
{
    lemma_sum_update(bytes, i, b);
}

proof fn lemma_same_record(t: Seq<u8>, r: Seq<u8>, o: int, length: int, info: MadtInfo)
    requires
        0 <= o,
        2 <= length,
        o + length <= t.len(),
    ensures
        madt_record(t + r, o, length, info) == madt_record(t, o, length, info),
{
    let all = t + r;
    assert forall|i: int| 0 <= i < t.len() implies all[i] == t[i] by {}
    if length >= 8 {
        assert(bytes::le32_at(all, o + 4) == bytes::le32_at(t, o + 4));
    }
    if length >= 12 {
        assert(bytes::le32_at(all, o + 8) == bytes::le32_at(t, o + 8));
    }
}

/// A table of interrupts with one more record says what it said and what the
/// record adds.
pub proof fn law_record_adds(t: Seq<u8>, r: Seq<u8>, o: int, info: MadtInfo)
    requires
        0 <= o <= t.len(),
        2 <= r.len() <= 255,
        r[1] == r.len(),
        madt_records(t, o, info) is Ok,
    ensures
        madt_records(t + r, o, info) == Ok::<MadtInfo, AcpiError>(
            madt_record(t + r, t.len() as int, r.len() as int, madt_records(t, o, info)->Ok_0),
        ),
    decreases t.len() - o,
{
    let all = t + r;
    if o >= t.len() {
        assert(all[o] == r[0] && all[o + 1] == r[1]);
        reveal_with_fuel(madt_records, 2);
    } else {
        let length = t[o + 1] as int;
        assert(all[o + 1] == t[o + 1]);
        lemma_same_record(t, r, o, length, info);
        law_record_adds(t, r, o + length, madt_record(t, o, length, info));
    }
}

/// What records tell: a processor that is enabled is counted, one that is not
/// is not; the first controller of interrupts is the one that is used, and all
/// are counted; the line of the timer and that of the keyboard are where an
/// override says. Records of other kinds tell nothing.
pub proof fn law_records_tell(t: Seq<u8>, o: int, length: int, info: MadtInfo)
    requires
        0 <= o,
        o + 16 <= t.len(),
        info.enabled_processors < usize::MAX,
        info.io_apics < usize::MAX,
        info.interrupt_source_overrides < usize::MAX,
    ensures
        ({
            let after = madt_record(t, o, length, info);
            let enabled = (t[o] == 0 && length >= 8 && bytes::le32_at(t, o + 4) % 2 == 1) || (t[o]
                == 9 && length >= 16 && bytes::le32_at(t, o + 8) % 2 == 1);
            &&& after.enabled_processors - info.enabled_processors == (if enabled {
                1int
            } else {
                0
            })
            &&& after.io_apics - info.io_apics == (if t[o] == 1 && length >= 12 {
                1int
            } else {
                0
            })
            &&& info.io_apic is Some ==> after.io_apic == info.io_apic
            &&& info.io_apic is None && t[o] == 1 && length >= 12 ==> (after.io_apic matches Some(d)
                && d.physical_address == bytes::le32_at(t, o + 4) && d.global_irq_base
                == bytes::le32_at(t, o + 8))
            &&& t[o] == 2 && length >= 10 && t[o + 2] == 0 && t[o + 3] == 0 ==> after.timer_gsi
                == bytes::le32_at(t, o + 4) && after.keyboard_gsi == info.keyboard_gsi
            &&& t[o] == 2 && length >= 10 && t[o + 2] == 0 && t[o + 3] == 1 ==> after.keyboard_gsi
                == bytes::le32_at(t, o + 4) && after.timer_gsi == info.timer_gsi
            &&& t[o] != 2 ==> after.timer_gsi == info.timer_gsi && after.keyboard_gsi
                == info.keyboard_gsi
            &&& t[o] > 2 && t[o] != 9 ==> after == info
            &&& after.local_apic_address == info.local_apic_address
        }),
{
}

} // verus!
