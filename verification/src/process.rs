//! User processes: loading their programs, their stacks, and their memory.
use vstd::prelude::*;

pub mod extents;
pub mod loading;
pub mod planning;

use crate::bytes::{self, get_le32, push_le32, push_le64, put_vec};
use crate::elf::{self, ElfError, ElfImage, ProgramHeader};
use crate::memory::{self, PAGE_SIZE, PhysFrame};
use crate::paging::{self, AddressSpace, Machine, MachineView, MapError};

verus! {

pub const INTERP_BASE: u64 = 0x0000_7f00_0000_0000;

pub const DEFAULT_PIE_BASE: u64 = 0x0040_0000;

pub const USER_STACK_TOP: u64 = 0x0000_7fff_ffff_f000;

pub const USER_STACK_PAGES: u64 = 16;

pub const USER_STACK_START: u64 = 0x0000_7fff_fffe_f000;

pub const USER_ADDRESS_LIMIT: u64 = 0x0000_8000_0000_0000;

#[derive(Clone, Copy, Debug, PartialEq, Eq, Structural)]
pub struct MappedPage {
    pub virtual_address: u64,
    pub physical_address: u64,
}

#[derive(Clone, Copy, Debug, PartialEq, Eq, Structural)]
pub struct PagePlan {
    pub virtual_address: u64,
    pub flags: u64,
    pub executable: bool,
}

#[derive(Clone, Copy, Debug, PartialEq, Eq, Structural)]
pub enum ProcessError {
    Elf(ElfError),
    LinuxElf,
    Mapping(MapError),
    OutOfMemory,
    InvalidLoadSegment,
    InvalidUserAddress,
    EntryNotExecutable,
    FrameReleaseFailed,
}

#[derive(Clone, Copy, Debug, PartialEq, Eq, Structural)]
pub enum ProcessPersonality {
    NativeVanta,
    LinuxX86_64Static,
}

// ---------------------------------------------------------------------------
// User memory
// ---------------------------------------------------------------------------
/// The place in memory of a user address, if it can be reached.
#[verifier::opaque]
pub open spec fn user_place(m: MachineView, space: AddressSpace, address: u64) -> Option<int> {
    match m.translated(space, address) {
        None => None,
        Some(t) => if m.virt(t.physical_address) is Some && t.physical_address < m.ram.len() {
            Some(t.physical_address as int)
        } else {
            None
        },
    }
}

/// Where the byte of a user address is, for any number: past the last address
/// there is nothing.
pub open spec fn place_at(m: MachineView, space: AddressSpace, address: int) -> Option<int> {
    if 0 <= address <= u64::MAX {
        user_place(m, space, address as u64)
    } else {
        None
    }
}

/// Bytes written one after the other from a user address on, up to the first
/// that has no place.
pub open spec fn user_written(
    m: MachineView,
    space: AddressSpace,
    address: int,
    bytes: Seq<u8>,
) -> (MachineView, Result<(), ProcessError>)
    decreases bytes.len(),
{
    if bytes.len() == 0 {
        (m, Ok(()))
    } else {
        match place_at(m, space, address) {
            None => (m, Err(ProcessError::InvalidUserAddress)),
            Some(p) => user_written(
                MachineView { ram: m.ram.update(p, bytes[0]), ..m },
                space,
                address + 1,
                bytes.skip(1),
            ),
        }
    }
}

/// The bytes at user addresses from `address` on, `n` of them.
pub open spec fn user_read(m: MachineView, space: AddressSpace, address: int, n: nat) -> Option<
    Seq<u8>,
>
    decreases n,
{
    if n == 0 {
        Some(Seq::empty())
    } else {
        match (
            user_read(m, space, address, (n - 1) as nat),
            place_at(m, space, address + n - 1),
        ) {
            (Some(before), Some(p)) => Some(before.push(m.ram[p])),
            _ => None,
        }
    }
}

/// Where byte `k` of a range of a program's addresses is.
pub open spec fn place_in(m: MachineView, space: AddressSpace, address: int, k: int) -> Option<int> {
    place_at(m, space, address + k)
}

/// Whether a physical byte is one of a range of a program's addresses.
pub open spec fn is_in_range(
    m: MachineView,
    space: AddressSpace,
    address: int,
    n: int,
    place: int,
) -> bool {
    exists|k: int| 0 <= k < n && #[trigger] place_in(m, space, address, k) == Some(place)
}

/// Whether memory is as it was outside of a range of a program's addresses.
pub open spec fn same_outside(
    m: MachineView,
    space: AddressSpace,
    address: int,
    n: int,
    ram: Seq<u8>,
) -> bool {
    &&& ram.len() == m.ram.len()
    &&& forall|i: int|
        0 <= i < ram.len() && !is_in_range(m, space, address, n, i) ==> #[trigger] ram[i]
            == m.ram[i]
}

/// A range of addresses that a program can use as memory: each byte has a place
/// of its own, and none of them is part of what leads there.
pub open spec fn is_memory(m: MachineView, space: AddressSpace, address: int, n: int) -> bool {
    &&& forall|k: int|
        0 <= k < n ==> (#[trigger] place_in(m, space, address, k) matches Some(p) && 0 <= p
            < m.ram.len())
    &&& forall|j: int, k: int|
        0 <= j < k < n ==> #[trigger] place_in(m, space, address, j) != #[trigger] place_in(
            m,
            space,
            address,
            k,
        )
    &&& forall|ram: Seq<u8>, k: int|
        0 <= k < n && same_outside(m, space, address, n, ram) ==> #[trigger] place_in(
            MachineView { ram, ..m },
            space,
            address,
            k,
        ) == place_in(m, space, address, k)
}

/// What is written for a program is read back from the same addresses.
pub proof fn law_user_write_then_read(
    m: MachineView,
    space: AddressSpace,
    address: int,
    bytes: Seq<u8>,
)
    requires
        is_memory(m, space, address, bytes.len() as int),
    ensures
        ({
            let (after, r) = user_written(m, space, address, bytes);
            &&& r is Ok
            &&& user_read(after, space, address, bytes.len()) == Some(bytes)
        }),
{
    assert(MachineView { ram: m.ram, ..m } == m);
    assert(bytes.skip(0) =~= bytes);
    let ram = lemma_written_from(m, space, address, bytes, m.ram, 0);
    lemma_read_back(m, space, address, bytes, ram, bytes.len());
    assert(bytes.take(bytes.len() as int) =~= bytes);
}

proof fn lemma_written_from(
    m: MachineView,
    space: AddressSpace,
    address: int,
    bytes: Seq<u8>,
    ram: Seq<u8>,
    j: int,
) -> (after: Seq<u8>)
    requires
        is_memory(m, space, address, bytes.len() as int),
        same_outside(m, space, address, bytes.len() as int, ram),
        0 <= j <= bytes.len(),
        forall|k: int|
            0 <= k < j ==> ram[(#[trigger] place_in(m, space, address, k))->0] == bytes[k],
    ensures
        user_written(MachineView { ram, ..m }, space, address + j, bytes.skip(j)) == (
            MachineView { ram: after, ..m },
            Ok::<(), ProcessError>(()),
        ),
        same_outside(m, space, address, bytes.len() as int, after),
        forall|k: int|
            0 <= k < bytes.len() ==> after[(#[trigger] place_in(m, space, address, k))->0]
                == bytes[k],
    decreases bytes.len() - j,
{
    if j == bytes.len() {
        assert(bytes.skip(j).len() == 0);
        ram
    } else {
        let now = MachineView { ram, ..m };
        let p = place_in(m, space, address, j)->0;
        assert(place_in(now, space, address, j) == place_in(m, space, address, j));
        assert(place_in(m, space, address, j) is Some);
        assert(is_in_range(m, space, address, bytes.len() as int, p));
        let next = ram.update(p, bytes[j]);
        assert(same_outside(m, space, address, bytes.len() as int, next));
        assert forall|k: int| 0 <= k < j + 1 implies next[(#[trigger] place_in(
            m,
            space,
            address,
            k,
        ))->0] == bytes[k] by {
            if k < j {
                assert(place_in(m, space, address, k) != place_in(m, space, address, j));
                assert(place_in(m, space, address, k) is Some);
            }
        }
        assert(bytes.skip(j)[0] == bytes[j]);
        assert(bytes.skip(j).skip(1) =~= bytes.skip(j + 1));
        let after = lemma_written_from(m, space, address, bytes, next, j + 1);
        assert(MachineView { ram: now.ram.update(p, bytes[j]), ..now } == MachineView {
            ram: next,
            ..m
        });
        after
    }
}

proof fn lemma_read_back(
    m: MachineView,
    space: AddressSpace,
    address: int,
    bytes: Seq<u8>,
    ram: Seq<u8>,
    n: nat,
)
    requires
        is_memory(m, space, address, bytes.len() as int),
        same_outside(m, space, address, bytes.len() as int, ram),
        n <= bytes.len(),
        forall|k: int|
            0 <= k < bytes.len() ==> ram[(#[trigger] place_in(m, space, address, k))->0]
                == bytes[k],
    ensures
        user_read(MachineView { ram, ..m }, space, address, n) == Some(bytes.take(n as int)),
    decreases n,
{
    if n == 0 {
        assert(bytes.take(0) =~= Seq::<u8>::empty());
    } else {
        lemma_read_back(m, space, address, bytes, ram, (n - 1) as nat);
        let k = n - 1;
        let now = MachineView { ram, ..m };
        assert(place_in(now, space, address, k) == place_in(m, space, address, k));
        assert(place_in(m, space, address, k) is Some);
        assert(bytes.take(n as int) =~= bytes.take(k).push(bytes[k]));
    }
}

fn find_place(machine: &Machine, space: AddressSpace, address: u64) -> (r: Option<usize>)
    ensures
        match r {
            Some(p) => user_place(machine@, space, address) == Some(p as int) && p
                < machine.ram.len(),
            None => user_place(machine@, space, address) is None,
        },
{
    proof {
        reveal(user_place);
    }
    match paging::translate_in(machine, space, address) {
        None => None,
        Some(t) => {
            if paging::phys_to_virt(machine, t.physical_address).is_none() {
                return None;
            }
            if t.physical_address >= machine.ram.len() as u64 {
                return None;
            }
            Some(t.physical_address as usize)
        },
    }
}

pub fn write_user_byte_in(machine: &mut Machine, space: AddressSpace, address: u64, value: u8) -> (r:
    Result<(), ProcessError>)
    requires
        old(machine).wf(),
    ensures
        final(machine).wf(),
        final(machine).same_place(old(machine)),
        match user_place(old(machine)@, space, address) {
            None => r == Err::<(), ProcessError>(ProcessError::InvalidUserAddress)
                && *final(machine) == *old(machine),
            Some(p) => r is Ok && final(machine)@ == (MachineView {
                ram: old(machine)@.ram.update(p, value),
                ..old(machine)@
            }),
        },
{
    match find_place(machine, space, address) {
        None => Err(ProcessError::InvalidUserAddress),
        Some(p) => {
            machine.ram[p] = value;
            Ok(())
        },
    }
}

pub fn write_user_bytes_in(
    machine: &mut Machine,
    space: AddressSpace,
    address: u64,
    bytes: &[u8],
) -> (r: Result<(), ProcessError>)
    requires
        old(machine).wf(),
    ensures
        final(machine).wf(),
        final(machine).same_place(old(machine)),
        (final(machine)@, r) == user_written(old(machine)@, space, address as int, bytes@),
{
    let ghost goal = user_written(machine@, space, address as int, bytes@);
    let mut i: usize = 0;
    assert(bytes@.skip(0) =~= bytes@);
    while i < bytes.len()
        invariant
            i <= bytes.len(),
            machine.wf(),
            machine.same_place(old(machine)),
            user_written(machine@, space, address + i, bytes@.skip(i as int)) == goal,
            goal == user_written(old(machine)@, space, address as int, bytes@),
        decreases bytes.len() - i,
    {
        proof {
            assert(bytes@.skip(i as int)[0] == bytes@[i as int]);
            assert(bytes@.skip(i as int).skip(1) =~= bytes@.skip(i + 1));
        }
        if i as u64 > u64::MAX - address {
            return Err(ProcessError::InvalidUserAddress);
        }
        match write_user_byte_in(machine, space, address + i as u64, bytes[i]) {
            Err(e) => {
                return Err(e);
            },
            Ok(_) => {},
        }
        i += 1;
    }
    Ok(())
}

pub fn write_user_u32_in(machine: &mut Machine, space: AddressSpace, address: u64, value: u32) -> (r:
    Result<(), ProcessError>)
    requires
        old(machine).wf(),
    ensures
        final(machine).wf(),
        final(machine).same_place(old(machine)),
        (final(machine)@, r) == user_written(
            old(machine)@,
            space,
            address as int,
            bytes::le32_bytes(value),
        ),
{
    let mut bytes: Vec<u8> = Vec::new();
    push_le32(&mut bytes, value);
    assert(bytes@ =~= bytes::le32_bytes(value));
    write_user_bytes_in(machine, space, address, bytes.as_slice())
}

pub fn write_user_u64_in(machine: &mut Machine, space: AddressSpace, address: u64, value: u64) -> (r:
    Result<(), ProcessError>)
    requires
        old(machine).wf(),
    ensures
        final(machine).wf(),
        final(machine).same_place(old(machine)),
        (final(machine)@, r) == user_written(
            old(machine)@,
            space,
            address as int,
            bytes::le64_bytes(value),
        ),
{
    let mut bytes: Vec<u8> = Vec::new();
    push_le64(&mut bytes, value);
    assert(bytes@ =~= bytes::le64_bytes(value));
    write_user_bytes_in(machine, space, address, bytes.as_slice())
}

pub fn read_user_byte_in(machine: &Machine, space: AddressSpace, address: u64) -> (r: Result<
    u8,
    ProcessError,
>)
    ensures
        r == (match user_place(machine@, space, address) {
            Some(p) => Ok::<u8, ProcessError>(machine@.ram[p]),
            None => Err(ProcessError::InvalidUserAddress),
        }),
{
    match find_place(machine, space, address) {
        None => Err(ProcessError::InvalidUserAddress),
        Some(p) => Ok(machine.ram[p]),
    }
}

/// The bytes at a user address, `count` of them.
pub fn read_user_bytes_in(machine: &Machine, space: AddressSpace, address: u64, count: usize) -> (r:
    Result<Vec<u8>, ProcessError>)
    ensures
        match r {
            Ok(bytes) => user_read(machine@, space, address as int, count as nat) == Some(bytes@)
                && bytes.len() == count,
            Err(e) => user_read(machine@, space, address as int, count as nat) is None && e
                == ProcessError::InvalidUserAddress,
        },
{
    let mut bytes: Vec<u8> = Vec::new();
    let mut i: usize = 0;
    while i < count
        invariant
            i <= count,
            bytes.len() == i,
            user_read(machine@, space, address as int, i as nat) == Some(bytes@),
        decreases count - i,
    {
        if i as u64 > u64::MAX - address {
            proof {
                lemma_unread(machine@, space, address as int, (i + 1) as nat, count as nat);
            }
            return Err(ProcessError::InvalidUserAddress);
        }
        match read_user_byte_in(machine, space, address + i as u64) {
            Err(e) => {
                proof {
                    lemma_unread(machine@, space, address as int, (i + 1) as nat, count as nat);
                }
                return Err(e);
            },
            Ok(b) => bytes.push(b),
        }
        i += 1;
    }
    Ok(bytes)
}

proof fn lemma_unread(m: MachineView, space: AddressSpace, address: int, n: nat, more: nat)
    requires
        user_read(m, space, address, n) is None,
        n <= more,
    ensures
        user_read(m, space, address, more) is None,
    decreases more,
{
    if n < more {
        lemma_unread(m, space, address, n, (more - 1) as nat);
    }
}

pub fn read_user_u32_in(machine: &Machine, space: AddressSpace, address: u64) -> (r: Result<
    u32,
    ProcessError,
>)
    ensures
        r == (match user_read(machine@, space, address as int, 4) {
            Some(bytes) => Ok::<u32, ProcessError>(bytes::le32_at(bytes, 0) as u32),
            None => Err(ProcessError::InvalidUserAddress),
        }),
{
    match read_user_bytes_in(machine, space, address, 4) {
        Err(e) => Err(e),
        Ok(bytes) => Ok(get_le32(bytes.as_slice(), 0)),
    }
}

// ---------------------------------------------------------------------------
// The pages of a program
// ---------------------------------------------------------------------------
pub open spec fn is_load(h: ProgramHeader) -> bool {
    h.kind == elf::PT_LOAD
}

pub open spec fn can_run(h: ProgramHeader) -> bool {
    h.flags % 2 == 1
}

pub open spec fn can_write(h: ProgramHeader) -> bool {
    h.flags / 2 % 2 == 1
}

/// Where a segment starts in an image loaded at `base`.
pub open spec fn segment_start(h: ProgramHeader, base: u64) -> u64 {
    base.wrapping_add(h.virtual_address)
}

/// What is wrong with a segment of an image of `length` bytes, if anything.
pub open spec fn segment_fault(h: ProgramHeader, length: int, base: u64) -> Option<ProcessError> {
    let start = segment_start(h, base);
    if h.memory_size < h.file_size || h.offset + h.file_size > length || start + h.memory_size
        > u64::MAX {
        Some(ProcessError::InvalidLoadSegment)
    } else if h.memory_size == 0 || start < 4096 || start + h.memory_size > USER_ADDRESS_LIMIT || (
    start < USER_STACK_TOP && start + h.memory_size > USER_STACK_START) {
        Some(ProcessError::InvalidUserAddress)
    } else {
        None
    }
}

/// The flags of the pages of a segment.
pub open spec fn segment_flags(h: ProgramHeader) -> u64 {
    (4 + (if can_write(h) {
        2int
    } else {
        0
    }) + (if can_run(h) {
        0
    } else {
        0x8000_0000_0000_0000int
    })) as u64
}

/// The place of a page in a plan, from number `i` on; the length if it has none.
pub open spec fn plan_index(plans: Seq<PagePlan>, page: u64, i: int) -> int
    decreases plans.len() - i,
{
    if i < 0 || i >= plans.len() {
        plans.len() as int
    } else if plans[i].virtual_address == page {
        i
    } else {
        plan_index(plans, page, i + 1)
    }
}

/// One page of a segment planned. A page that segments share has the flags of
/// all, and can be run if one of them can.
pub open spec fn page_planned(plans: Seq<PagePlan>, page: u64, flags: u64, executable: bool) -> Seq<
    PagePlan,
> {
    let i = plan_index(plans, page, 0);
    if i < plans.len() {
        let old_plan = plans[i];
        let runs = old_plan.executable || executable;
        let all = old_plan.flags | flags;
        plans.update(
            i,
            PagePlan {
                virtual_address: page,
                flags: if runs {
                    all & !0x8000_0000_0000_0000u64
                } else {
                    all | 0x8000_0000_0000_0000u64
                },
                executable: runs,
            },
        )
    } else {
        plans.push(PagePlan { virtual_address: page, flags, executable })
    }
}

/// The pages from `page` to `end` planned.
pub open spec fn pages_planned(
    plans: Seq<PagePlan>,
    page: int,
    end: int,
    flags: u64,
    executable: bool,
) -> Seq<PagePlan>
    decreases end + 4096 - page,
{
    if page >= end {
        plans
    } else {
        pages_planned(
            page_planned(plans, page as u64, flags, executable),
            page + 4096,
            end,
            flags,
            executable,
        )
    }
}

/// The pages of one segment planned.
pub open spec fn segment_planned(plans: Seq<PagePlan>, h: ProgramHeader, base: u64) -> Seq<
    PagePlan,
> {
    let start = segment_start(h, base);
    pages_planned(
        plans,
        (start / 4096 * 4096) as int,
        (start + h.memory_size + 4095) / 4096 * 4096,
        segment_flags(h),
        can_run(h),
    )
}

/// Whether an address is in a segment that can be run.
pub open spec fn runs_in(h: ProgramHeader, base: u64, address: u64) -> bool {
    is_load(h) && can_run(h) && segment_start(h, base) <= address < segment_start(h, base)
        + h.memory_size
}

/// The pages of the segments of an image, from header number `i` on.
pub open spec fn segments_planned(
    headers: Seq<ProgramHeader>,
    length: int,
    base: u64,
    i: int,
    plans: Seq<PagePlan>,
) -> Result<Seq<PagePlan>, ProcessError>
    decreases headers.len() - i,
{
    if i < 0 || i >= headers.len() {
        Ok(plans)
    } else if !is_load(headers[i]) {
        segments_planned(headers, length, base, i + 1, plans)
    } else {
        match segment_fault(headers[i], length, base) {
            Some(e) => Err(e),
            None => segments_planned(
                headers,
                length,
                base,
                i + 1,
                segment_planned(plans, headers[i], base),
            ),
        }
    }
}

/// Whether an address is in one of the segments that can be run.
pub open spec fn runs_at(headers: Seq<ProgramHeader>, base: u64, address: u64) -> bool {
    exists|i: int| 0 <= i < headers.len() && runs_in(#[trigger] headers[i], base, address)
}

/// The pages that an image needs, loaded at `base`. Its entry must be in a
/// segment that can be run.
pub open spec fn planned(bytes: Seq<u8>, base: u64) -> Result<Seq<PagePlan>, ProcessError> {
    let headers = elf::headers(bytes);
    let entry = base.wrapping_add(crate::bytes::le64_at(bytes, 24) as u64);
    match segments_planned(headers, bytes.len() as int, base, 0, Seq::empty()) {
        Err(e) => Err(e),
        Ok(plans) => if runs_at(headers, base, entry) && plans.len() > 0 {
            Ok(plans)
        } else {
            Err(ProcessError::EntryNotExecutable)
        },
    }
}

fn validate_segment_with_base(image: ElfImage<'_>, header: ProgramHeader, base: u64) -> (r: Result<
    (),
    ProcessError,
>)
    ensures
        match r {
            Ok(_) => segment_fault(header, image.bytes@.len() as int, base) is None,
            Err(e) => segment_fault(header, image.bytes@.len() as int, base) == Some(e),
        },
{
    if header.memory_size < header.file_size || image.file_bytes(header).is_none() {
        return Err(ProcessError::InvalidLoadSegment);
    }
    let start: u64 = base.wrapping_add(header.virtual_address);
    if header.memory_size > u64::MAX - start {
        return Err(ProcessError::InvalidLoadSegment);
    }
    let end: u64 = start + header.memory_size;
    if header.memory_size == 0 || start < PAGE_SIZE || end > USER_ADDRESS_LIMIT || (start
        < USER_STACK_TOP && end > USER_STACK_START) {
        return Err(ProcessError::InvalidUserAddress);
    }
    Ok(())
}

fn find_plan(plans: &Vec<PagePlan>, page: u64) -> (r: usize)
    ensures
        r == plan_index(plans@, page, 0),
        r <= plans.len(),
        r < plans.len() ==> plans@[r as int].virtual_address == page,
{
    let mut i: usize = 0;
    while i < plans.len()
        invariant
            i <= plans.len(),
            plan_index(plans@, page, 0) == plan_index(plans@, page, i as int),
        decreases plans.len() - i,
    {
        if plans[i].virtual_address == page {
            return i;
        }
        i += 1;
    }
    i
}

fn plan_page(plans: &mut Vec<PagePlan>, page: u64, flags: u64, executable: bool)
    ensures
        final(plans)@ == page_planned(old(plans)@, page, flags, executable),
        final(plans).len() >= 1,
{
    let i: usize = find_plan(plans, page);
    if i < plans.len() {
        let old_plan = plans[i];
        let runs: bool = old_plan.executable || executable;
        let all: u64 = old_plan.flags | flags;
        let flags: u64 = if runs {
            all & !0x8000_0000_0000_0000u64
        } else {
            all | 0x8000_0000_0000_0000u64
        };
        plans[i] = PagePlan { virtual_address: page, flags, executable: runs };
    } else {
        plans.push(PagePlan { virtual_address: page, flags, executable });
    }
}

fn segment_runs(header: ProgramHeader, base: u64, entry: u64) -> (r: bool)
    requires
        is_load(header),
        segment_start(header, base) + header.memory_size <= u64::MAX,
    ensures
        r == runs_in(header, base, entry),
{
    let start: u64 = base.wrapping_add(header.virtual_address);
    header.flags % 2 == 1 && entry >= start && entry < start + header.memory_size
}

fn plan_segment(plans: &mut Vec<PagePlan>, header: ProgramHeader, base: u64)
    requires
        segment_start(header, base) + header.memory_size <= USER_ADDRESS_LIMIT,
    ensures
        final(plans)@ == segment_planned(old(plans)@, header, base),
{
    let start: u64 = base.wrapping_add(header.virtual_address);
    let executable: bool = header.flags % 2 == 1;
    let flags: u64 = 4 + (if header.flags / 2 % 2 == 1 {
        2u64
    } else {
        0u64
    }) + (if executable {
        0u64
    } else {
        0x8000_0000_0000_0000u64
    });
    let end: u64 = (start + header.memory_size + 4095) / PAGE_SIZE * PAGE_SIZE;
    let ghost goal = segment_planned(plans@, header, base);
    let mut page: u64 = start / PAGE_SIZE * PAGE_SIZE;
    while page < end
        invariant
            end <= 0x0000_8000_0000_0000,
            page <= 0x0000_8000_0000_1000,
            goal == pages_planned(plans@, page as int, end as int, flags, executable),
        decreases end + 4096 - page,
    {
        plan_page(plans, page, flags, executable);
        page += PAGE_SIZE;
    }
}

/// The pages that an image needs, loaded at `base_address`.
pub fn plan_pages_with_base(image: ElfImage<'_>, base_address: u64) -> (r: Result<
    Vec<PagePlan>,
    ProcessError,
>)
    requires
        image.wf(),
    ensures
        match r {
            Ok(plans) => planned(image.bytes@, base_address) == Ok::<Seq<PagePlan>, ProcessError>(
                plans@,
            ),
            Err(e) => planned(image.bytes@, base_address) == Err::<Seq<PagePlan>, ProcessError>(e),
        },
        r is Ok ==> forall|i: int|
            0 <= i < image.headers().len() && is_load(#[trigger] image.headers()[i])
                ==> segment_fault(
                image.headers()[i],
                image.bytes@.len() as int,
                base_address,
            ) is None,
{
    let headers = image.program_headers();
    let mut plans: Vec<PagePlan> = Vec::new();
    let mut runs: bool = false;
    let entry: u64 = base_address.wrapping_add(image.entry);
    let ghost length = image.bytes@.len() as int;
    let ghost goal = segments_planned(headers@, length, base_address, 0, Seq::empty());
    assert(plans@ =~= Seq::<PagePlan>::empty());
    let mut i: usize = 0;
    while i < headers.len()
        invariant
            i <= headers.len(),
            image.wf(),
            headers@ == image.headers(),
            length == image.bytes@.len(),
            entry == base_address.wrapping_add(image.entry),
            goal == segments_planned(headers@, length, base_address, 0, Seq::empty()),
            goal == segments_planned(headers@, length, base_address, i as int, plans@),
            runs == (exists|k: int| 0 <= k < i && runs_in(#[trigger] headers@[k], base_address, entry)),
            forall|k: int|
                0 <= k < i && is_load(#[trigger] headers@[k]) ==> segment_fault(
                    headers@[k],
                    length,
                    base_address,
                ) is None,
        decreases headers.len() - i,
    {
        let header = headers[i];
        if header.kind == elf::PT_LOAD {
            match validate_segment_with_base(image, header, base_address) {
                Err(e) => {
                    return Err(e);
                },
                Ok(_) => {},
            }
            if segment_runs(header, base_address, entry) {
                runs = true;
            }
            plan_segment(&mut plans, header, base_address);
        }
        i += 1;
    }
    if !runs || plans.len() == 0 {
        return Err(ProcessError::EntryNotExecutable);
    }
    Ok(plans)
}

/// The pages that an image needs, loaded where it says.
pub fn plan_pages(image: ElfImage<'_>) -> (r: Result<Vec<PagePlan>, ProcessError>)
    requires
        image.wf(),
    ensures
        match r {
            Ok(plans) => planned(image.bytes@, 0) == Ok::<Seq<PagePlan>, ProcessError>(plans@),
            Err(e) => planned(image.bytes@, 0) == Err::<Seq<PagePlan>, ProcessError>(e),
        },
{
    plan_pages_with_base(image, 0)
}

/// Whether a segment asks for an address below the default base.
pub open spec fn zero_based(headers: Seq<ProgramHeader>) -> bool {
    exists|i: int|
        0 <= i < headers.len() && is_load(#[trigger] headers[i]) && headers[i].virtual_address
            < DEFAULT_PIE_BASE
}

fn is_zero_base(image: ElfImage<'_>) -> (r: bool)
    requires
        image.wf(),
    ensures
        r == zero_based(image.headers()),
{
    let headers = image.program_headers();
    let mut i: usize = 0;
    while i < headers.len()
        invariant
            i <= headers.len(),
            headers@ == image.headers(),
            forall|k: int|
                0 <= k < i && is_load(#[trigger] headers@[k]) ==> headers@[k].virtual_address
                    >= DEFAULT_PIE_BASE,
        decreases headers.len() - i,
    {
        let header = headers[i];
        if header.kind == elf::PT_LOAD && header.virtual_address < DEFAULT_PIE_BASE {
            assert(is_load(headers@[i as int]));
            return true;
        }
        i += 1;
    }
    false
}

/// Where an image is loaded: where it says, but not at the bottom if it can go
/// anywhere.
pub open spec fn load_base(bytes: Seq<u8>) -> u64 {
    if crate::bytes::le16_at(bytes, 16) == 3 && zero_based(elf::headers(bytes)) {
        DEFAULT_PIE_BASE
    } else {
        0
    }
}

/// The end of the highest segment among the first `n` headers.
pub open spec fn highest_end(headers: Seq<ProgramHeader>, base: u64, n: int) -> int
    decreases n,
{
    if n <= 0 {
        0
    } else {
        let before = highest_end(headers, base, n - 1);
        let h = headers[n - 1];
        let end = segment_start(h, base) + h.memory_size;
        if is_load(h) && end > before {
            end
        } else {
            before
        }
    }
}

fn find_highest_end(image: ElfImage<'_>, base: u64) -> (r: u64)
    requires
        image.wf(),
        forall|i: int|
            0 <= i < image.headers().len() && is_load(#[trigger] image.headers()[i])
                ==> segment_fault(image.headers()[i], image.bytes@.len() as int, base) is None,
    ensures
        r == highest_end(image.headers(), base, image.headers().len() as int),
        r <= USER_ADDRESS_LIMIT,
{
    let headers = image.program_headers();
    let mut highest: u64 = 0;
    let mut i: usize = 0;
    while i < headers.len()
        invariant
            i <= headers.len(),
            headers@ == image.headers(),
            highest == highest_end(headers@, base, i as int),
            highest <= USER_ADDRESS_LIMIT,
            forall|i: int|
                0 <= i < image.headers().len() && is_load(#[trigger] image.headers()[i])
                    ==> segment_fault(image.headers()[i], image.bytes@.len() as int, base) is None,
        decreases headers.len() - i,
    {
        let header = headers[i];
        if header.kind == elf::PT_LOAD {
            assert(is_load(image.headers()[i as int]));
            let end: u64 = base.wrapping_add(header.virtual_address) + header.memory_size;
            if end > highest {
                highest = end;
            }
        }
        i += 1;
    }
    highest
}

/// The paths under which the file of an interpreter is looked for, in order.
pub open spec fn interpreter_paths(path: Seq<u8>) -> Seq<Seq<u8>> {
    let rooted = path.len() > 0 && path[0] == 47;
    let stripped = if rooted {
        seq![path, path.skip(1)]
    } else {
        seq![path]
    };
    stripped.push(
        if rooted {
            compat_root() + path
        } else {
            compat_root()
        },
    )
}

/// `/compat/linux`.
pub open spec fn compat_root() -> Seq<u8> {
    seq![47u8, 99u8, 111u8, 109u8, 112u8, 97u8, 116u8, 47u8, 108u8, 105u8, 110u8, 117u8, 120u8]
}

/// The paths under which the file of an interpreter is looked for, in order.
pub fn interpreter_candidates(path: &[u8]) -> (r: Vec<Vec<u8>>)
    ensures
        r@.map_values(|v: Vec<u8>| v@) == interpreter_paths(path@),
{
    let rooted: bool = path.len() > 0 && path[0] == 47;
    let mut all: Vec<Vec<u8>> = Vec::new();
    let whole = crate::bytes::copy_range(path, 0, path.len());
    assert(whole@ =~= path@);
    all.push(whole);
    let root: [u8; 13] = [47, 99, 111, 109, 112, 97, 116, 47, 108, 105, 110, 117, 120];
    let mut compat: Vec<u8> = Vec::new();
    crate::bytes::push_all(&mut compat, root.as_slice());
    assert(compat@ =~= compat_root());
    if rooted {
        let rest = crate::bytes::copy_range(path, 1, path.len());
        assert(rest@ =~= path@.skip(1));
        all.push(rest);
        crate::bytes::push_all(&mut compat, path);
    }
    all.push(compat);
    assert(all@.map_values(|v: Vec<u8>| v@) =~= interpreter_paths(path@));
    all
}

// ---------------------------------------------------------------------------
// Processes
// ---------------------------------------------------------------------------
#[derive(Debug)]
pub struct Process {
    pub space: AddressSpace,
    pub entry: u64,
    pub personality: ProcessPersonality,
    pub fs_base: u64,
    pub user_stack_top: u64,
    pub brk_start: u64,
    pub brk_current: u64,
    pub mmap_next: u64,
    pub mappings: Vec<MappedPage>,
    pub destroyed: bool,
}

#[verifier::ext_equal]
pub struct ProcessView {
    pub space: AddressSpace,
    pub entry: u64,
    pub personality: ProcessPersonality,
    pub fs_base: u64,
    pub user_stack_top: u64,
    pub brk_start: u64,
    pub brk_current: u64,
    pub mmap_next: u64,
    pub mappings: Seq<MappedPage>,
    pub destroyed: bool,
}

/// The flags of a page for data.
pub open spec fn data_flags() -> u64 {
    0x8000_0000_0000_0006
}

/// The flags of a page with the given protection: 2 to write, 4 to run.
pub open spec fn protection_flags(prot: u64) -> u64 {
    (4 + (if prot / 2 % 2 == 1 {
        2int
    } else {
        0
    }) + (if prot / 4 % 2 == 1 {
        0
    } else {
        0x8000_0000_0000_0000int
    })) as u64
}

pub enum FreshFault {
    NoFrame,
    Mapping(MapError),
}

/// A new page of zeros mapped at an address. With `strict`, a frame outside
/// the direct map is given back; otherwise it is used as it is.
#[verifier::opaque]
pub open spec fn page_added(
    m: MachineView,
    space: AddressSpace,
    page: u64,
    flags: u64,
    strict: bool,
) -> (MachineView, Result<u64, FreshFault>) {
    match m.frame_taken() {
        None => (m, Err(FreshFault::NoFrame)),
        Some((m1, phys)) => if strict && m1.virt(phys) is None {
            (m1.frame_released(phys), Err(FreshFault::Mapping(MapError::NoHhdm)))
        } else {
            let m2 = if m1.virt(phys) is Some {
                m1.page_zeroed(phys)
            } else {
                m1
            };
            match m2.mapped(space, page, phys, flags) {
                (m3, Ok(_)) => (m3, Ok(phys)),
                (m3, Err(e)) => (m3.frame_released(phys), Err(FreshFault::Mapping(e))),
            }
        },
    }
}

fn add_page(machine: &mut Machine, space: AddressSpace, page: u64, flags: u64, strict: bool) -> (r:
    Result<u64, FreshFault>)
    requires
        old(machine).wf(),
    ensures
        final(machine).wf(),
        final(machine).same_place(old(machine)),
        (final(machine)@, r) == page_added(old(machine)@, space, page, flags, strict),
{
    proof {
        reveal(page_added);
    }
    let phys: u64 = match paging::take_frame(machine) {
        None => {
            return Err(FreshFault::NoFrame);
        },
        Some(p) => p,
    };
    let seen: bool = paging::phys_to_virt(machine, phys).is_some();
    if strict && !seen {
        let _ = paging::release_table(machine, phys);
        return Err(FreshFault::Mapping(MapError::NoHhdm));
    }
    if seen {
        paging::zero_page(machine, phys);
    }
    match paging::map(machine, space, page, phys, flags) {
        Ok(_) => Ok(phys),
        Err(e) => {
            let _ = paging::release_table(machine, phys);
            Err(FreshFault::Mapping(e))
        },
    }
}

/// The place of a page among mappings, from number `i` on; their number if it
/// has none.
pub open spec fn mapping_index(mappings: Seq<MappedPage>, page: u64, i: int) -> int
    decreases mappings.len() - i,
{
    if i < 0 || i >= mappings.len() {
        mappings.len() as int
    } else if mappings[i].virtual_address == page {
        i
    } else {
        mapping_index(mappings, page, i + 1)
    }
}

/// Mappings without the first of a page.
pub open spec fn without_page(mappings: Seq<MappedPage>, page: u64) -> Seq<MappedPage> {
    let i = mapping_index(mappings, page, 0);
    if i < mappings.len() {
        mappings.remove(i)
    } else {
        mappings
    }
}

fn find_mapping(mappings: &Vec<MappedPage>, page: u64) -> (r: usize)
    ensures
        r == mapping_index(mappings@, page, 0),
        r <= mappings.len(),
        r < mappings.len() ==> mappings@[r as int].virtual_address == page,
{
    let mut i: usize = 0;
    while i < mappings.len()
        invariant
            i <= mappings.len(),
            mapping_index(mappings@, page, 0) == mapping_index(mappings@, page, i as int),
        decreases mappings.len() - i,
    {
        if mappings[i].virtual_address == page {
            return i;
        }
        i += 1;
    }
    i
}

/// A page taken out of a process, with its frame.
#[verifier::opaque]
pub open spec fn page_dropped(
    m: MachineView,
    space: AddressSpace,
    page: u64,
    mappings: Seq<MappedPage>,
) -> (MachineView, Seq<MappedPage>) {
    match m.unmapped(space, page) {
        (m1, Ok(Some(phys))) => (m1.frame_released(phys), without_page(mappings, page)),
        _ => (m, mappings),
    }
}

/// The pages from `page` to `end` taken out of a process.
pub open spec fn pages_dropped(
    m: MachineView,
    space: AddressSpace,
    page: int,
    end: int,
    mappings: Seq<MappedPage>,
) -> (MachineView, Seq<MappedPage>)
    decreases end + 4096 - page,
{
    if page >= end {
        (m, mappings)
    } else {
        let (m1, rest) = page_dropped(m, space, page as u64, mappings);
        pages_dropped(m1, space, page + 4096, end, rest)
    }
}

fn drop_page(machine: &mut Machine, space: AddressSpace, page: u64, mappings: &mut Vec<MappedPage>)
    requires
        old(machine).wf(),
    ensures
        final(machine).wf(),
        final(machine).same_place(old(machine)),
        (final(machine)@, final(mappings)@) == page_dropped(
            old(machine)@,
            space,
            page,
            old(mappings)@,
        ),
{
    proof {
        reveal(page_dropped);
    }
    if let Ok(Some(phys)) = paging::unmap(machine, space, page) {
        let _ = paging::release_table(machine, phys);
        let i: usize = find_mapping(mappings, page);
        if i < mappings.len() {
            mappings.remove(i);
        }
    }
}

/// Data pages added from `page` to `end`; whether there was memory for all.
pub open spec fn grown(m: MachineView, p: ProcessView, page: int, end: int) -> (
    MachineView,
    ProcessView,
    bool,
)
    decreases end + 4096 - page,
{
    if page >= end {
        (m, p, true)
    } else {
        match page_added(m, p.space, page as u64, data_flags(), false) {
            (m1, Err(_)) => (m1, p, false),
            (m1, Ok(phys)) => grown(
                m1,
                ProcessView {
                    mappings: p.mappings.push(
                        MappedPage { virtual_address: page as u64, physical_address: phys },
                    ),
                    ..p
                },
                page + 4096,
                end,
            ),
        }
    }
}

/// The end of the data moved, if the new end is in bounds and there is memory.
pub open spec fn brk_moved(m: MachineView, p: ProcessView, new_brk: u64) -> (
    MachineView,
    ProcessView,
) {
    if new_brk == 0 || new_brk < p.brk_start || new_brk >= 0x7000_0000_0000 {
        (m, p)
    } else {
        match grown(
            m,
            p,
            crate::memory::align_up_of(p.brk_current) as int,
            crate::memory::align_up_of(new_brk) as int,
        ) {
            (m1, p1, true) => (m1, ProcessView { brk_current: new_brk, ..p1 }),
            (m1, p1, false) => (m1, p1),
        }
    }
}

/// Where a mapping of `length` bytes goes, and where the next one would.
pub open spec fn mmap_place(p: ProcessView, addr: u64, length: int, fixed: bool) -> Result<
    (u64, u64),
    (),
> {
    if fixed {
        if addr == 0 || addr % 4096 != 0 || addr + length >= USER_STACK_START {
            Err(())
        } else {
            Ok((addr, p.mmap_next))
        }
    } else if addr != 0 && addr % 4096 == 0 && addr + length > u64::MAX {
        Err(())
    } else if addr != 0 && addr % 4096 == 0 && addr + length < USER_STACK_START {
        Ok((addr, p.mmap_next))
    } else if p.mmap_next + length > u64::MAX {
        Err(())
    } else {
        Ok((p.mmap_next, (p.mmap_next + length) as u64))
    }
}

/// Pages of an unfinished mapping given up.
pub open spec fn pages_undone(m: MachineView, space: AddressSpace, pages: Seq<MappedPage>) -> MachineView
    decreases pages.len(),
{
    if pages.len() == 0 {
        m
    } else {
        let (m1, _) = m.unmapped(space, pages[0].virtual_address);
        pages_undone(m1.frame_released(pages[0].physical_address), space, pages.skip(1))
    }
}

/// The pages of a mapping, from `page` to `end`, after those in `done`. A
/// fixed mapping takes the place of what was there.
pub open spec fn mmap_pages(
    m: MachineView,
    p: ProcessView,
    page: int,
    end: int,
    flags: u64,
    fixed: bool,
    done: Seq<MappedPage>,
) -> (MachineView, ProcessView, bool)
    decreases end + 4096 - page,
{
    if page >= end {
        (m, ProcessView { mappings: p.mappings + done, ..p }, true)
    } else {
        match mmap_page(m, p, page as u64, flags, fixed, done) {
            (m1, p1, None) => (m1, p1, false),
            (m1, p1, Some(phys)) => mmap_pages(
                m1,
                p1,
                page + 4096,
                end,
                flags,
                fixed,
                done.push(MappedPage { virtual_address: page as u64, physical_address: phys }),
            ),
        }
    }
}

/// One page of a mapping: its frame, if there is one. Where the page cannot be
/// mapped, those in `done` are given up.
#[verifier::opaque]
pub open spec fn mmap_page(
    m: MachineView,
    p: ProcessView,
    page: u64,
    flags: u64,
    fixed: bool,
    done: Seq<MappedPage>,
) -> (MachineView, ProcessView, Option<u64>) {
    let (m1, kept) = if fixed {
        page_dropped(m, p.space, page, p.mappings)
    } else {
        (m, p.mappings)
    };
    let p1 = ProcessView { mappings: kept, ..p };
    match page_added(m1, p.space, page, flags, false) {
        (m2, Err(FreshFault::NoFrame)) => (m2, p1, None),
        (m2, Err(FreshFault::Mapping(_))) => (pages_undone(m2, p.space, done), p1, None),
        (m2, Ok(phys)) => (m2, p1, Some(phys)),
    }
}

/// A mapping of new memory.
pub open spec fn mmapped(
    m: MachineView,
    p: ProcessView,
    addr: u64,
    length: u64,
    prot: u64,
    flags: u64,
) -> (MachineView, ProcessView, Result<u64, ()>) {
    let fixed = flags / 16 % 2 == 1;
    let size = (length + 4095) / 4096 * 4096;
    if length == 0 || length + 4095 > u64::MAX {
        (m, p, Err(()))
    } else {
        match mmap_place(p, addr, size, fixed) {
            Err(_) => (m, p, Err(())),
            Ok((base, next)) => match mmap_pages(
                m,
                ProcessView { mmap_next: next, ..p },
                base as int,
                base + size,
                protection_flags(prot),
                fixed,
                Seq::empty(),
            ) {
                (m1, p1, true) => (m1, p1, Ok(base)),
                (m1, p1, false) => (m1, p1, Err(())),
            },
        }
    }
}

/// All pages of a process taken out, the last first, and its tables given up;
/// how many they were.
pub open spec fn torn_down(m: MachineView, p: ProcessView) -> (
    MachineView,
    ProcessView,
    Result<int, ProcessError>,
)
    decreases p.mappings.len(),
{
    if p.mappings.len() == 0 {
        match m.space_destroyed(p.space) {
            (m1, Err(e)) => (m1, p, Err(ProcessError::Mapping(e))),
            (m1, Ok(n)) => (m1, ProcessView { destroyed: true, ..p }, Ok(n)),
        }
    } else {
        let last = p.mappings.last();
        let p1 = ProcessView { mappings: p.mappings.drop_last(), ..p };
        match m.unmapped(p.space, last.virtual_address) {
            (m1, Err(e)) => (m1, p1, Err(ProcessError::Mapping(e))),
            (m1, Ok(None)) => (m1, p1, Err(ProcessError::Mapping(MapError::NoHhdm))),
            (m1, Ok(Some(phys))) => if phys != last.physical_address || !memory::is_used(
                m1.frames,
                PhysFrame(phys),
            ) {
                (m1, p1, Err(ProcessError::FrameReleaseFailed))
            } else {
                torn_down(m1.frame_released(phys), p1)
            },
        }
    }
}

pub open spec fn cleaned_up(m: MachineView, p: ProcessView) -> (
    MachineView,
    ProcessView,
    Result<int, ProcessError>,
) {
    if p.destroyed {
        (m, p, Ok(0))
    } else {
        torn_down(m, p)
    }
}

/// What a change of protection applies to: a number of pages, and their flags.
#[derive(Clone, Copy, Debug, PartialEq, Eq, Structural)]
pub struct Protection {
    pub address: u64,
    pub pages: u64,
    pub flags: u64,
}

impl View for Process {
    type V = ProcessView;

    open spec fn view(&self) -> ProcessView {
        ProcessView {
            space: self.space,
            entry: self.entry,
            personality: self.personality,
            fs_base: self.fs_base,
            user_stack_top: self.user_stack_top,
            brk_start: self.brk_start,
            brk_current: self.brk_current,
            mmap_next: self.mmap_next,
            mappings: self.mappings@,
            destroyed: self.destroyed,
        }
    }
}

impl Process {
    pub fn entry(&self) -> (r: u64)
        ensures
            r == self.entry,
    {
        self.entry
    }

    pub fn personality(&self) -> (r: ProcessPersonality)
        ensures
            r == self.personality,
    {
        self.personality
    }

    pub fn fs_base(&self) -> (r: u64)
        ensures
            r == self.fs_base,
    {
        self.fs_base
    }

    pub fn set_fs_base(&mut self, fs_base: u64)
        ensures
            final(self)@ == (ProcessView { fs_base, ..old(self)@ }),
    {
        self.fs_base = fs_base;
    }

    pub fn address_space(&self) -> (r: AddressSpace)
        ensures
            r == self.space,
    {
        self.space
    }

    pub fn user_stack_top(&self) -> (r: u64)
        ensures
            r == self.user_stack_top,
    {
        self.user_stack_top
    }

    /// The same process in another address space.
    pub fn clone_process(&self, new_space: AddressSpace) -> (r: Self)
        ensures
            r@ == (ProcessView { space: new_space, destroyed: false, ..self@ }),
    {
        let mut mappings: Vec<MappedPage> = Vec::new();
        let mut i: usize = 0;
        while i < self.mappings.len()
            invariant
                i <= self.mappings.len(),
                mappings@ == self.mappings@.take(i as int),
            decreases self.mappings.len() - i,
        {
            mappings.push(self.mappings[i]);
            i += 1;
            assert(mappings@ =~= self.mappings@.take(i as int));
        }
        assert(mappings@ =~= self.mappings@);
        Process {
            space: new_space,
            entry: self.entry,
            personality: self.personality,
            fs_base: self.fs_base,
            user_stack_top: self.user_stack_top,
            brk_start: self.brk_start,
            brk_current: self.brk_current,
            mmap_next: self.mmap_next,
            mappings,
            destroyed: false,
        }
    }

    /// Moves the end of the data; returns where it is then.
    pub fn brk(&mut self, machine: &mut Machine, new_brk: u64) -> (r: u64)
        requires
            old(machine).wf(),
        ensures
            final(machine).wf(),
            final(machine).same_place(old(machine)),
            (final(machine)@, final(self)@) == brk_moved(old(machine)@, old(self)@, new_brk),
            r == final(self).brk_current,
    {
        if new_brk == 0 || new_brk < self.brk_start || new_brk >= 0x7000_0000_0000 {
            return self.brk_current;
        }
        let mut page: u64 = crate::memory::align_up(self.brk_current);
        let end: u64 = crate::memory::align_up(new_brk);
        let ghost goal = grown(machine@, self@, page as int, end as int);
        while page < end
            invariant
                machine.wf(),
                machine.same_place(old(machine)),
                end <= 0x7000_0000_0000,
                goal == grown(machine@, self@, page as int, end as int),
                brk_moved(old(machine)@, old(self)@, new_brk) == (match goal {
                    (m1, p1, true) => (m1, ProcessView { brk_current: new_brk, ..p1 }),
                    (m1, p1, false) => (m1, p1),
                }),
            decreases end + 4096 - page,
        {
            match add_page(machine, self.space, page, 0x8000_0000_0000_0006, false) {
                Err(_) => {
                    return self.brk_current;
                },
                Ok(phys) => {
                    self.mappings.push(MappedPage { virtual_address: page, physical_address: phys });
                },
            }
            page += PAGE_SIZE;
        }
        self.brk_current = new_brk;
        self.brk_current
    }
}

fn choose_flags(prot: u64) -> (r: u64)
    ensures
        r == protection_flags(prot),
{
    4 + (if prot / 2 % 2 == 1 {
        2u64
    } else {
        0u64
    }) + (if prot / 4 % 2 == 1 {
        0u64
    } else {
        0x8000_0000_0000_0000u64
    })
}

fn undo_pages(machine: &mut Machine, space: AddressSpace, pages: &Vec<MappedPage>)
    requires
        old(machine).wf(),
    ensures
        final(machine).wf(),
        final(machine).same_place(old(machine)),
        final(machine)@ == pages_undone(old(machine)@, space, pages@),
{
    let mut i: usize = 0;
    assert(pages@.skip(0) =~= pages@);
    while i < pages.len()
        invariant
            i <= pages.len(),
            machine.wf(),
            machine.same_place(old(machine)),
            pages_undone(machine@, space, pages@.skip(i as int)) == pages_undone(
                old(machine)@,
                space,
                pages@,
            ),
        decreases pages.len() - i,
    {
        let page = pages[i];
        proof {
            assert(pages@.skip(i as int)[0] == page);
            assert(pages@.skip(i as int).skip(1) =~= pages@.skip(i + 1));
        }
        let _ = paging::unmap(machine, space, page.virtual_address);
        let _ = paging::release_table(machine, page.physical_address);
        i += 1;
    }
}

impl Process {
    fn place_mapping(&mut self, addr: u64, size: u64, fixed: bool) -> (r: Result<u64, ()>)
        ensures
            match mmap_place(old(self)@, addr, size as int, fixed) {
                Err(_) => r is Err && *final(self) == *old(self),
                Ok((base, next)) => r == Ok::<u64, ()>(base) && final(self)@ == (ProcessView {
                    mmap_next: next,
                    ..old(self)@
                }) && base + size <= u64::MAX,
            },
    {
        if fixed {
            if addr == 0 || addr % PAGE_SIZE != 0 || size > u64::MAX - addr || addr + size
                >= USER_STACK_START {
                return Err(());
            }
            return Ok(addr);
        }
        if addr != 0 && addr % PAGE_SIZE == 0 {
            if size > u64::MAX - addr {
                return Err(());
            }
            if addr + size < USER_STACK_START {
                return Ok(addr);
            }
        }
        if size > u64::MAX - self.mmap_next {
            return Err(());
        }
        let base: u64 = self.mmap_next;
        self.mmap_next = base + size;
        Ok(base)
    }

    /// Maps new memory.
    pub fn mmap_anonymous(
        &mut self,
        machine: &mut Machine,
        addr: u64,
        length: u64,
        prot: u64,
        flags: u64,
    ) -> (r: Result<u64, ()>)
        requires
            old(machine).wf(),
        ensures
            final(machine).wf(),
            final(machine).same_place(old(machine)),
            (final(machine)@, final(self)@, r) == mmapped(
                old(machine)@,
                old(self)@,
                addr,
                length,
                prot,
                flags,
            ),
    {
        if length == 0 || length > u64::MAX - (PAGE_SIZE - 1) {
            return Err(());
        }
        let size: u64 = (length + (PAGE_SIZE - 1)) / PAGE_SIZE * PAGE_SIZE;
        let fixed: bool = flags / 16 % 2 == 1;
        let base: u64 = match self.place_mapping(addr, size, fixed) {
            Err(_) => {
                return Err(());
            },
            Ok(base) => base,
        };
        let pte_flags: u64 = choose_flags(prot);
        if self.map_pages(machine, base, size, pte_flags, fixed) {
            Ok(base)
        } else {
            Err(())
        }
    }

    fn map_page(
        &mut self,
        machine: &mut Machine,
        page: u64,
        flags: u64,
        fixed: bool,
        done: &Vec<MappedPage>,
    ) -> (r: Option<u64>)
        requires
            old(machine).wf(),
        ensures
            final(machine).wf(),
            final(machine).same_place(old(machine)),
            (final(machine)@, final(self)@, r) == mmap_page(
                old(machine)@,
                old(self)@,
                page,
                flags,
                fixed,
                done@,
            ),
    {
        proof {
            reveal(mmap_page);
        }
        if fixed {
            drop_page(machine, self.space, page, &mut self.mappings);
        }
        match add_page(machine, self.space, page, flags, false) {
            Err(FreshFault::NoFrame) => None,
            Err(FreshFault::Mapping(_)) => {
                undo_pages(machine, self.space, done);
                None
            },
            Ok(phys) => Some(phys),
        }
    }

    fn map_pages(
        &mut self,
        machine: &mut Machine,
        base: u64,
        size: u64,
        flags: u64,
        fixed: bool,
    ) -> (r: bool)
        requires
            old(machine).wf(),
            base + size <= u64::MAX,
            size % 4096 == 0,
        ensures
            final(machine).wf(),
            final(machine).same_place(old(machine)),
            (final(machine)@, final(self)@, r) == mmap_pages(
                old(machine)@,
                old(self)@,
                base as int,
                base + size,
                flags,
                fixed,
                Seq::empty(),
            ),
    {
        let mut done: Vec<MappedPage> = Vec::new();
        let ghost goal = mmap_pages(
            machine@,
            self@,
            base as int,
            base + size,
            flags,
            fixed,
            Seq::empty(),
        );
        assert(done@ =~= Seq::<MappedPage>::empty());
        let mut offset: u64 = 0;
        while offset < size
            invariant
                machine.wf(),
                machine.same_place(old(machine)),
                base + size <= u64::MAX,
                size % 4096 == 0,
                offset % 4096 == 0,
                offset <= size,
                goal == mmap_pages(
                    old(machine)@,
                    old(self)@,
                    base as int,
                    base + size,
                    flags,
                    fixed,
                    Seq::empty(),
                ),
                goal == mmap_pages(
                    machine@,
                    self@,
                    base + offset,
                    base + size,
                    flags,
                    fixed,
                    done@,
                ),
            decreases size - offset,
        {
            let page: u64 = base + offset;
            match self.map_page(machine, page, flags, fixed, &done) {
                None => {
                    return false;
                },
                Some(phys) => {
                    done.push(MappedPage { virtual_address: page, physical_address: phys });
                },
            }
            offset += PAGE_SIZE;
        }
        let ghost mine = self.mappings@;
        let ghost all = done@;
        self.mappings.append(&mut done);
        assert(self.mappings@ =~= mine + all);
        true
    }

    /// What a change of protection is to be applied to.
    pub fn mprotect(&self, addr: u64, length: u64, prot: u64) -> (r: Result<Protection, ()>)
        ensures
            ({
                let size = (length + 4095) / 4096 * 4096;
                if addr % 4096 != 0 || length == 0 || length + 4095 > u64::MAX || addr + size
                    >= USER_ADDRESS_LIMIT {
                    r is Err
                } else {
                    r == Ok::<Protection, ()>(
                        Protection {
                            address: addr,
                            pages: (size / 4096) as u64,
                            flags: protection_flags(prot),
                        },
                    )
                }
            }),
    {
        if addr % PAGE_SIZE != 0 || length == 0 || length > u64::MAX - (PAGE_SIZE - 1) {
            return Err(());
        }
        let size: u64 = (length + (PAGE_SIZE - 1)) / PAGE_SIZE * PAGE_SIZE;
        if size > u64::MAX - addr || addr + size >= USER_ADDRESS_LIMIT {
            return Err(());
        }
        Ok(Protection { address: addr, pages: size / PAGE_SIZE, flags: choose_flags(prot) })
    }

    /// Gives up memory.
    pub fn munmap(&mut self, machine: &mut Machine, addr: u64, length: u64) -> (r: Result<(), ()>)
        requires
            old(machine).wf(),
            addr % 4096 == 0 && length > 0 && length + 4095 <= u64::MAX ==> addr + (length + 4095)
                / 4096 * 4096 <= u64::MAX,
        ensures
            final(machine).wf(),
            final(machine).same_place(old(machine)),
            r is Ok <==> addr % 4096 == 0 && length > 0 && length + 4095 <= u64::MAX,
            r is Err ==> final(machine)@ == old(machine)@ && final(self)@ == old(self)@,
            r is Ok ==> {
                let (m, kept) = pages_dropped(
                    old(machine)@,
                    old(self).space,
                    addr as int,
                    addr + (length + 4095) / 4096 * 4096,
                    old(self).mappings@,
                );
                final(machine)@ == m && final(self)@ == (ProcessView {
                    mappings: kept,
                    ..old(self)@
                })
            },
    {
        if addr % PAGE_SIZE != 0 || length == 0 || length > u64::MAX - (PAGE_SIZE - 1) {
            return Err(());
        }
        let size: u64 = (length + (PAGE_SIZE - 1)) / PAGE_SIZE * PAGE_SIZE;
        let end: u64 = addr + size;
        let ghost goal = pages_dropped(
            machine@,
            self.space,
            addr as int,
            end as int,
            self.mappings@,
        );
        let mut page: u64 = addr;
        while page < end
            invariant
                machine.wf(),
                machine.same_place(old(machine)),
                page % 4096 == 0,
                end % 4096 == 0,
                page <= end,
                self@ == (ProcessView { mappings: self.mappings@, ..old(self)@ }),
                goal == pages_dropped(
                    machine@,
                    self.space,
                    page as int,
                    end as int,
                    self.mappings@,
                ),
            decreases end - page,
        {
            drop_page(machine, self.space, page, &mut self.mappings);
            page += PAGE_SIZE;
        }
        Ok(())
    }

    pub fn read_user_byte(&self, machine: &Machine, virtual_address: u64) -> (r: Option<u8>)
        ensures
            r == (match user_place(machine@, self.space, virtual_address) {
                Some(p) => Some(machine@.ram[p]),
                None => None,
            }),
    {
        match read_user_byte_in(machine, self.space, virtual_address) {
            Ok(b) => Some(b),
            Err(_) => None,
        }
    }

    /// Takes all pages out of the process, then gives up its page tables;
    /// returns how many those were.
    pub fn destroy(&mut self, machine: &mut Machine) -> (r: Result<usize, ProcessError>)
        requires
            old(machine).wf(),
        ensures
            final(machine).wf(),
            final(machine).same_place(old(machine)),
            ({
                let (m, p, n) = cleaned_up(old(machine)@, old(self)@);
                &&& final(machine)@ == m
                &&& final(self)@ == p
                &&& match r {
                    Ok(count) => n == Ok::<int, ProcessError>(count as int),
                    Err(e) => n == Err::<int, ProcessError>(e),
                }
            }),
    {
        if self.destroyed {
            return Ok(0);
        }
        let ghost goal = torn_down(machine@, self@);
        while self.mappings.len() > 0
            invariant
                machine.wf(),
                machine.same_place(old(machine)),
                goal == torn_down(machine@, self@),
                goal == cleaned_up(old(machine)@, old(self)@),
            decreases self.mappings.len(),
        {
            let ghost before = self@;
            let ghost m = machine@;
            let last = self.mappings[self.mappings.len() - 1];
            let _ = self.mappings.pop();
            proof {
                assert(self.mappings@ =~= before.mappings.drop_last());
                assert(self@ =~= (ProcessView { mappings: before.mappings.drop_last(), ..before }));
            }
            match paging::unmap(machine, self.space, last.virtual_address) {
                Err(e) => {
                    return Err(ProcessError::Mapping(e));
                },
                Ok(None) => {
                    return Err(ProcessError::Mapping(MapError::NoHhdm));
                },
                Ok(Some(phys)) => {
                    if phys != last.physical_address {
                        return Err(ProcessError::FrameReleaseFailed);
                    }
                    if !paging::release_table(machine, phys) {
                        return Err(ProcessError::FrameReleaseFailed);
                    }
                },
            }
        }
        match paging::destroy_address_space(machine, self.space) {
            Err(e) => Err(ProcessError::Mapping(e)),
            Ok(n) => {
                self.destroyed = true;
                Ok(n)
            },
        }
    }
}

// ---------------------------------------------------------------------------
// The stack of a new process
// ---------------------------------------------------------------------------
/// Texts placed one below the other, each with a zero byte after it; where the
/// last one starts, and where each does.
pub open spec fn texts_placed(
    m: MachineView,
    space: AddressSpace,
    texts: Seq<Seq<u8>>,
    sp: u64,
    pointers: Seq<u64>,
) -> (MachineView, Result<(u64, Seq<u64>), ProcessError>)
    decreases texts.len(),
{
    if texts.len() == 0 {
        (m, Ok((sp, pointers)))
    } else if texts[0].len() + 1 > sp {
        (m, Err(ProcessError::InvalidUserAddress))
    } else {
        let at = (sp - texts[0].len() - 1) as u64;
        match user_written(m, space, at as int, texts[0].push(0)) {
            (m1, Err(e)) => (m1, Err(e)),
            (m1, Ok(_)) => texts_placed(m1, space, texts.skip(1), at, pointers.push(at)),
        }
    }
}

/// Words pushed one below the other; where the last one is.
pub open spec fn words_pushed(m: MachineView, space: AddressSpace, words: Seq<u64>, sp: u64) -> (
    MachineView,
    Result<u64, ProcessError>,
)
    decreases words.len(),
{
    if words.len() == 0 {
        (m, Ok(sp))
    } else if sp < 8 {
        (m, Err(ProcessError::InvalidUserAddress))
    } else {
        match user_written(m, space, sp - 8, bytes::le64_bytes(words[0])) {
            (m1, Err(e)) => (m1, Err(e)),
            (m1, Ok(_)) => words_pushed(m1, space, words.skip(1), (sp - 8) as u64),
        }
    }
}

/// What a new process is told of itself: its program headers, the base of its
/// interpreter, its entry, and where its random bytes are.
pub struct StartInfo {
    pub phdr: u64,
    pub phent: u64,
    pub phnum: u64,
    pub base: u64,
    pub entry: u64,
}

/// The auxiliary vector in the order in which it is pushed: value, then key.
pub open spec fn auxiliary_words(info: StartInfo, random: u64) -> Seq<u64> {
    seq![
        0u64, 0u64, random, 25u64, 0u64, 23u64, 100u64, 17u64, 0u64, 14u64, 0u64, 13u64, 0u64,
        12u64, 0u64, 11u64, info.entry, 9u64, 0u64, 8u64, info.base, 7u64, 4096u64, 6u64, info.phnum,
        5u64, info.phent, 4u64, info.phdr, 3u64,
    ]
}

/// All words of a new stack in the order in which they are pushed: the
/// auxiliary vector, the environment and the arguments, each from its end, and
/// the number of arguments.
pub open spec fn start_words(info: StartInfo, random: u64, args: Seq<u64>, env: Seq<u64>) -> Seq<u64> {
    auxiliary_words(info, random) + seq![0u64] + env.reverse() + seq![0u64] + args.reverse() + seq![
        args.len() as u64,
    ]
}

pub open spec fn random_bytes() -> Seq<u8> {
    Seq::new(16, |i: int| 0x5au8)
}

/// The stack of a new process; where it ends.
pub open spec fn stack_built(
    m: MachineView,
    space: AddressSpace,
    args: Seq<Seq<u8>>,
    env: Seq<Seq<u8>>,
    info: StartInfo,
) -> (MachineView, Result<u64, ProcessError>) {
    match texts_placed(m, space, args, USER_STACK_TOP, Seq::empty()) {
        (m1, Err(e)) => (m1, Err(e)),
        (m1, Ok((sp1, arg_pointers))) => match texts_placed(m1, space, env, sp1, Seq::empty()) {
            (m2, Err(e)) => (m2, Err(e)),
            (m2, Ok((sp2, env_pointers))) => if sp2 < 16 {
                (m2, Err(ProcessError::InvalidUserAddress))
            } else {
                let random = (sp2 - 16) as u64;
                match user_written(m2, space, random as int, random_bytes()) {
                    (m3, Err(e)) => (m3, Err(e)),
                    (m3, Ok(_)) => words_pushed(
                        m3,
                        space,
                        start_words(info, random, arg_pointers, env_pointers),
                        (random / 16 * 16) as u64,
                    ),
                }
            },
        },
    }
}

pub open spec fn texts_of(texts: Seq<&[u8]>) -> Seq<Seq<u8>> {
    texts.map_values(|t: &[u8]| t@)
}

fn place_texts(machine: &mut Machine, space: AddressSpace, texts: &[&[u8]], sp: u64) -> (r: Result<
    (u64, Vec<u64>),
    ProcessError,
>)
    requires
        old(machine).wf(),
        sp <= USER_STACK_TOP,
    ensures
        final(machine).wf(),
        final(machine).same_place(old(machine)),
        ({
            let (m, placed) = texts_placed(
                old(machine)@,
                space,
                texts_of(texts@),
                sp,
                Seq::empty(),
            );
            &&& final(machine)@ == m
            &&& match r {
                Ok((at, pointers)) => placed == Ok::<(u64, Seq<u64>), ProcessError>(
                    (at, pointers@),
                ) && at <= sp && pointers.len() == texts.len(),
                Err(e) => placed == Err::<(u64, Seq<u64>), ProcessError>(e),
            }
        }),
{
    let mut at: u64 = sp;
    let mut pointers: Vec<u64> = Vec::new();
    let mut i: usize = 0;
    let ghost all = texts_of(texts@);
    let ghost goal = texts_placed(machine@, space, all, sp, Seq::empty());
    assert(all.skip(0) =~= all);
    assert(pointers@ =~= Seq::<u64>::empty());
    while i < texts.len()
        invariant
            i <= texts.len(),
            machine.wf(),
            machine.same_place(old(machine)),
            at <= sp <= USER_STACK_TOP,
            pointers.len() == i,
            all == texts_of(texts@),
            goal == texts_placed(old(machine)@, space, all, sp, Seq::empty()),
            goal == texts_placed(machine@, space, all.skip(i as int), at, pointers@),
        decreases texts.len() - i,
    {
        let text: &[u8] = texts[i];
        proof {
            assert(all.skip(i as int)[0] == text@);
            assert(all.skip(i as int).skip(1) =~= all.skip(i + 1));
        }
        if text.len() as u64 >= at {
            return Err(ProcessError::InvalidUserAddress);
        }
        let mut ended: Vec<u8> = Vec::new();
        crate::bytes::push_all(&mut ended, text);
        ended.push(0);
        assert(ended@ =~= text@.push(0));
        at = at - text.len() as u64 - 1;
        match write_user_bytes_in(machine, space, at, ended.as_slice()) {
            Err(e) => {
                return Err(e);
            },
            Ok(_) => {},
        }
        pointers.push(at);
        i += 1;
    }
    Ok((at, pointers))
}

fn push_words(machine: &mut Machine, space: AddressSpace, words: &Vec<u64>, sp: u64) -> (r: Result<
    u64,
    ProcessError,
>)
    requires
        old(machine).wf(),
        sp <= USER_STACK_TOP,
    ensures
        final(machine).wf(),
        final(machine).same_place(old(machine)),
        (final(machine)@, r) == words_pushed(old(machine)@, space, words@, sp),
{
    let mut at: u64 = sp;
    let mut i: usize = 0;
    let ghost goal = words_pushed(machine@, space, words@, sp);
    assert(words@.skip(0) =~= words@);
    while i < words.len()
        invariant
            i <= words.len(),
            machine.wf(),
            machine.same_place(old(machine)),
            at <= sp <= USER_STACK_TOP,
            goal == words_pushed(old(machine)@, space, words@, sp),
            goal == words_pushed(machine@, space, words@.skip(i as int), at),
        decreases words.len() - i,
    {
        proof {
            assert(words@.skip(i as int)[0] == words@[i as int]);
            assert(words@.skip(i as int).skip(1) =~= words@.skip(i + 1));
        }
        if at < 8 {
            return Err(ProcessError::InvalidUserAddress);
        }
        at -= 8;
        match write_user_u64_in(machine, space, at, words[i]) {
            Err(e) => {
                return Err(e);
            },
            Ok(_) => {},
        }
        i += 1;
    }
    Ok(at)
}

fn push_reversed(words: &mut Vec<u64>, more: &Vec<u64>)
    ensures
        final(words)@ == old(words)@ + more@.reverse(),
{
    let mut i: usize = more.len();
    let ghost start = words@;
    while i > 0
        invariant
            i <= more.len(),
            words@ == start + more@.skip(i as int).reverse(),
        decreases i,
    {
        i -= 1;
        words.push(more[i]);
        assert(words@ =~= start + more@.skip(i as int).reverse());
    }
    assert(more@.skip(0) =~= more@);
}

fn make_start_words(info: &StartInfo, random: u64, args: &Vec<u64>, env: &Vec<u64>) -> (r: Vec<u64>)
    ensures
        r@ == start_words(*info, random, args@, env@),
{
    let pairs: [u64; 30] = [
        0, 0, random, 25, 0, 23, 100, 17, 0, 14, 0, 13, 0, 12, 0, 11, info.entry, 9, 0, 8, info.base,
        7, 4096, 6, info.phnum, 5, info.phent, 4, info.phdr, 3,
    ];
    let mut words: Vec<u64> = Vec::new();
    let mut i: usize = 0;
    while i < 30
        invariant
            i <= 30,
            words@ == pairs@.take(i as int),
        decreases 30 - i,
    {
        words.push(pairs[i]);
        i += 1;
        assert(words@ =~= pairs@.take(i as int));
    }
    assert(words@ =~= auxiliary_words(*info, random));
    words.push(0);
    assert(words@ =~= auxiliary_words(*info, random) + seq![0u64]);
    push_reversed(&mut words, env);
    let ghost before = words@;
    words.push(0);
    assert(words@ =~= before + seq![0u64]);
    push_reversed(&mut words, args);
    let ghost before2 = words@;
    words.push(args.len() as u64);
    assert(words@ =~= before2 + seq![args@.len() as u64]);
    words
}

/// Builds the stack of a new process; returns where it ends.
pub fn initialize_stack(
    machine: &mut Machine,
    space: AddressSpace,
    args: &[&[u8]],
    environment: &[&[u8]],
    info: &StartInfo,
) -> (r: Result<u64, ProcessError>)
    requires
        old(machine).wf(),
    ensures
        final(machine).wf(),
        final(machine).same_place(old(machine)),
        (final(machine)@, r) == stack_built(
            old(machine)@,
            space,
            texts_of(args@),
            texts_of(environment@),
            *info,
        ),
{
    let (sp, arg_pointers) = match place_texts(machine, space, args, USER_STACK_TOP) {
        Err(e) => {
            return Err(e);
        },
        Ok(placed) => placed,
    };
    let (sp, env_pointers) = match place_texts(machine, space, environment, sp) {
        Err(e) => {
            return Err(e);
        },
        Ok(placed) => placed,
    };
    if sp < 16 {
        return Err(ProcessError::InvalidUserAddress);
    }
    let random: u64 = sp - 16;
    let noise: [u8; 16] = [0x5a; 16];
    assert(noise@ =~= random_bytes());
    match write_user_bytes_in(machine, space, random, noise.as_slice()) {
        Err(e) => {
            return Err(e);
        },
        Ok(_) => {},
    }
    let words = make_start_words(info, random, &arg_pointers, &env_pointers);
    push_words(machine, space, &words, random / 16 * 16)
}

// ---------------------------------------------------------------------------
// Loading
// ---------------------------------------------------------------------------
/// The pages of a second image added to those of a first. A page of both has
/// the flags of both.
pub open spec fn plans_merged(plans: Seq<PagePlan>, more: Seq<PagePlan>) -> Seq<PagePlan>
    decreases more.len(),
{
    if more.len() == 0 {
        plans
    } else {
        let plan = more[0];
        let i = plan_index(plans, plan.virtual_address, 0);
        let next = if i < plans.len() {
            plans.update(
                i,
                PagePlan {
                    virtual_address: plans[i].virtual_address,
                    flags: plans[i].flags | plan.flags,
                    executable: plans[i].executable || plan.executable,
                },
            )
        } else {
            plans.push(plan)
        };
        plans_merged(next, more.skip(1))
    }
}

fn merge_plans(plans: &mut Vec<PagePlan>, more: &Vec<PagePlan>)
    ensures
        final(plans)@ == plans_merged(old(plans)@, more@),
{
    let mut i: usize = 0;
    let ghost goal = plans_merged(plans@, more@);
    assert(more@.skip(0) =~= more@);
    while i < more.len()
        invariant
            i <= more.len(),
            goal == plans_merged(plans@, more@.skip(i as int)),
        decreases more.len() - i,
    {
        let plan = more[i];
        proof {
            assert(more@.skip(i as int)[0] == plan);
            assert(more@.skip(i as int).skip(1) =~= more@.skip(i + 1));
        }
        let at: usize = find_plan(plans, plan.virtual_address);
        if at < plans.len() {
            let mine = plans[at];
            plans[at] = PagePlan {
                virtual_address: mine.virtual_address,
                flags: mine.flags | plan.flags,
                executable: mine.executable || plan.executable,
            };
        } else {
            plans.push(plan);
        }
        i += 1;
    }
}

/// The planned pages mapped, as far as it goes.
pub open spec fn pages_mapped(m: MachineView, p: ProcessView, plans: Seq<PagePlan>) -> (
    MachineView,
    ProcessView,
    Result<(), ProcessError>,
)
    decreases plans.len(),
{
    if plans.len() == 0 {
        (m, p, Ok(()))
    } else {
        match page_added(m, p.space, plans[0].virtual_address, plans[0].flags, true) {
            (m1, Err(FreshFault::NoFrame)) => (m1, p, Err(ProcessError::OutOfMemory)),
            (m1, Err(FreshFault::Mapping(e))) => (m1, p, Err(ProcessError::Mapping(e))),
            (m1, Ok(phys)) => pages_mapped(
                m1,
                ProcessView {
                    mappings: p.mappings.push(
                        MappedPage {
                            virtual_address: plans[0].virtual_address,
                            physical_address: phys,
                        },
                    ),
                    ..p
                },
                plans.skip(1),
            ),
        }
    }
}

fn map_plans(machine: &mut Machine, process: &mut Process, plans: &Vec<PagePlan>) -> (r: Result<
    (),
    ProcessError,
>)
    requires
        old(machine).wf(),
    ensures
        final(machine).wf(),
        final(machine).same_place(old(machine)),
        (final(machine)@, final(process)@, r) == pages_mapped(
            old(machine)@,
            old(process)@,
            plans@,
        ),
{
    let mut i: usize = 0;
    let ghost goal = pages_mapped(machine@, process@, plans@);
    assert(plans@.skip(0) =~= plans@);
    while i < plans.len()
        invariant
            i <= plans.len(),
            machine.wf(),
            machine.same_place(old(machine)),
            goal == pages_mapped(old(machine)@, old(process)@, plans@),
            goal == pages_mapped(machine@, process@, plans@.skip(i as int)),
        decreases plans.len() - i,
    {
        let plan = plans[i];
        proof {
            assert(plans@.skip(i as int)[0] == plan);
            assert(plans@.skip(i as int).skip(1) =~= plans@.skip(i + 1));
        }
        match add_page(machine, process.space, plan.virtual_address, plan.flags, true) {
            Err(FreshFault::NoFrame) => {
                return Err(ProcessError::OutOfMemory);
            },
            Err(FreshFault::Mapping(e)) => {
                return Err(ProcessError::Mapping(e));
            },
            Ok(phys) => {
                process.mappings.push(
                    MappedPage {
                        virtual_address: plan.virtual_address,
                        physical_address: phys,
                    },
                );
            },
        }
        i += 1;
    }
    Ok(())
}

/// How many of `left` bytes from an address on are in its page.
pub open spec fn in_page(address: int, left: int) -> int {
    if 4096 - address % 4096 < left {
        4096 - address % 4096
    } else {
        left
    }
}

/// Bytes copied to the pages of a process, from an address on.
pub open spec fn bytes_copied(
    m: MachineView,
    mappings: Seq<MappedPage>,
    address: int,
    bytes: Seq<u8>,
) -> (MachineView, Result<(), ProcessError>)
    decreases bytes.len(),
{
    if bytes.len() == 0 {
        (m, Ok(()))
    } else {
        let i = mapping_index(mappings, (address - address % 4096) as u64, 0);
        if i >= mappings.len() {
            (m, Err(ProcessError::InvalidLoadSegment))
        } else {
            let phys = mappings[i].physical_address;
            let n = in_page(address, bytes.len() as int);
            if m.virt(phys) is None || phys + 4096 > m.ram.len() {
                (m, Err(ProcessError::Mapping(MapError::NoHhdm)))
            } else {
                bytes_copied(
                    MachineView {
                        ram: bytes::splice(m.ram, phys + address % 4096, bytes.take(n)),
                        ..m
                    },
                    mappings,
                    address + n,
                    bytes.skip(n),
                )
            }
        }
    }
}

fn copy_bytes(machine: &mut Machine, mappings: &Vec<MappedPage>, address: u64, bytes: &[u8]) -> (r:
    Result<(), ProcessError>)
    requires
        old(machine).wf(),
        address + bytes.len() <= u64::MAX,
    ensures
        final(machine).wf(),
        final(machine).same_place(old(machine)),
        (final(machine)@, r) == bytes_copied(
            old(machine)@,
            mappings@,
            address as int,
            bytes@,
        ),
{
    let mut copied: usize = 0;
    let ghost goal = bytes_copied(machine@, mappings@, address as int, bytes@);
    assert(bytes@.skip(0) =~= bytes@);
    while copied < bytes.len()
        invariant
            copied <= bytes.len(),
            machine.wf(),
            machine.same_place(old(machine)),
            address + bytes.len() <= u64::MAX,
            goal == bytes_copied(old(machine)@, mappings@, address as int, bytes@),
            goal == bytes_copied(
                machine@,
                mappings@,
                address + copied,
                bytes@.skip(copied as int),
            ),
        decreases bytes.len() - copied,
    {
        let at: u64 = address + copied as u64;
        let offset: u64 = at % PAGE_SIZE;
        let left: usize = bytes.len() - copied;
        let n: usize = if (PAGE_SIZE - offset) < left as u64 {
            (PAGE_SIZE - offset) as usize
        } else {
            left
        };
        let ghost rest = bytes@.skip(copied as int);
        assert(n == in_page(at as int, rest.len() as int));
        let i: usize = find_mapping(mappings, at - offset);
        if i >= mappings.len() {
            return Err(ProcessError::InvalidLoadSegment);
        }
        let phys: u64 = mappings[i].physical_address;
        if paging::phys_to_virt(machine, phys).is_none() {
            return Err(ProcessError::Mapping(MapError::NoHhdm));
        }
        let length: u64 = machine.ram.len() as u64;
        if length < PAGE_SIZE || phys > length - PAGE_SIZE {
            return Err(ProcessError::Mapping(MapError::NoHhdm));
        }
        let part = vstd::slice::slice_subrange(bytes, copied, copied + n);
        proof {
            assert(part@ =~= rest.take(n as int));
            assert(rest.skip(n as int) =~= bytes@.skip(copied + n));
        }
        put_vec(&mut machine.ram, (phys + offset) as usize, part);
        copied += n;
    }
    Ok(())
}

/// The segments of an image copied, from header number `i` on.
pub open spec fn segments_copied(
    m: MachineView,
    mappings: Seq<MappedPage>,
    bytes: Seq<u8>,
    base: u64,
    i: int,
) -> (MachineView, Result<(), ProcessError>)
    decreases elf::headers(bytes).len() - i,
{
    let headers = elf::headers(bytes);
    if i < 0 || i >= headers.len() {
        (m, Ok(()))
    } else if !is_load(headers[i]) {
        segments_copied(m, mappings, bytes, base, i + 1)
    } else {
        let h = headers[i];
        match bytes_copied(
            m,
            mappings,
            segment_start(h, base) as int,
            bytes.subrange(h.offset as int, h.offset + h.file_size),
        ) {
            (m1, Err(e)) => (m1, Err(e)),
            (m1, Ok(_)) => segments_copied(m1, mappings, bytes, base, i + 1),
        }
    }
}

fn copy_segments(
    machine: &mut Machine,
    mappings: &Vec<MappedPage>,
    image: ElfImage<'_>,
    base: u64,
) -> (r: Result<(), ProcessError>)
    requires
        old(machine).wf(),
        image.wf(),
        forall|i: int|
            0 <= i < image.headers().len() && is_load(#[trigger] image.headers()[i])
                ==> segment_fault(image.headers()[i], image.bytes@.len() as int, base) is None,
    ensures
        final(machine).wf(),
        final(machine).same_place(old(machine)),
        (final(machine)@, r) == segments_copied(
            old(machine)@,
            mappings@,
            image.bytes@,
            base,
            0,
        ),
{
    let headers = image.program_headers();
    let ghost goal = segments_copied(machine@, mappings@, image.bytes@, base, 0);
    let mut i: usize = 0;
    while i < headers.len()
        invariant
            i <= headers.len(),
            headers@ == image.headers(),
            machine.wf(),
            machine.same_place(old(machine)),
            forall|i: int|
                0 <= i < image.headers().len() && is_load(#[trigger] image.headers()[i])
                    ==> segment_fault(image.headers()[i], image.bytes@.len() as int, base) is None,
            goal == segments_copied(old(machine)@, mappings@, image.bytes@, base, 0),
            goal == segments_copied(machine@, mappings@, image.bytes@, base, i as int),
        decreases headers.len() - i,
    {
        let header = headers[i];
        if header.kind == elf::PT_LOAD {
            assert(is_load(image.headers()[i as int]));
            match image.file_bytes(header) {
                None => {
                    return Err(ProcessError::InvalidLoadSegment);
                },
                Some(part) => {
                    let start: u64 = base.wrapping_add(header.virtual_address);
                    match copy_bytes(machine, mappings, start, part) {
                        Err(e) => {
                            return Err(e);
                        },
                        Ok(_) => {},
                    }
                },
            }
        }
        i += 1;
    }
    Ok(())
}

/// The pages of the stack.
pub open spec fn stack_plans() -> Seq<PagePlan> {
    Seq::new(
        16,
        |i: int|
            PagePlan {
                virtual_address: (USER_STACK_START + i * 4096) as u64,
                flags: data_flags(),
                executable: false,
            },
    )
}

fn make_stack_plans() -> (r: Vec<PagePlan>)
    ensures
        r@ == stack_plans(),
{
    let mut plans: Vec<PagePlan> = Vec::new();
    let mut i: u64 = 0;
    while i < USER_STACK_PAGES
        invariant
            i <= 16,
            plans@ == stack_plans().take(i as int),
        decreases 16 - i,
    {
        plans.push(
            PagePlan {
                virtual_address: USER_STACK_START + i * PAGE_SIZE,
                flags: 0x8000_0000_0000_0006,
                executable: false,
            },
        );
        i += 1;
        assert(plans@ =~= stack_plans().take(i as int));
    }
    assert(plans@ =~= stack_plans());
    plans
}

/// A program to load: its file, its arguments and environment, and the file of
/// its interpreter, if it asks for one.
pub struct Program<'a> {
    pub bytes: &'a [u8],
    pub args: &'a [&'a [u8]],
    pub environment: &'a [&'a [u8]],
    pub interpreter: Option<&'a [u8]>,
}

#[verifier::ext_equal]
pub struct ProgramView {
    pub bytes: Seq<u8>,
    pub args: Seq<Seq<u8>>,
    pub environment: Seq<Seq<u8>>,
    pub interpreter: Option<Seq<u8>>,
}

impl<'a> Program<'a> {
    pub open spec fn view(&self) -> ProgramView {
        ProgramView {
            bytes: self.bytes@,
            args: texts_of(self.args@),
            environment: texts_of(self.environment@),
            interpreter: match self.interpreter {
                Some(b) => Some(b@),
                None => None,
            },
        }
    }
}

impl ProgramView {
    /// The file of the interpreter, if the program has one.
    pub open spec fn second(self) -> Option<Seq<u8>> {
        if elf::interpreter_of(self.bytes) is Some {
            self.interpreter
        } else {
            None
        }
    }

    pub open spec fn second_base(self) -> u64 {
        if self.second() is Some {
            INTERP_BASE
        } else {
            0
        }
    }

    pub open spec fn main_entry(self) -> u64 {
        load_base(self.bytes).wrapping_add(crate::bytes::le64_at(self.bytes, 24) as u64)
    }

    /// Where execution starts: in the interpreter, if there is one.
    pub open spec fn first_instruction(self) -> u64 {
        match self.second() {
            Some(b) => INTERP_BASE.wrapping_add(crate::bytes::le64_at(b, 24) as u64),
            None => self.main_entry(),
        }
    }

    pub open spec fn start_info(self) -> StartInfo {
        StartInfo {
            phdr: elf::headers_address(self.bytes, load_base(self.bytes)),
            phent: crate::bytes::le16_at(self.bytes, 54) as u64,
            phnum: crate::bytes::le16_at(self.bytes, 56) as u64,
            base: self.second_base(),
            entry: self.main_entry(),
        }
    }

    /// The pages that the program needs, with its interpreter.
    pub open spec fn plan(self) -> Result<Seq<PagePlan>, ProcessError> {
        match elf::image_fault(self.bytes) {
            Some(e) => Err(ProcessError::Elf(e)),
            None => if elf::interpreter_of(self.bytes) is Some && self.interpreter is None {
                Err(ProcessError::Elf(ElfError::DynamicInterpreter))
            } else {
                match self.second() {
                    None => planned(self.bytes, load_base(self.bytes)),
                    Some(b) => match elf::image_fault(b) {
                        Some(e) => Err(ProcessError::Elf(e)),
                        None => match (
                            planned(self.bytes, load_base(self.bytes)),
                            planned(b, INTERP_BASE),
                        ) {
                            (Err(e), _) => Err(e),
                            (_, Err(e)) => Err(e),
                            (Ok(plans), Ok(more)) => Ok(plans_merged(plans, more)),
                        },
                    },
                }
            },
        }
    }

    pub open spec fn new_process(self, space: AddressSpace, personality: ProcessPersonality) -> ProcessView {
        let headers = elf::headers(self.bytes);
        let end = highest_end(headers, load_base(self.bytes), headers.len() as int);
        let brk = ((end + 4095) / 4096 * 4096) as u64;
        ProcessView {
            space,
            entry: self.first_instruction(),
            personality,
            fs_base: 0,
            user_stack_top: USER_STACK_TOP,
            brk_start: brk,
            brk_current: brk,
            mmap_next: 0x7000_0000_0000,
            mappings: Seq::empty(),
            destroyed: false,
        }
    }

    /// The segments of the program and of its interpreter copied.
    pub open spec fn copied(self, m: MachineView, mappings: Seq<MappedPage>) -> (
        MachineView,
        Result<(), ProcessError>,
    ) {
        match segments_copied(m, mappings, self.bytes, load_base(self.bytes), 0) {
            (m1, Err(e)) => (m1, Err(e)),
            (m1, Ok(_)) => match self.second() {
                None => (m1, Ok(())),
                Some(b) => segments_copied(m1, mappings, b, INTERP_BASE, 0),
            },
        }
    }

    /// A new process given its pages, its contents and its stack.
    pub open spec fn furnished(self, m: MachineView, p: ProcessView, plans: Seq<PagePlan>) -> (
        MachineView,
        ProcessView,
        Result<(), ProcessError>,
    ) {
        match pages_mapped(m, p, plans) {
            (m1, p1, Err(e)) => (m1, p1, Err(e)),
            (m1, p1, Ok(_)) => match self.copied(m1, p1.mappings) {
                (m2, Err(e)) => (m2, p1, Err(e)),
                (m2, Ok(_)) => match pages_mapped(m2, p1, stack_plans()) {
                    (m3, p3, Err(e)) => (m3, p3, Err(e)),
                    (m3, p3, Ok(_)) => match stack_built(
                        m3,
                        p3.space,
                        self.args,
                        self.environment,
                        self.start_info(),
                    ) {
                        (m4, Err(e)) => (m4, p3, Err(e)),
                        (m4, Ok(sp)) => (
                            m4,
                            ProcessView { user_stack_top: sp, ..p3 },
                            Ok(()),
                        ),
                    },
                },
            },
        }
    }

    /// The program loaded. What was made of a process that could not be
    /// finished is taken down again.
    pub open spec fn loaded(self, m: MachineView, personality: ProcessPersonality) -> (
        MachineView,
        Result<ProcessView, ProcessError>,
    ) {
        match self.plan() {
            Err(e) => (m, Err(e)),
            Ok(plans) => match m.space_created() {
                (m1, Err(e)) => (m1, Err(ProcessError::Mapping(e))),
                (m1, Ok(space)) => match self.furnished(
                    m1,
                    self.new_process(space, personality),
                    plans,
                ) {
                    (m2, p, Ok(_)) => (m2, Ok(p)),
                    (m2, p, Err(e)) => (cleaned_up(m2, p).0, Err(e)),
                },
            },
        }
    }
}

/// An image whose segments can all be loaded at a base.
struct Placed<'a> {
    image: ElfImage<'a>,
    base: u64,
}

impl<'a> Placed<'a> {
    spec fn ok(self) -> bool {
        &&& self.image.wf()
        &&& forall|i: int|
            0 <= i < self.image.headers().len() && is_load(#[trigger] self.image.headers()[i])
                ==> segment_fault(
                self.image.headers()[i],
                self.image.bytes@.len() as int,
                self.base,
            ) is None
    }
}

/// A program whose pages are planned.
struct Planned<'a> {
    main: Placed<'a>,
    second: Option<Placed<'a>>,
    plans: Vec<PagePlan>,
}

fn plan_program<'a>(program: &Program<'a>) -> (r: Result<Planned<'a>, ProcessError>)
    ensures
        match r {
            Err(e) => program@.plan() == Err::<Seq<PagePlan>, ProcessError>(e),
            Ok(p) => {
                &&& program@.plan() == Ok::<Seq<PagePlan>, ProcessError>(p.plans@)
                &&& p.main.ok()
                &&& p.main.image.bytes@ == program@.bytes
                &&& p.main.base == load_base(program@.bytes)
                &&& match p.second {
                    None => program@.second() is None,
                    Some(s) => s.ok() && program@.second() == Some(s.image.bytes@) && s.base
                        == INTERP_BASE,
                }
            },
        },
{
    let image = match ElfImage::parse(program.bytes) {
        Err(e) => {
            return Err(ProcessError::Elf(e));
        },
        Ok(image) => image,
    };
    let base: u64 = if image.is_pie() && is_zero_base(image) {
        DEFAULT_PIE_BASE
    } else {
        0
    };
    let second: Option<ElfImage<'a>> = match image.interpreter() {
        None => None,
        Some(_) => match program.interpreter {
            None => {
                return Err(ProcessError::Elf(ElfError::DynamicInterpreter));
            },
            Some(bytes) => match ElfImage::parse(bytes) {
                Err(e) => {
                    return Err(ProcessError::Elf(e));
                },
                Ok(second) => Some(second),
            },
        },
    };
    let mut plans = match plan_pages_with_base(image, base) {
        Err(e) => {
            return Err(e);
        },
        Ok(plans) => plans,
    };
    match second {
        None => Ok(Planned { main: Placed { image, base }, second: None, plans }),
        Some(second) => match plan_pages_with_base(second, INTERP_BASE) {
            Err(e) => Err(e),
            Ok(more) => {
                merge_plans(&mut plans, &more);
                Ok(
                    Planned {
                        main: Placed { image, base },
                        second: Some(Placed { image: second, base: INTERP_BASE }),
                        plans,
                    },
                )
            },
        },
    }
}

fn furnish(
    machine: &mut Machine,
    process: &mut Process,
    program: &Program<'_>,
    planned: &Planned<'_>,
) -> (r: Result<(), ProcessError>)
    requires
        old(machine).wf(),
        planned.main.ok(),
        planned.main.image.bytes@ == program@.bytes,
        planned.main.base == load_base(program@.bytes),
        match planned.second {
            None => program@.second() is None,
            Some(s) => s.ok() && program@.second() == Some(s.image.bytes@) && s.base == INTERP_BASE,
        },
    ensures
        final(machine).wf(),
        final(machine).same_place(old(machine)),
        (final(machine)@, final(process)@, r) == program@.furnished(
            old(machine)@,
            old(process)@,
            planned.plans@,
        ),
{
    match map_plans(machine, process, &planned.plans) {
        Err(e) => {
            return Err(e);
        },
        Ok(_) => {},
    }
    match copy_segments(machine, &process.mappings, planned.main.image, planned.main.base) {
        Err(e) => {
            return Err(e);
        },
        Ok(_) => {},
    }
    if let Some(second) = &planned.second {
        match copy_segments(machine, &process.mappings, second.image, second.base) {
            Err(e) => {
                return Err(e);
            },
            Ok(_) => {},
        }
    }
    let stack = make_stack_plans();
    match map_plans(machine, process, &stack) {
        Err(e) => {
            return Err(e);
        },
        Ok(_) => {},
    }
    let main = planned.main.image;
    let base: u64 = planned.main.base;
    let info = StartInfo {
        phdr: main.phdr_virtual_address(base),
        phent: main.program_header_size() as u64,
        phnum: main.program_header_count() as u64,
        base: if planned.second.is_some() {
            INTERP_BASE
        } else {
            0
        },
        entry: base.wrapping_add(main.entry),
    };
    match initialize_stack(machine, process.space, program.args, program.environment, &info) {
        Err(e) => Err(e),
        Ok(sp) => {
            process.user_stack_top = sp;
            Ok(())
        },
    }
}

/// Loads a program.
pub fn load_elf_with_personality(
    machine: &mut Machine,
    program: &Program<'_>,
    personality: ProcessPersonality,
) -> (r: Result<Process, ProcessError>)
    requires
        old(machine).wf(),
    ensures
        final(machine).wf(),
        final(machine).same_place(old(machine)),
        ({
            let (m, loaded) = program@.loaded(old(machine)@, personality);
            &&& final(machine)@ == m
            &&& match r {
                Ok(p) => loaded == Ok::<ProcessView, ProcessError>(p@),
                Err(e) => loaded == Err::<ProcessView, ProcessError>(e),
            }
        }),
{
    let planned = match plan_program(program) {
        Err(e) => {
            return Err(e);
        },
        Ok(planned) => planned,
    };
    let space = match paging::create_address_space(machine) {
        Err(e) => {
            return Err(ProcessError::Mapping(e));
        },
        Ok(space) => space,
    };
    let base: u64 = planned.main.base;
    let end: u64 = find_highest_end(planned.main.image, base);
    let brk: u64 = (end + (PAGE_SIZE - 1)) / PAGE_SIZE * PAGE_SIZE;
    let entry: u64 = match &planned.second {
        Some(second) => INTERP_BASE.wrapping_add(second.image.entry),
        None => base.wrapping_add(planned.main.image.entry),
    };
    let mut process = Process {
        space,
        entry,
        personality,
        fs_base: 0,
        user_stack_top: USER_STACK_TOP,
        brk_start: brk,
        brk_current: brk,
        mmap_next: 0x7000_0000_0000,
        mappings: Vec::new(),
        destroyed: false,
    };
    assert(process@ =~= program@.new_process(space, personality));
    match furnish(machine, &mut process, program, &planned) {
        Ok(_) => Ok(process),
        Err(e) => {
            let _ = process.destroy(machine);
            Err(e)
        },
    }
}

/// Loads a native program without arguments.
pub fn load_elf(machine: &mut Machine, bytes: &[u8], interpreter: Option<&[u8]>) -> (r: Result<
    Process,
    ProcessError,
>)
    requires
        old(machine).wf(),
    ensures
        final(machine).wf(),
        final(machine).same_place(old(machine)),
        loads(old(machine)@, final(machine)@, bytes, &[], &[], interpreter, ProcessPersonality::NativeVanta, r),
{
    load_elf_with_args_and_env(machine, bytes, &[], &[], interpreter)
}

/// What loading a program gives.
pub open spec fn loads(
    before: MachineView,
    after: MachineView,
    bytes: &[u8],
    args: &[&[u8]],
    environment: &[&[u8]],
    interpreter: Option<&[u8]>,
    personality: ProcessPersonality,
    r: Result<Process, ProcessError>,
) -> bool {
    let program = ProgramView {
        bytes: bytes@,
        args: texts_of(args@),
        environment: texts_of(environment@),
        interpreter: match interpreter {
            Some(b) => Some(b@),
            None => None,
        },
    };
    let (m, loaded) = program.loaded(before, personality);
    &&& after == m
    &&& match r {
        Ok(p) => loaded == Ok::<ProcessView, ProcessError>(p@),
        Err(e) => loaded == Err::<ProcessView, ProcessError>(e),
    }
}

/// Loads a native program.
pub fn load_elf_with_args_and_env(
    machine: &mut Machine,
    bytes: &[u8],
    args: &[&[u8]],
    environment: &[&[u8]],
    interpreter: Option<&[u8]>,
) -> (r: Result<Process, ProcessError>)
    requires
        old(machine).wf(),
    ensures
        final(machine).wf(),
        final(machine).same_place(old(machine)),
        loads(
            old(machine)@,
            final(machine)@,
            bytes,
            args,
            environment,
            interpreter,
            ProcessPersonality::NativeVanta,
            r,
        ),
{
    let program = Program { bytes, args, environment, interpreter };
    load_elf_with_personality(machine, &program, ProcessPersonality::NativeVanta)
}

/// Loads a native program with arguments.
pub fn load_elf_with_args(
    machine: &mut Machine,
    bytes: &[u8],
    args: &[&[u8]],
    interpreter: Option<&[u8]>,
) -> (r: Result<Process, ProcessError>)
    requires
        old(machine).wf(),
    ensures
        final(machine).wf(),
        final(machine).same_place(old(machine)),
        loads(
            old(machine)@,
            final(machine)@,
            bytes,
            args,
            &[],
            interpreter,
            ProcessPersonality::NativeVanta,
            r,
        ),
{
    load_elf_with_args_and_env(machine, bytes, args, &[], interpreter)
}

/// Loads a Linux program without arguments; `accepted` is what the broker of
/// that personality says of its file.
pub fn load_linux_elf(
    machine: &mut Machine,
    bytes: &[u8],
    interpreter: Option<&[u8]>,
    accepted: bool,
) -> (r: Result<Process, ProcessError>)
    requires
        old(machine).wf(),
    ensures
        final(machine).wf(),
        final(machine).same_place(old(machine)),
        if accepted {
            loads(
                old(machine)@,
                final(machine)@,
                bytes,
                &[],
                &[],
                interpreter,
                ProcessPersonality::LinuxX86_64Static,
                r,
            )
        } else {
            r matches Err(e) && e == ProcessError::LinuxElf && *final(machine) == *old(machine)
        },
{
    load_linux_elf_with_args_and_env(machine, bytes, &[], &[], interpreter, accepted)
}

/// Loads a Linux program, if the broker of that personality accepts its file.
pub fn load_linux_elf_with_args_and_env(
    machine: &mut Machine,
    bytes: &[u8],
    args: &[&[u8]],
    environment: &[&[u8]],
    interpreter: Option<&[u8]>,
    accepted: bool,
) -> (r: Result<Process, ProcessError>)
    requires
        old(machine).wf(),
    ensures
        final(machine).wf(),
        final(machine).same_place(old(machine)),
        if accepted {
            loads(
                old(machine)@,
                final(machine)@,
                bytes,
                args,
                environment,
                interpreter,
                ProcessPersonality::LinuxX86_64Static,
                r,
            )
        } else {
            r matches Err(e) && e == ProcessError::LinuxElf && *final(machine) == *old(machine)
        },
{
    if !accepted {
        return Err(ProcessError::LinuxElf);
    }
    let program = Program { bytes, args, environment, interpreter };
    load_elf_with_personality(machine, &program, ProcessPersonality::LinuxX86_64Static)
}

} // verus!
