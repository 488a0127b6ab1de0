//! GUID partition tables: finding the root partition.
use vstd::prelude::*;
use vstd::slice::slice_subrange;

use crate::bytes::{self, get_le32, get_le64, holds_at, push_all};

verus! {

const MIN_HEADER_SIZE: usize = 92;

const PARTITION_START_OFFSET: usize = 32;

const PARTITION_END_OFFSET: usize = 40;

const SECTOR: usize = 512;

/// The type of a root partition: the little-endian form of
/// `5d2f0d4e-9cff-4b2f-a9b6-6bf9eaa4d201`.
pub const VANTA_ROOT_TYPE_GUID: [u8; 16] = [
    0x4e, 0x0d, 0x2f, 0x5d, 0xff, 0x9c, 0x2f, 0x4b, 0xa9, 0xb6, 0x6b, 0xf9, 0xea, 0xa4, 0xd2, 0x01,
];

pub open spec fn root_type() -> Seq<u8> {
    seq![
        0x4eu8,
        0x0du8,
        0x2fu8,
        0x5du8,
        0xffu8,
        0x9cu8,
        0x2fu8,
        0x4bu8,
        0xa9u8,
        0xb6u8,
        0x6bu8,
        0xf9u8,
        0xeau8,
        0xa4u8,
        0xd2u8,
        0x01u8,
    ]
}

/// `EFI PART`.
pub open spec fn signature() -> Seq<u8> {
    seq![0x45u8, 0x46u8, 0x49u8, 0x20u8, 0x50u8, 0x41u8, 0x52u8, 0x54u8]
}

#[derive(Clone, Copy, Debug, PartialEq, Eq, Structural)]
pub struct RootPartition {
    pub start_lba: u64,
    pub end_lba: u64,
}

impl RootPartition {
    /// A partition ends where it starts, or later.
    pub open spec fn wf(self) -> bool {
        self.start_lba <= self.end_lba && self.end_lba - self.start_lba < u64::MAX
    }

    pub fn sector_count(self) -> (r: u64)
        requires
            self.wf(),
        ensures
            r == self.end_lba - self.start_lba + 1,
    {
        self.end_lba - self.start_lba + 1
    }

    /// Where a sector of the partition lies on the disk.
    pub fn absolute_lba(self, relative_lba: u64) -> (r: Option<u64>)
        requires
            self.wf(),
        ensures
            r is Some <==> self.start_lba + relative_lba <= self.end_lba,
            r matches Some(lba) ==> lba == self.start_lba + relative_lba,
    {
        if relative_lba >= self.sector_count() {
            return None;
        }
        Some(self.start_lba + relative_lba)
    }
}

#[derive(Clone, Copy, Debug, PartialEq, Eq, Structural)]
pub enum GptError {
    InvalidSignature,
    InvalidHeader,
    InvalidHeaderCrc,
    InvalidPartitionArrayCrc,
    InvalidPartitionLayout,
    MissingRoot,
}

// ---------------------------------------------------------------------------
// The checksum
// ---------------------------------------------------------------------------
/// One bit shifted out of the remainder of the division by the reversed
/// polynomial of IEEE 802.3.
pub open spec fn crc_bit(crc: u32) -> u32 {
    if crc & 1 == 0 {
        crc >> 1
    } else {
        (crc >> 1) ^ 0xedb8_8320
    }
}

pub open spec fn crc_bits(crc: u32, n: nat) -> u32
    decreases n,
{
    if n == 0 {
        crc
    } else {
        crc_bit(crc_bits(crc, (n - 1) as nat))
    }
}

/// The remainder after the bytes of `s`, all ones at the start.
pub open spec fn crc_run(s: Seq<u8>) -> u32
    decreases s.len(),
{
    if s.len() == 0 {
        0xffff_ffff
    } else {
        crc_bits(crc_run(s.drop_last()) ^ (s.last() as u32), 8)
    }
}

/// CRC-32.
pub open spec fn crc32_of(s: Seq<u8>) -> u32 {
    !crc_run(s)
}

fn crc32_step(crc: u32, value: u8) -> (r: u32)
    ensures
        r == crc_bits(crc ^ (value as u32), 8),
{
    let mut c: u32 = crc ^ (value as u32);
    let ghost start = c;
    let mut i: usize = 0;
    while i < 8
        invariant
            i <= 8,
            c == crc_bits(start, i as nat),
        decreases 8 - i,
    {
        c = if c & 1 == 0 {
            c >> 1
        } else {
            (c >> 1) ^ 0xedb8_8320
        };
        i += 1;
    }
    c
}

pub(crate) fn crc32(bytes: &[u8]) -> (r: u32)
    ensures
        r == crc32_of(bytes@),
{
    let mut crc: u32 = 0xffff_ffff;
    let mut i: usize = 0;
    assert(bytes@.take(0) =~= Seq::<u8>::empty());
    while i < bytes.len()
        invariant
            i <= bytes.len(),
            crc == crc_run(bytes@.take(i as int)),
        decreases bytes.len() - i,
    {
        proof {
            let more = bytes@.take(i + 1);
            assert(more.drop_last() =~= bytes@.take(i as int));
            assert(more.last() == bytes@[i as int]);
        }
        crc = crc32_step(crc, bytes[i]);
        i += 1;
    }
    assert(bytes@.take(i as int) =~= bytes@);
    !crc
}

/// The checksum with the bytes from `start` on, `len` of them, taken as zero.
fn crc32_with_zeroed_range(bytes: &[u8], start: usize, len: usize) -> (r: u32)
    requires
        start + len <= bytes.len(),
    ensures
        r == crc32_of(bytes::splice(bytes@, start as int, bytes::zeros(len as nat))),
{
    let ghost s = bytes::splice(bytes@, start as int, bytes::zeros(len as nat));
    let mut crc: u32 = 0xffff_ffff;
    let mut i: usize = 0;
    assert(s.take(0) =~= Seq::<u8>::empty());
    while i < bytes.len()
        invariant
            i <= bytes.len(),
            start + len <= bytes.len(),
            s == bytes::splice(bytes@, start as int, bytes::zeros(len as nat)),
            crc == crc_run(s.take(i as int)),
        decreases bytes.len() - i,
    {
        proof {
            let more = s.take(i + 1);
            assert(more.drop_last() =~= s.take(i as int));
            assert(more.last() == s[i as int]);
        }
        let value: u8 = if start <= i && i < start + len {
            0
        } else {
            bytes[i]
        };
        crc = crc32_step(crc, value);
        i += 1;
    }
    assert(s.take(i as int) =~= s);
    !crc
}

// ---------------------------------------------------------------------------
// The table
// ---------------------------------------------------------------------------
/// What is wrong with a header, if anything: its signature, its size, its
/// checksum.
pub open spec fn header_fault(header: Seq<u8>) -> Option<GptError> {
    if header.len() < 8 || header.take(8) != signature() {
        Some(GptError::InvalidSignature)
    } else if header.len() < 16 || bytes::le32_at(header, 12) < 92 || bytes::le32_at(header, 12) > header.len() {
        Some(GptError::InvalidHeader)
    } else if crc32_of(bytes::splice(header.take(bytes::le32_at(header, 12)), 16, bytes::zeros(4))) != bytes::le32_at(
        header,
        16,
    ) {
        Some(GptError::InvalidHeaderCrc)
    } else {
        None
    }
}

/// Whether the layout that a header gives makes sense, with a partition array
/// of `size` bytes.
pub open spec fn layout_ok(header: Seq<u8>, size: int) -> bool {
    &&& bytes::le64_at(header, 24) == 1
    &&& bytes::le64_at(header, 32) > 1
    &&& bytes::le64_at(header, 40) <= bytes::le64_at(header, 48)
    &&& bytes::le32_at(header, 84) >= 48
    &&& bytes::le32_at(header, 80) * bytes::le32_at(header, 84) <= size
}

/// The first root partition among the entries from number `i` on.
pub open spec fn root_from(header: Seq<u8>, entries: Seq<u8>, i: int) -> Result<
    RootPartition,
    GptError,
>
    decreases bytes::le32_at(header, 80) - i,
{
    let size = bytes::le32_at(header, 84);
    let at = i * size;
    if i >= bytes::le32_at(header, 80) {
        Err(GptError::MissingRoot)
    } else if entries.subrange(at, at + 16) != root_type() {
        root_from(header, entries, i + 1)
    } else {
        let start = bytes::le64_at(entries, at + 32);
        let end = bytes::le64_at(entries, at + 40);
        if start < bytes::le64_at(header, 40) || end > bytes::le64_at(header, 48) || start > end {
            Err(GptError::InvalidPartitionLayout)
        } else {
            Ok(RootPartition { start_lba: start as u64, end_lba: end as u64 })
        }
    }
}

/// The root partition that a header and its partition array give.
pub open spec fn root_of(header: Seq<u8>, entries: Seq<u8>) -> Result<RootPartition, GptError> {
    match header_fault(header) {
        Some(e) => Err(e),
        None => if !layout_ok(header, entries.len() as int) {
            Err(GptError::InvalidHeader)
        } else if crc32_of(entries.take(bytes::le32_at(header, 80) * bytes::le32_at(header, 84))) != bytes::le32_at(
            header,
            88,
        ) {
            Err(GptError::InvalidPartitionArrayCrc)
        } else {
            root_from(header, entries, 0)
        },
    }
}

fn check_header(header: &[u8]) -> (r: Option<GptError>)
    ensures
        r == header_fault(header@),
        r is None ==> header.len() >= 92,
{
    let sig: [u8; 8] = [0x45, 0x46, 0x49, 0x20, 0x50, 0x41, 0x52, 0x54];
    assert(sig@ =~= signature());
    if header.len() < 8 {
        return Some(GptError::InvalidSignature);
    }
    assert(header@.subrange(0, 8) =~= header@.take(8));
    if !holds_at(header, 0, sig.as_slice()) {
        return Some(GptError::InvalidSignature);
    }
    if header.len() < 16 {
        return Some(GptError::InvalidHeader);
    }
    let header_size: usize = get_le32(header, 12) as usize;
    if header_size < MIN_HEADER_SIZE || header_size > header.len() {
        return Some(GptError::InvalidHeader);
    }
    let expected: u32 = get_le32(header, 16);
    let part = slice_subrange(header, 0, header_size);
    assert(part@ =~= header@.take(header_size as int));
    if crc32_with_zeroed_range(part, 16, 4) != expected {
        return Some(GptError::InvalidHeaderCrc);
    }
    None
}

/// The root partition that a header and its partition array give.
pub fn find_vanta_root(header: &[u8], entries: &[u8]) -> (r: Result<RootPartition, GptError>)
    ensures
        r == root_of(header@, entries@),
        r matches Ok(root) ==> root.start_lba <= root.end_lba,
{
    if let Some(e) = check_header(header) {
        return Err(e);
    }
    let current_lba: u64 = get_le64(header, 24);
    let backup_lba: u64 = get_le64(header, 32);
    let first_usable: u64 = get_le64(header, 40);
    let last_usable: u64 = get_le64(header, 48);
    let count: u32 = get_le32(header, 80);
    let size: u32 = get_le32(header, 84);
    let expected: u32 = get_le32(header, 88);
    proof {
        assert(count * size <= 0xffff_ffff * 0xffff_ffff) by (nonlinear_arith)
            requires
                count <= 0xffff_ffff,
                size <= 0xffff_ffff,
        ;
        assert(0 <= count * size) by (nonlinear_arith);
    }
    let total: u64 = count as u64 * size as u64;
    if current_lba != 1 || backup_lba <= current_lba || first_usable > last_usable || size < 48
        || total > entries.len() as u64 {
        return Err(GptError::InvalidHeader);
    }
    let total: usize = total as usize;
    let part = slice_subrange(entries, 0, total);
    assert(part@ =~= entries@.take(total as int));
    if crc32(part) != expected {
        return Err(GptError::InvalidPartitionArrayCrc);
    }
    let root_guid: [u8; 16] = [
        0x4e, 0x0d, 0x2f, 0x5d, 0xff, 0x9c, 0x2f, 0x4b, 0xa9, 0xb6, 0x6b, 0xf9, 0xea, 0xa4, 0xd2,
        0x01,
    ];
    assert(root_guid@ =~= root_type());
    let mut index: u32 = 0;
    let mut offset: usize = 0;
    while index < count
        invariant
            index <= count,
            size >= 48,
            offset == index * size,
            count * size == total,
            total <= entries.len(),
            count == bytes::le32_at(header@, 80),
            size == bytes::le32_at(header@, 84),
            first_usable == bytes::le64_at(header@, 40),
            last_usable == bytes::le64_at(header@, 48),
            root_guid@ == root_type(),
            root_of(header@, entries@) == root_from(header@, entries@, index as int),
        decreases count - index,
    {
        proof {
            assert((index + 1) * size <= count * size) by (nonlinear_arith)
                requires
                    index + 1 <= count,
                    size >= 0,
            ;
            assert((index + 1) * size == index * size + size) by (nonlinear_arith);
        }
        if holds_at(entries, offset, root_guid.as_slice()) {
            let start_lba: u64 = get_le64(entries, offset + PARTITION_START_OFFSET);
            let end_lba: u64 = get_le64(entries, offset + PARTITION_END_OFFSET);
            if start_lba < first_usable || end_lba > last_usable || start_lba > end_lba {
                return Err(GptError::InvalidPartitionLayout);
            }
            return Ok(RootPartition { start_lba, end_lba });
        }
        offset += size as usize;
        index += 1;
    }
    Err(GptError::MissingRoot)
}

// ---------------------------------------------------------------------------
// Reading it from a disk
// ---------------------------------------------------------------------------
/// `count` sectors from `first` on, if all of them can be read.
pub open spec fn sectors_from(
    sector: spec_fn(u64) -> Option<Seq<u8>>,
    first: int,
    count: nat,
) -> Option<Seq<u8>>
    decreases count,
{
    if count == 0 {
        Some(Seq::empty())
    } else {
        match (sectors_from(sector, first, (count - 1) as nat), sector((first + count - 1) as u64)) {
            (Some(before), Some(last)) => Some(before + last),
            _ => None,
        }
    }
}

/// The sectors that a partition array takes.
pub open spec fn array_sectors(header: Seq<u8>) -> int {
    (bytes::le32_at(header, 80) * bytes::le32_at(header, 84) + 511) / 512
}

/// The root partition of a disk: its header is in sector 1, and says where the
/// partition array is.
pub open spec fn root_on_disk(sector: spec_fn(u64) -> Option<Seq<u8>>) -> Result<
    RootPartition,
    GptError,
> {
    match sector(1) {
        None => Err(GptError::InvalidHeader),
        Some(header) => match header_fault(header) {
            Some(e) => Err(e),
            None => {
                let count = array_sectors(header);
                if count * 512 > usize::MAX || bytes::le64_at(header, 72) + count > u64::MAX {
                    Err(GptError::InvalidHeader)
                } else {
                    match sectors_from(sector, bytes::le64_at(header, 72), count as nat) {
                        None => Err(GptError::InvalidHeader),
                        Some(entries) => root_of(header, entries),
                    }
                }
            },
        },
    }
}

/// What a reader returns is what `sector` says.
pub open spec fn reads_as<F: Fn(u64) -> Result<[u8; SECTOR], ()>>(
    read: F,
    sector: spec_fn(u64) -> Option<Seq<u8>>,
) -> bool {
    forall|lba: u64, r: Result<[u8; SECTOR], ()>| #[trigger]
        call_ensures(read, (lba,), r) ==> match r {
            Ok(bytes) => sector(lba) == Some(bytes@),
            Err(_) => sector(lba) is None,
        }
}

/// The root partition of the disk whose sectors `read` returns.
pub fn discover_vanta_root<F: Fn(u64) -> Result<[u8; SECTOR], ()>>(read: F) -> (r: Result<
    RootPartition,
    GptError,
>)
    requires
        forall|lba: u64| call_requires(read, (lba,)),
    ensures
        forall|sector: spec_fn(u64) -> Option<Seq<u8>>| #[trigger]
            reads_as(read, sector) ==> r == root_on_disk(sector),
        r matches Ok(root) ==> root.start_lba <= root.end_lba,
{
    let header: [u8; SECTOR] = match read(1) {
        Ok(h) => h,
        Err(_) => {
            return Err(GptError::InvalidHeader);
        },
    };
    if let Some(e) = check_header(header.as_slice()) {
        return Err(e);
    }
    let first: u64 = get_le64(header.as_slice(), 72);
    let entry_count: u32 = get_le32(header.as_slice(), 80);
    let size: u32 = get_le32(header.as_slice(), 84);
    proof {
        assert(entry_count * size <= 0xffff_ffff * 0xffff_ffff) by (nonlinear_arith)
            requires
                entry_count <= 0xffff_ffff,
                size <= 0xffff_ffff,
        ;
        assert(0 <= entry_count * size) by (nonlinear_arith);
    }
    let count: u64 = (entry_count as u64 * size as u64 + 511) / 512;
    if count > usize::MAX as u64 / 512 || first > u64::MAX - count {
        return Err(GptError::InvalidHeader);
    }
    let mut entries: Vec<u8> = Vec::new();
    let mut i: u64 = 0;
    while i < count
        invariant
            i <= count,
            first + count <= u64::MAX,
            forall|lba: u64| call_requires(read, (lba,)),
            forall|sector: spec_fn(u64) -> Option<Seq<u8>>| #[trigger]
                reads_as(read, sector) ==> {
                    &&& sector(1) == Some(header@)
                    &&& sectors_from(sector, first as int, i as nat) == Some(entries@)
                    &&& root_on_disk(sector) == match sectors_from(
                        sector,
                        first as int,
                        count as nat,
                    ) {
                        None => Err(GptError::InvalidHeader),
                        Some(all) => root_of(header@, all),
                    }
                },
        decreases count - i,
    {
        let ghost before = entries@;
        match read(first + i) {
            Err(_) => {
                assert forall|sector: spec_fn(u64) -> Option<Seq<u8>>| #[trigger]
                    reads_as(read, sector) implies root_on_disk(sector) == Err::<
                    RootPartition,
                    GptError,
                >(GptError::InvalidHeader) by {
                    assert(sectors_from(sector, first as int, (i + 1) as nat) is None);
                    lemma_unreadable(sector, first as int, (i + 1) as nat, count as nat);
                }
                return Err(GptError::InvalidHeader);
            },
            Ok(bytes) => {
                push_all(&mut entries, bytes.as_slice());
                assert forall|sector: spec_fn(u64) -> Option<Seq<u8>>| #[trigger]
                    reads_as(read, sector) implies sectors_from(
                    sector,
                    first as int,
                    (i + 1) as nat,
                ) == Some(entries@) by {
                    assert(sectors_from(sector, first as int, i as nat) == Some(before));
                }
            },
        }
        i += 1;
    }
    find_vanta_root(header.as_slice(), entries.as_slice())
}

proof fn lemma_unreadable(
    sector: spec_fn(u64) -> Option<Seq<u8>>,
    first: int,
    count: nat,
    more: nat,
)
    requires
        sectors_from(sector, first, count) is None,
        count <= more,
    ensures
        sectors_from(sector, first, more) is None,
    decreases more,
{
    if count < more {
        lemma_unreadable(sector, first, count, (more - 1) as nat);
    }
}

} // verus!
