//! Archives in the `newc` form of CPIO, as read-only file systems.
use vstd::prelude::*;
use vstd::slice::slice_subrange;

use crate::bytes::{self, bytes_equal, push_all, push_zeros};
use crate::elf::{self, make_test_elf};
use crate::text::{self, find_byte, is_text, text_bytes};

verus! {

pub const HEADER_SIZE: usize = 110;

pub const MODE_DIRECTORY: u32 = 0o040000;

pub const MODE_REGULAR: u32 = 0o100000;

pub const MODE_TYPE_MASK: u32 = 0o170000;

#[derive(Clone, Copy, Debug, PartialEq, Eq, Structural)]
pub enum FsError {
    Truncated,
    InvalidMagic,
    InvalidHeader,
    InvalidEntry,
    MissingTrailer,
    InvalidPath,
    NotFound,
    NotFile,
}

/// A file or a directory in an archive.
#[derive(Clone, Copy, Debug, PartialEq, Eq)]
pub struct Entry<'a> {
    pub name: &'a [u8],
    pub data: &'a [u8],
    pub mode: u32,
}

#[verifier::ext_equal]
pub struct EntryView {
    pub name: Seq<u8>,
    pub data: Seq<u8>,
    pub mode: u32,
}

impl<'a> View for Entry<'a> {
    type V = EntryView;

    open spec fn view(&self) -> EntryView {
        EntryView { name: self.name@, data: self.data@, mode: self.mode }
    }
}

impl EntryView {
    pub open spec fn directory(self) -> bool {
        self.mode & MODE_TYPE_MASK == MODE_DIRECTORY
    }

    pub open spec fn file(self) -> bool {
        self.mode & MODE_TYPE_MASK == MODE_REGULAR
    }

    pub open spec fn executable(self) -> bool {
        self.mode & 0o111 != 0
    }
}

impl<'a> Entry<'a> {
    pub fn is_directory(self) -> (r: bool)
        ensures
            r == self@.directory(),
    {
        self.mode & MODE_TYPE_MASK == MODE_DIRECTORY
    }

    pub fn is_file(self) -> (r: bool)
        ensures
            r == self@.file(),
    {
        self.mode & MODE_TYPE_MASK == MODE_REGULAR
    }

    pub fn is_executable(self) -> (r: bool)
        ensures
            r == self@.executable(),
    {
        self.mode & 0o111 != 0
    }
}

// ---------------------------------------------------------------------------
// Numbers in headers
// ---------------------------------------------------------------------------
pub open spec fn digit_of(byte: u8) -> Option<int> {
    if 0x30 <= byte <= 0x39 {
        Some(byte - 0x30)
    } else if 0x61 <= byte <= 0x66 {
        Some(byte - 0x61 + 10)
    } else if 0x41 <= byte <= 0x46 {
        Some(byte - 0x41 + 10)
    } else {
        None
    }
}

/// The number that hexadecimal digits stand for.
pub open spec fn hex_value(digits: Seq<u8>) -> Option<int>
    decreases digits.len(),
{
    if digits.len() == 0 {
        Some(0)
    } else {
        match (hex_value(digits.drop_last()), digit_of(digits.last())) {
            (Some(high), Some(low)) => Some(high * 16 + low),
            _ => None,
        }
    }
}

pub open spec fn digit_byte(digit: int) -> u8 {
    if digit < 10 {
        (digit + 0x30) as u8
    } else {
        (digit - 10 + 0x61) as u8
    }
}

/// A number in hexadecimal digits.
pub open spec fn hex_digits(value: int, count: nat) -> Seq<u8>
    decreases count,
{
    if count == 0 {
        Seq::empty()
    } else {
        hex_digits(value / 16, (count - 1) as nat).push(digit_byte(value % 16))
    }
}

pub open spec fn hex_limit(count: nat) -> int
    decreases count,
{
    if count == 0 {
        1
    } else {
        16 * hex_limit((count - 1) as nat)
    }
}

/// The digits of a number stand for the number.
pub proof fn law_hex_round_trip(value: int, count: nat)
    requires
        0 <= value < hex_limit(count),
    ensures
        hex_value(hex_digits(value, count)) == Some(value),
        hex_digits(value, count).len() == count,
    decreases count,
{
    if count > 0 {
        law_hex_round_trip(value / 16, (count - 1) as nat);
        let digits = hex_digits(value, count);
        assert(digits.drop_last() =~= hex_digits(value / 16, (count - 1) as nat));
        assert(digit_of(digit_byte(value % 16)) == Some(value % 16));
    }
}

proof fn lemma_limit()
    ensures
        hex_limit(8) == 0x1_0000_0000,
{
    reveal_with_fuel(hex_limit, 9);
}

fn parse_hex(bytes: &[u8], offset: usize) -> (r: Option<u32>)
    requires
        offset + 8 <= bytes@.len(),
    ensures
        match r {
            Some(value) => hex_value(bytes@.subrange(offset as int, offset + 8)) == Some(
                value as int,
            ),
            None => hex_value(bytes@.subrange(offset as int, offset + 8)) is None,
        },
{
    let ghost field = bytes@.subrange(offset as int, offset + 8);
    let mut value: u64 = 0;
    let mut i: usize = 0;
    assert(bytes@.len() == bytes.len());
    assert(field.take(0) =~= Seq::<u8>::empty());
    while i < 8
        invariant
            i <= 8,
            offset + 8 <= bytes@.len(),
            bytes@.len() == bytes.len(),
            field == bytes@.subrange(offset as int, offset + 8),
            hex_value(field.take(i as int)) == Some(value as int),
            value < hex_limit(i as nat),
        decreases 8 - i,
    {
        let byte: u8 = bytes[offset + i];
        proof {
            let upto = field.take(i + 1);
            assert(upto.drop_last() =~= field.take(i as int));
            assert(upto.last() == byte);
            lemma_limit();
            lemma_limit_grows(i as nat, 7);
            reveal_with_fuel(hex_limit, 2);
        }
        let digit: u64 = if byte >= 0x30 && byte <= 0x39 {
            (byte - 0x30) as u64
        } else if byte >= 0x61 && byte <= 0x66 {
            (byte - 0x61 + 10) as u64
        } else if byte >= 0x41 && byte <= 0x46 {
            (byte - 0x41 + 10) as u64
        } else {
            proof {
                lemma_no_number(field, i + 1);
            }
            return None;
        };
        value = value * 16 + digit;
        i += 1;
    }
    proof {
        lemma_limit();
        assert(field.take(8) =~= field);
    }
    Some(value as u32)
}

proof fn lemma_limit_grows(a: nat, b: nat)
    requires
        a <= b,
    ensures
        1 <= hex_limit(a) <= hex_limit(b),
    decreases b,
{
    if a < b {
        lemma_limit_grows(a, (b - 1) as nat);
    } else if a > 0 {
        lemma_limit_grows((a - 1) as nat, (a - 1) as nat);
    }
}

proof fn lemma_no_number(digits: Seq<u8>, upto: int)
    requires
        0 <= upto <= digits.len(),
        hex_value(digits.take(upto)) is None,
    ensures
        hex_value(digits) is None,
    decreases digits.len() - upto,
{
    if upto == digits.len() {
        assert(digits.take(upto) =~= digits);
    } else {
        assert(digits.take(upto + 1).drop_last() =~= digits.take(upto));
        lemma_no_number(digits, upto + 1);
    }
}

// ---------------------------------------------------------------------------
// Entries
// ---------------------------------------------------------------------------
pub open spec fn align4(value: int) -> int {
    (value + 3) / 4 * 4
}

/// The magic number of the form: `070701`.
pub open spec fn magic() -> Seq<u8> {
    seq![0x30u8, 0x37, 0x30, 0x37, 0x30, 0x31]
}

/// The name of the last entry: `TRAILER!!!`.
pub open spec fn trailer_name() -> Seq<u8> {
    seq![0x54u8, 0x52, 0x41, 0x49, 0x4c, 0x45, 0x52, 0x21, 0x21, 0x21]
}

/// What stands at a place in an archive.
pub enum Parsed {
    Fault(FsError),
    /// An entry whose name is refused, and where the next one starts.
    BadName(int),
    /// The end, and where it ends.
    Trailer(int),
    Item(EntryView, int),
}

pub open spec fn number_at(archive: Seq<u8>, at: int) -> Option<int> {
    hex_value(archive.subrange(at, at + 8))
}

#[verifier::opaque]
pub open spec fn parsed(archive: Seq<u8>, offset: int) -> Parsed {
    let name_start = offset + 110;
    if name_start > archive.len() {
        Parsed::Fault(FsError::Truncated)
    } else if archive.subrange(offset, offset + 6) != magic() {
        Parsed::Fault(
            if offset == 0 {
                FsError::InvalidMagic
            } else {
                FsError::InvalidHeader
            },
        )
    } else {
        match (
            number_at(archive, offset + 14),
            number_at(archive, offset + 54),
            number_at(archive, offset + 94),
        ) {
            (Some(mode), Some(file_size), Some(name_size)) => {
                let name_end = name_start + name_size;
                let data_start = align4(name_end);
                let data_end = data_start + file_size;
                if name_size == 0 {
                    Parsed::Fault(FsError::InvalidEntry)
                } else if name_end > archive.len() {
                    Parsed::Fault(FsError::Truncated)
                } else if archive[name_end - 1] != 0 {
                    Parsed::Fault(FsError::InvalidEntry)
                } else if data_end > archive.len() {
                    Parsed::Fault(FsError::Truncated)
                } else {
                    let name = archive.subrange(name_start, name_end - 1);
                    if name == trailer_name() {
                        Parsed::Trailer(align4(data_end))
                    } else if name.len() == 0 || name.contains(0) {
                        Parsed::BadName(align4(data_end))
                    } else {
                        Parsed::Item(
                            EntryView {
                                name,
                                data: archive.subrange(data_start, data_end),
                                mode: mode as u32,
                            },
                            align4(data_end),
                        )
                    }
                }
            },
            _ => Parsed::Fault(FsError::InvalidHeader),
        }
    }
}

/// A place in an archive, from which entries are read one by one.
pub struct Entries<'a> {
    pub archive: &'a [u8],
    pub offset: u128,
    pub trailer_seen: bool,
}

fn round4(value: u128) -> (r: u128)
    requires
        value <= 0x1_0000_0000_0000_0000_0000,
    ensures
        r == align4(value as int),
{
    (value + 3) / 4 * 4
}

fn has_zero(bytes: &[u8]) -> (r: bool)
    ensures
        r == bytes@.contains(0),
{
    let i: usize = find_byte(bytes, 0);
    assert(i < bytes@.len() ==> bytes@[i as int] == 0);
    i < bytes.len()
}

impl<'a> Entries<'a> {
    pub open spec fn wf(&self) -> bool {
        self.offset <= self.archive@.len() + 3
    }

    /// The entries of an archive, from its start.
    pub fn new(archive: &'a [u8]) -> (r: Self)
        ensures
            r.wf(),
            r.archive@ == archive@,
            r.offset == 0,
            !r.trailer_seen,
    {
        Entries { archive, offset: 0, trailer_seen: false }
    }

    /// The next entry; none after the last.
    pub fn next(&mut self) -> (r: Result<Option<Entry<'a>>, FsError>)
        requires
            old(self).wf(),
        ensures
            final(self).wf(),
            final(self).archive@ == old(self).archive@,
            old(self).trailer_seen ==> r == Ok::<Option<Entry<'a>>, FsError>(None)
                && *final(self) == *old(self),
            !old(self).trailer_seen ==> match parsed(
                old(self).archive@,
                old(self).offset as int,
            ) {
                Parsed::Fault(e) => r == Err::<Option<Entry<'a>>, FsError>(e) && *final(self)
                    == *old(self),
                Parsed::BadName(next) => r == Err::<Option<Entry<'a>>, FsError>(
                    FsError::InvalidEntry,
                ) && final(self).offset == next && !final(self).trailer_seen,
                Parsed::Trailer(next) => r == Ok::<Option<Entry<'a>>, FsError>(None)
                    && final(self).offset == next && final(self).trailer_seen,
                Parsed::Item(entry, next) => r matches Ok(Some(found)) && found@ == entry
                    && final(self).offset == next && !final(self).trailer_seen,
            },
    {
        if self.trailer_seen {
            return Ok(None);
        }
        proof {
            reveal(parsed);
        }
        let archive = self.archive;
        assert(archive@.len() == archive.len());
        if self.offset + 110 > archive.len() as u128 {
            return Err(FsError::Truncated);
        }
        let offset: usize = self.offset as usize;
        let name_start: usize = offset + HEADER_SIZE;
        let expected: [u8; 6] = [0x30, 0x37, 0x30, 0x37, 0x30, 0x31];
        assert(expected@ =~= magic());
        if !bytes_equal(slice_subrange(archive, offset, offset + 6), &expected) {
            return Err(
                if offset == 0 {
                    FsError::InvalidMagic
                } else {
                    FsError::InvalidHeader
                },
            );
        }
        let mode: u32 = match parse_hex(archive, offset + 14) {
            None => {
                return Err(FsError::InvalidHeader);
            },
            Some(value) => value,
        };
        let file_size: u32 = match parse_hex(archive, offset + 54) {
            None => {
                return Err(FsError::InvalidHeader);
            },
            Some(value) => value,
        };
        let name_size: u32 = match parse_hex(archive, offset + 94) {
            None => {
                return Err(FsError::InvalidHeader);
            },
            Some(value) => value,
        };
        if name_size == 0 {
            return Err(FsError::InvalidEntry);
        }
        let name_end: u128 = name_start as u128 + name_size as u128;
        if name_end > archive.len() as u128 {
            return Err(FsError::Truncated);
        }
        if archive[name_end as usize - 1] != 0 {
            return Err(FsError::InvalidEntry);
        }
        let name = slice_subrange(archive, name_start, name_end as usize - 1);
        let data_start: u128 = round4(name_end);
        let data_end: u128 = data_start + file_size as u128;
        if data_end > archive.len() as u128 {
            return Err(FsError::Truncated);
        }
        let data = slice_subrange(archive, data_start as usize, data_end as usize);
        self.offset = round4(data_end);
        let last: [u8; 10] = [0x54, 0x52, 0x41, 0x49, 0x4c, 0x45, 0x52, 0x21, 0x21, 0x21];
        assert(last@ =~= trailer_name());
        if bytes_equal(name, &last) {
            self.trailer_seen = true;
            return Ok(None);
        }
        if name.len() == 0 || has_zero(name) {
            return Err(FsError::InvalidEntry);
        }
        Ok(Some(Entry { name, data, mode }))
    }
}

/// All entries from a place on.
pub open spec fn all_entries(archive: Seq<u8>, offset: int) -> Result<Seq<EntryView>, FsError>
    decreases archive.len() + 4 - offset,
{
    match parsed(archive, offset) {
        Parsed::Fault(e) => Err(e),
        Parsed::BadName(_) => Err(FsError::InvalidEntry),
        Parsed::Trailer(_) => Ok(Seq::empty()),
        Parsed::Item(entry, next) => if next <= offset || next > archive.len() + 3 {
            Err(FsError::InvalidEntry)
        } else {
            match all_entries(archive, next) {
                Err(e) => Err(e),
                Ok(rest) => Ok(seq![entry] + rest),
            }
        },
    }
}

/// The first entry of a name, from a place on.
pub open spec fn found(archive: Seq<u8>, offset: int, name: Seq<u8>) -> Result<EntryView, FsError>
    decreases archive.len() + 4 - offset,
{
    match parsed(archive, offset) {
        Parsed::Fault(e) => Err(e),
        Parsed::BadName(_) => Err(FsError::InvalidEntry),
        Parsed::Trailer(_) => Err(FsError::NotFound),
        Parsed::Item(entry, next) => if next <= offset || next > archive.len() + 3 {
            Err(FsError::InvalidEntry)
        } else if entry.name == name {
            Ok(entry)
        } else {
            found(archive, next, name)
        },
    }
}

proof fn lemma_advances(archive: Seq<u8>, offset: int)
    requires
        0 <= offset,
    ensures
        parsed(archive, offset) matches Parsed::Item(_, next) ==> next > offset && next
            <= archive.len() + 3,
{
    reveal(parsed);
    if offset + 110 <= archive.len() {
        let field = archive.subrange(offset + 94, offset + 102);
        let size = archive.subrange(offset + 54, offset + 62);
        lemma_value_positive(field);
        lemma_value_positive(size);
    }
}

proof fn lemma_value_positive(digits: Seq<u8>)
    ensures
        hex_value(digits) matches Some(value) ==> value >= 0,
    decreases digits.len(),
{
    if digits.len() > 0 {
        lemma_value_positive(digits.drop_last());
    }
}

/// In an archive that can be read to its end, a name leads to the first entry
/// of that name, and to nothing only where there is none.
pub proof fn law_found_is_first(archive: Seq<u8>, offset: int, name: Seq<u8>)
    requires
        0 <= offset,
        all_entries(archive, offset) is Ok,
    ensures
        ({
            let entries = all_entries(archive, offset)->Ok_0;
            match found(archive, offset, name) {
                Ok(entry) => exists|i: int|
                    0 <= i < entries.len() && #[trigger] entries[i] == entry && entry.name == name
                        && forall|j: int| 0 <= j < i ==> (#[trigger] entries[j]).name != name,
                Err(e) => e == FsError::NotFound && forall|j: int|
                    0 <= j < entries.len() ==> (#[trigger] entries[j]).name != name,
            }
        }),
    decreases archive.len() + 4 - offset,
{
    if let Parsed::Item(entry, next) = parsed(archive, offset) {
        let entries = all_entries(archive, offset)->Ok_0;
        let rest = all_entries(archive, next)->Ok_0;
        assert(entries =~= seq![entry] + rest);
        assert(entries[0] == entry);
        if entry.name != name {
            law_found_is_first(archive, next, name);
            if found(archive, next, name) is Ok {
                let i = choose|i: int|
                    0 <= i < rest.len() && #[trigger] rest[i] == found(archive, next, name)->Ok_0
                        && rest[i].name == name && forall|j: int|
                        0 <= j < i ==> (#[trigger] rest[j]).name != name;
                assert(entries[i + 1] == rest[i]);
                assert forall|j: int| 0 <= j < i + 1 implies (#[trigger] entries[j]).name
                    != name by {
                    if j > 0 {
                        assert(entries[j] == rest[j - 1]);
                    }
                }
            } else {
                assert forall|j: int| 0 <= j < entries.len() implies (#[trigger] entries[j]).name
                    != name by {
                    if j > 0 {
                        assert(entries[j] == rest[j - 1]);
                    }
                }
            }
        }
    }
}

// ---------------------------------------------------------------------------
// Paths
// ---------------------------------------------------------------------------
pub open spec fn without_slashes(path: Seq<u8>) -> Seq<u8>
    decreases path.len(),
{
    if path.len() > 0 && path[0] == 0x2f {
        without_slashes(path.skip(1))
    } else {
        path
    }
}

pub open spec fn bad_component(part: Seq<u8>) -> bool {
    part.len() == 0 || part == text::utf8("."@) || part == text::utf8(".."@)
}

pub open spec fn is_clean(path: Seq<u8>) -> bool {
    forall|i: int| 0 <= i < text::split(path, 0x2f).len() ==> !bad_component(#[trigger] text::split(path, 0x2f)[i])
}

/// A path without the slashes at its start. It may not lead out of itself.
pub open spec fn normalized(path: Seq<u8>) -> Result<Seq<u8>, FsError> {
    let rest = without_slashes(path);
    if rest.len() == 0 || is_clean(rest) {
        Ok(rest)
    } else {
        Err(FsError::InvalidPath)
    }
}

fn check_components(path: &[u8]) -> (r: bool)
    ensures
        r == is_clean(path@),
    decreases path@.len(),
{
    let i: usize = find_byte(path, 0x2f);
    assert(path@.len() == path.len());
    if i >= path.len() {
        assert(text::split(path@, 0x2f) =~= seq![path@]);
        assert(text::split(path@, 0x2f)[0] == path@);
        return !(path.len() == 0 || is_text(path, ".") || is_text(path, ".."));
    }
    let part = slice_subrange(path, 0, i);
    let rest = slice_subrange(path, i + 1, path.len());
    assert(part@ =~= path@.take(i as int));
    assert(rest@ =~= path@.skip(i + 1));
    let ghost parts = text::split(path@, 0x2f);
    assert(parts =~= seq![part@] + text::split(rest@, 0x2f));
    assert(parts[0] == part@);
    if part.len() == 0 || is_text(part, ".") || is_text(part, "..") {
        return false;
    }
    let ok: bool = check_components(rest);
    proof {
        let more = text::split(rest@, 0x2f);
        if ok {
            assert forall|k: int| 0 <= k < parts.len() implies !bad_component(
                #[trigger] parts[k],
            ) by {
                if k > 0 {
                    assert(parts[k] == more[k - 1]);
                }
            }
        } else {
            let k = choose|k: int| 0 <= k < more.len() && bad_component(#[trigger] more[k]);
            assert(parts[k + 1] == more[k]);
        }
    }
    ok
}

fn normalize_path(path: &[u8]) -> (r: Result<&[u8], FsError>)
    ensures
        match r {
            Ok(rest) => normalized(path@) == Ok::<Seq<u8>, FsError>(rest@),
            Err(e) => normalized(path@) == Err::<Seq<u8>, FsError>(e),
        },
{
    let mut rest = path;
    while rest.len() > 0 && rest[0] == 0x2f
        invariant
            without_slashes(path@) == without_slashes(rest@),
        decreases rest@.len(),
    {
        let ghost before = rest@;
        rest = slice_subrange(rest, 1, rest.len());
        assert(rest@ =~= before.skip(1));
    }
    assert(rest@.len() == rest.len());
    if rest.len() == 0 {
        return Ok(rest);
    }
    if check_components(rest) {
        Ok(rest)
    } else {
        Err(FsError::InvalidPath)
    }
}

// ---------------------------------------------------------------------------
// The file system
// ---------------------------------------------------------------------------
#[derive(Clone, Copy)]
pub struct FileSystem<'a> {
    pub archive: &'a [u8],
    pub entry_count: usize,
}

/// The entry that a path leads to; the root is none.
pub open spec fn resolved(archive: Seq<u8>, path: Seq<u8>) -> Result<EntryView, FsError> {
    match normalized(path) {
        Err(e) => Err(e),
        Ok(rest) => if rest.len() == 0 {
            Err(FsError::NotFile)
        } else {
            found(archive, 0, rest)
        },
    }
}

impl<'a> FileSystem<'a> {
    /// An archive that can be read to its end.
    pub fn new(archive: &'a [u8]) -> (r: Result<Self, FsError>)
        ensures
            match r {
                Ok(fs) => fs.archive@ == archive@ && (all_entries(archive@, 0) matches Ok(entries)
                    && entries.len() == fs.entry_count),
                Err(e) => all_entries(archive@, 0) == Err::<Seq<EntryView>, FsError>(e),
            },
    {
        let mut entries = Entries::new(archive);
        let mut count: usize = 0;
        loop
            invariant
                entries.wf(),
                entries.archive@ == archive@,
                !entries.trailer_seen,
                count * 110 <= entries.offset,
                match (all_entries(archive@, 0), all_entries(archive@, entries.offset as int)) {
                    (Ok(all), Ok(rest)) => all.len() == count + rest.len(),
                    (Err(e), Err(f)) => e == f,
                    _ => false,
                },
            decreases archive@.len() + 4 - entries.offset,
        {
            let ghost before = entries.offset as int;
            proof {
                lemma_advances(archive@, before);
                lemma_far(archive@, before);
            }
            match entries.next() {
                Err(e) => {
                    return Err(e);
                },
                Ok(None) => {
                    return Ok(FileSystem { archive, entry_count: count });
                },
                Ok(Some(_)) => {
                    assert(archive@.len() == archive.len());
                    count += 1;
                },
            }
        }
    }

    pub fn entry_count(self) -> (r: usize)
        ensures
            r == self.entry_count,
    {
        self.entry_count
    }

    fn find_bytes(self, path: &[u8]) -> (r: Result<Entry<'a>, FsError>)
        ensures
            match r {
                Ok(entry) => found(self.archive@, 0, path@) == Ok::<EntryView, FsError>(entry@),
                Err(e) => found(self.archive@, 0, path@) == Err::<EntryView, FsError>(e),
            },
    {
        let archive = self.archive;
        let mut entries = Entries::new(archive);
        loop
            invariant
                entries.wf(),
                entries.archive@ == archive@,
                archive@ == self.archive@,
                !entries.trailer_seen,
                found(archive@, 0, path@) == found(archive@, entries.offset as int, path@),
            decreases archive@.len() + 4 - entries.offset,
        {
            proof {
                lemma_advances(archive@, entries.offset as int);
            }
            match entries.next() {
                Err(e) => {
                    return Err(e);
                },
                Ok(None) => {
                    return Err(FsError::NotFound);
                },
                Ok(Some(entry)) => {
                    if bytes_equal(entry.name, path) {
                        return Ok(entry);
                    }
                },
            }
        }
    }

    fn find(self, path: &str) -> (r: Result<Entry<'a>, FsError>)
        ensures
            match r {
                Ok(entry) => resolved(self.archive@, text::utf8(path@)) == Ok::<EntryView, FsError>(
                    entry@,
                ),
                Err(e) => resolved(self.archive@, text::utf8(path@)) == Err::<EntryView, FsError>(e),
            },
    {
        let text: Vec<u8> = text_bytes(path);
        match normalize_path(text.as_slice()) {
            Err(e) => Err(e),
            Ok(rest) => if rest.len() == 0 {
                Err(FsError::NotFile)
            } else {
                self.find_bytes(rest)
            },
        }
    }

    /// The contents of a file.
    pub fn read(self, path: &str) -> (r: Result<&'a [u8], FsError>)
        ensures
            match (resolved(self.archive@, text::utf8(path@)), r) {
                (Ok(entry), Ok(data)) => entry.file() && data@ == entry.data,
                (Ok(entry), Err(e)) => !entry.file() && e == FsError::NotFile,
                (Err(e), Err(f)) => e == f,
                (Err(_), Ok(_)) => false,
            },
    {
        match self.find(path) {
            Err(e) => Err(e),
            Ok(entry) => if !entry.is_file() {
                Err(FsError::NotFile)
            } else {
                Ok(entry.data)
            },
        }
    }

    pub fn is_directory(self, path: &str) -> (r: Result<bool, FsError>)
        ensures
            r == match normalized(text::utf8(path@)) {
                Err(e) => Err::<bool, FsError>(e),
                Ok(rest) => if rest.len() == 0 {
                    Ok(true)
                } else {
                    match found(self.archive@, 0, rest) {
                        Err(e) => Err(e),
                        Ok(entry) => Ok(entry.directory()),
                    }
                },
            },
    {
        let text: Vec<u8> = text_bytes(path);
        match normalize_path(text.as_slice()) {
            Err(e) => Err(e),
            Ok(rest) => if rest.len() == 0 {
                Ok(true)
            } else {
                match self.find_bytes(rest) {
                    Err(e) => Err(e),
                    Ok(entry) => Ok(entry.is_directory()),
                }
            },
        }
    }

    pub fn is_executable(self, path: &str) -> (r: Result<bool, FsError>)
        ensures
            r == match normalized(text::utf8(path@)) {
                Err(e) => Err::<bool, FsError>(e),
                Ok(rest) => match found(self.archive@, 0, rest) {
                    Err(e) => Err(e),
                    Ok(entry) => Ok(entry.executable()),
                },
            },
    {
        let text: Vec<u8> = text_bytes(path);
        match normalize_path(text.as_slice()) {
            Err(e) => Err(e),
            Ok(rest) => match self.find_bytes(rest) {
                Err(e) => Err(e),
                Ok(entry) => Ok(entry.is_executable()),
            },
        }
    }
}

proof fn lemma_far(archive: Seq<u8>, offset: int)
    requires
        0 <= offset,
    ensures
        parsed(archive, offset) matches Parsed::Item(_, next) ==> next >= offset + 110 && offset
            + 110 <= archive.len(),
{
    reveal(parsed);
    if offset + 110 <= archive.len() {
        lemma_value_positive(archive.subrange(offset + 94, offset + 102));
        lemma_value_positive(archive.subrange(offset + 54, offset + 62));
    }
}

// ---------------------------------------------------------------------------
// Making archives
// ---------------------------------------------------------------------------
pub open spec fn hex8(value: int) -> Seq<u8> {
    hex_digits(value, 8)
}

/// The header of an entry.
#[verifier::opaque]
pub open spec fn header(mode: u32, data_length: int, name_length: int) -> Seq<u8> {
    magic() + hex8(1) + hex8(mode as int) + hex8(0) + hex8(0) + hex8(1) + hex8(0) + hex8(
        data_length,
    ) + hex8(0) + hex8(0) + hex8(0) + hex8(0) + hex8(name_length) + hex8(0)
}

/// An entry that starts at a multiple of four.
#[verifier::opaque]
pub open spec fn entry_bytes(name: Seq<u8>, mode: u32, data: Seq<u8>) -> Seq<u8> {
    let head = header(mode, data.len() as int, name.len() as int + 1) + name + seq![0u8];
    let filled = head + bytes::zeros((align4(head.len() as int) - head.len()) as nat) + data;
    filled + bytes::zeros((align4(filled.len() as int) - filled.len()) as nat)
}

pub(crate) fn push_digit(v: &mut Vec<u8>, digit: u32)
    requires
        digit < 16,
    ensures
        final(v)@ == old(v)@.push(digit_byte(digit as int)),
{
    if digit < 10 {
        v.push((digit + 0x30) as u8);
    } else {
        v.push((digit - 10 + 0x61) as u8);
    }
}

fn push_hex(v: &mut Vec<u8>, value: u32)
    ensures
        final(v)@ == old(v)@ + hex8(value as int),
{
    let ghost before = v@;
    let v1: u32 = value / 16;
    let v2: u32 = v1 / 16;
    let v3: u32 = v2 / 16;
    let v4: u32 = v3 / 16;
    let v5: u32 = v4 / 16;
    let v6: u32 = v5 / 16;
    let v7: u32 = v6 / 16;
    push_digit(v, v7 % 16);
    push_digit(v, v6 % 16);
    push_digit(v, v5 % 16);
    push_digit(v, v4 % 16);
    push_digit(v, v3 % 16);
    push_digit(v, v2 % 16);
    push_digit(v, v1 % 16);
    push_digit(v, value % 16);
    proof {
        reveal_with_fuel(hex_digits, 9);
        assert(v@ =~= before + hex8(value as int));
    }
}

fn make_header(mode: u32, data_length: u32, name_length: u32) -> (r: Vec<u8>)
    ensures
        r@ == header(mode, data_length as int, name_length as int),
{
    proof {
        reveal(header);
    }
    let mut h: Vec<u8> = Vec::new();
    let prefix: [u8; 6] = [0x30, 0x37, 0x30, 0x37, 0x30, 0x31];
    push_all(&mut h, &prefix);
    assert(h@ =~= magic());
    push_hex(&mut h, 1);
    push_hex(&mut h, mode);
    push_hex(&mut h, 0);
    push_hex(&mut h, 0);
    push_hex(&mut h, 1);
    push_hex(&mut h, 0);
    push_hex(&mut h, data_length);
    push_hex(&mut h, 0);
    push_hex(&mut h, 0);
    push_hex(&mut h, 0);
    push_hex(&mut h, 0);
    push_hex(&mut h, name_length);
    push_hex(&mut h, 0);
    h
}

/// Puts an entry at the end of an archive.
pub fn append_entry(archive: &mut Vec<u8>, name: &[u8], mode: u32, data: &[u8])
    requires
        old(archive)@.len() % 4 == 0,
        name@.len() < u32::MAX,
        data@.len() <= u32::MAX,
        old(archive)@.len() + entry_bytes(name@, mode, data@).len() <= usize::MAX,
    ensures
        final(archive)@ == old(archive)@ + entry_bytes(name@, mode, data@),
        final(archive)@.len() % 4 == 0,
{
    let ghost before = archive@;
    assert(name@.len() == name.len() && data@.len() == data.len());
    proof {
        reveal(entry_bytes);
        lemma_header_length(mode, data@.len() as int, name@.len() as int + 1);
    }
    let h: Vec<u8> = make_header(mode, data.len() as u32, (name.len() + 1) as u32);
    let ghost head = h@ + name@ + seq![0u8];
    let ghost pad = bytes::zeros((align4(head.len() as int) - head.len()) as nat);
    let ghost filled = head + pad + data@;
    push_all(archive, h.as_slice());
    push_all(archive, name);
    archive.push(0);
    proof {
        lemma_assoc(before, h@, name@);
        lemma_assoc(before, h@ + name@, seq![0u8]);
        assert(archive@ == before + head);
    }
    let first: usize = (4 - archive.len() % 4) % 4;
    push_zeros(archive, first);
    push_all(archive, data);
    proof {
        assert(first == align4(head.len() as int) - head.len());
        lemma_assoc(before, head, pad);
        lemma_assoc(before, head + pad, data@);
        assert(archive@ == before + filled);
    }
    let second: usize = (4 - archive.len() % 4) % 4;
    push_zeros(archive, second);
    proof {
        assert(second == align4(filled.len() as int) - filled.len());
        lemma_assoc(before, filled, bytes::zeros(second as nat));
    }
}

proof fn lemma_assoc(a: Seq<u8>, b: Seq<u8>, c: Seq<u8>)
    ensures
        (a + b) + c == a + (b + c),
        c.len() == 1 ==> (a + b).push(c[0]) == a + (b + c),
{
    assert((a + b) + c =~= a + (b + c));
    if c.len() == 1 {
        assert((a + b).push(c[0]) =~= a + (b + c));
    }
}

proof fn lemma_hex_length(value: int, count: nat)
    ensures
        hex_digits(value, count).len() == count,
    decreases count,
{
    if count > 0 {
        lemma_hex_length(value / 16, (count - 1) as nat);
    }
}

proof fn lemma_header_length(mode: u32, data_length: int, name_length: int)
    ensures
        header(mode, data_length, name_length).len() == 110,
{
    reveal(header);
    lemma_hex_length(1, 8);
    lemma_hex_length(mode as int, 8);
    lemma_hex_length(0, 8);
    lemma_hex_length(data_length, 8);
    lemma_hex_length(name_length, 8);
}

/// Reading an entry that was put into an archive gives it back, whatever is
/// before and after it.
#[verifier::rlimit(60)]
pub proof fn law_entry_round_trip(
    before: Seq<u8>,
    name: Seq<u8>,
    mode: u32,
    data: Seq<u8>,
    after: Seq<u8>,
)
    requires
        before.len() % 4 == 0,
        name.len() < u32::MAX,
        data.len() <= u32::MAX,
    ensures
        ({
            let next = before.len() as int + entry_bytes(name, mode, data).len();
            parsed(before + entry_bytes(name, mode, data) + after, before.len() as int) == if name
                == trailer_name() {
                Parsed::Trailer(next)
            } else if name.len() == 0 || name.contains(0) {
                Parsed::BadName(next)
            } else {
                Parsed::Item(EntryView { name, data, mode }, next)
            }
        }),
{
    let o = before.len() as int;
    let e = entry_bytes(name, mode, data);
    let a = before + e + after;
    let h = header(mode, data.len() as int, name.len() as int + 1);
    let n = name.len() as int;
    let start = align4(111 + n);
    lemma_header_fields(mode, data.len() as int, n + 1);
    lemma_entry_parts(name, mode, data);
    lemma_limit();
    law_hex_round_trip(mode as int, 8);
    law_hex_round_trip(data.len() as int, 8);
    law_hex_round_trip(n + 1, 8);
    lemma_inside(before, e, after, 0, 6);
    lemma_inside(before, e, after, 14, 22);
    lemma_inside(before, e, after, 54, 62);
    lemma_inside(before, e, after, 94, 102);
    lemma_inside(before, e, after, 110, 110 + n);
    lemma_inside(before, e, after, start, start + data.len());
    lemma_head(e, h, 0, 6);
    lemma_head(e, h, 14, 22);
    lemma_head(e, h, 54, 62);
    lemma_head(e, h, 94, 102);
    assert(a[o + 110 + n] == e[110 + n]);
    assert(align4(o + 111 + n) == o + start);
    assert(align4(o + start + data.len()) == o + e.len());
    lemma_parsed(a, o, name, mode, data);
}

proof fn lemma_parsed(a: Seq<u8>, o: int, name: Seq<u8>, mode: u32, data: Seq<u8>)
    requires
        0 <= o,
        a.subrange(o, o + 6) == magic(),
        number_at(a, o + 14) == Some(mode as int),
        number_at(a, o + 54) == Some(data.len() as int),
        number_at(a, o + 94) == Some(name.len() as int + 1),
        align4(o + 111 + name.len()) + data.len() <= a.len(),
        a[o + 110 + name.len()] == 0,
        a.subrange(o + 110, o + 110 + name.len()) == name,
        a.subrange(
            align4(o + 111 + name.len()),
            align4(o + 111 + name.len()) + data.len(),
        ) == data,
    ensures
        ({
            let next = align4(align4(o + 111 + name.len()) + data.len());
            parsed(a, o) == if name == trailer_name() {
                Parsed::Trailer(next)
            } else if name.len() == 0 || name.contains(0) {
                Parsed::BadName(next)
            } else {
                Parsed::Item(EntryView { name, data, mode }, next)
            }
        }),
{
    reveal(parsed);
}

proof fn lemma_inside(before: Seq<u8>, e: Seq<u8>, after: Seq<u8>, i: int, j: int)
    requires
        0 <= i <= j <= e.len(),
    ensures
        (before + e + after).subrange(before.len() + i, before.len() + j) == e.subrange(i, j),
{
    assert((before + e + after).subrange(before.len() + i, before.len() + j) =~= e.subrange(i, j));
}

proof fn lemma_head(e: Seq<u8>, h: Seq<u8>, i: int, j: int)
    requires
        0 <= i <= j <= h.len() <= e.len(),
        e.subrange(0, h.len() as int) == h,
    ensures
        e.subrange(i, j) == h.subrange(i, j),
{
    assert(e.subrange(i, j) =~= e.subrange(0, h.len() as int).subrange(i, j));
}

proof fn lemma_entry_parts(name: Seq<u8>, mode: u32, data: Seq<u8>)
    ensures
        ({
            let e = entry_bytes(name, mode, data);
            let n = name.len() as int;
            let start = align4(111 + n);
            &&& e.len() == align4(start + data.len())
            &&& e.subrange(0, 110) == header(mode, data.len() as int, n + 1)
            &&& e.subrange(110, 110 + n) == name
            &&& e[110 + n] == 0
            &&& e.subrange(start, start + data.len()) == data
        }),
{
    reveal(entry_bytes);
    let e = entry_bytes(name, mode, data);
    let n = name.len() as int;
    let h = header(mode, data.len() as int, n + 1);
    lemma_header_length(mode, data.len() as int, n + 1);
    let head = h + name + seq![0u8];
    let start = align4(111 + n);
    let filled = head + bytes::zeros((start - head.len()) as nat) + data;
    assert(head.len() == 111 + n);
    assert(filled.len() == start + data.len());
    assert(filled.subrange(0, 111 + n) =~= head);
    assert(filled.subrange(start, start + data.len()) =~= data);
    assert(e.subrange(0, filled.len() as int) =~= filled);
    assert(head.subrange(0, 110) =~= h);
    assert(head.subrange(110, 110 + n) =~= name);
    assert(e.subrange(0, 110) =~= e.subrange(0, filled.len() as int).subrange(0, 111 + n).subrange(
        0,
        110,
    ));
    assert(e.subrange(110, 110 + n) =~= e.subrange(0, filled.len() as int).subrange(
        0,
        111 + n,
    ).subrange(110, 110 + n));
    assert(e[110 + n] == filled.subrange(0, 111 + n)[110 + n]);
    assert(e.subrange(start, start + data.len()) =~= e.subrange(0, filled.len() as int).subrange(
        start,
        start + data.len(),
    ));
}

/// Fields of a header are where they belong.
proof fn lemma_header_fields(mode: u32, data_length: int, name_length: int)
    ensures
        ({
            let h = header(mode, data_length, name_length);
            &&& h.len() == 110
            &&& h.subrange(0, 6) == magic()
            &&& h.subrange(14, 22) == hex8(mode as int)
            &&& h.subrange(54, 62) == hex8(data_length)
            &&& h.subrange(94, 102) == hex8(name_length)
        }),
{
    reveal(header);
    lemma_hex_length(1, 8);
    lemma_hex_length(mode as int, 8);
    lemma_hex_length(0, 8);
    lemma_hex_length(data_length, 8);
    lemma_hex_length(name_length, 8);
    lemma_fields(
        magic(),
        hex8(1),
        hex8(mode as int),
        hex8(0),
        hex8(data_length),
        hex8(name_length),
    );
}

proof fn lemma_fields(
    m: Seq<u8>,
    one: Seq<u8>,
    mode: Seq<u8>,
    none: Seq<u8>,
    data_length: Seq<u8>,
    name_length: Seq<u8>,
)
    requires
        m.len() == 6,
        one.len() == 8,
        mode.len() == 8,
        none.len() == 8,
        data_length.len() == 8,
        name_length.len() == 8,
    ensures
        ({
            let first = m + one + mode;
            let second = first + none + none + one + none + data_length;
            let h = second + none + none + none + none + name_length + none;
            &&& h.len() == 110
            &&& h.subrange(0, 6) == m
            &&& h.subrange(14, 22) == mode
            &&& h.subrange(54, 62) == data_length
            &&& h.subrange(94, 102) == name_length
        }),
{
    let first = m + one + mode;
    let second = first + none + none + one + none + data_length;
    let third = second + none + none + none + none + name_length;
    let h = third + none;
    assert(first.subrange(14, 22) =~= mode);
    assert(first.subrange(0, 6) =~= m);
    assert(second.subrange(0, 22) =~= first);
    assert(second.subrange(54, 62) =~= data_length);
    assert(third.subrange(0, 62) =~= second);
    assert(third.subrange(94, 102) =~= name_length);
    assert(h.subrange(0, 102) =~= third);
    assert(h.subrange(94, 102) =~= third.subrange(94, 102));
    assert(h.subrange(54, 62) =~= h.subrange(0, 102).subrange(0, 62).subrange(54, 62));
    assert(h.subrange(14, 22) =~= h.subrange(0, 102).subrange(0, 62).subrange(0, 22).subrange(
        14,
        22,
    ));
    assert(h.subrange(0, 6) =~= h.subrange(0, 102).subrange(0, 62).subrange(0, 22).subrange(0, 6));
}

/// The names and contents of the first file system.
pub open spec fn initramfs_entries() -> Seq<EntryView> {
    seq![
        EntryView {
            name: seq![0x62u8, 0x69, 0x6e],
            data: Seq::empty(),
            mode: MODE_DIRECTORY | 0o755,
        },
        EntryView {
            name: seq![0x62u8, 0x69, 0x6e, 0x2f, 0x69, 0x6e, 0x69, 0x74],
            data: elf::test_image(),
            mode: MODE_REGULAR | 0o755,
        },
        EntryView {
            name: seq![0x65u8, 0x74, 0x63],
            data: Seq::empty(),
            mode: MODE_DIRECTORY | 0o755,
        },
        EntryView {
            name: seq![0x65u8, 0x74, 0x63, 0x2f, 0x6d, 0x6f, 0x74, 0x64],
            data: seq![
                0x56u8, 0x61, 0x6e, 0x74, 0x61, 0x20, 0x69, 0x6e, 0x69, 0x74, 0x72, 0x61, 0x6d,
                0x66, 0x73, 0x0a,
            ],
            mode: MODE_REGULAR | 0o644,
        },
    ]
}

/// The bytes of entries, one after the other.
pub open spec fn archived(entries: Seq<EntryView>) -> Seq<u8>
    decreases entries.len(),
{
    if entries.len() == 0 {
        Seq::empty()
    } else {
        archived(entries.drop_last()) + entry_bytes(
            entries.last().name,
            entries.last().mode,
            entries.last().data,
        )
    }
}

pub open spec fn is_plain(e: EntryView) -> bool {
    &&& 0 < e.name.len() < u32::MAX
    &&& e.data.len() <= u32::MAX
    &&& !e.name.contains(0)
    &&& e.name != trailer_name()
}

proof fn lemma_entry_length(name: Seq<u8>, mode: u32, data: Seq<u8>)
    ensures
        entry_bytes(name, mode, data).len() % 4 == 0,
        entry_bytes(name, mode, data).len() >= 110 + name.len() + data.len(),
        entry_bytes(name, mode, data).len() <= 117 + name.len() + data.len(),
{
    reveal(entry_bytes);
    lemma_header_length(mode, data.len() as int, name.len() as int + 1);
}

proof fn lemma_archived_length(entries: Seq<EntryView>)
    ensures
        archived(entries).len() % 4 == 0,
    decreases entries.len(),
{
    if entries.len() > 0 {
        lemma_archived_length(entries.drop_last());
        lemma_entry_length(entries.last().name, entries.last().mode, entries.last().data);
    }
}

/// Everything that was put into an archive comes out of it again, in order.
pub proof fn law_archive_round_trip(entries: Seq<EntryView>, from: int, tail: Seq<u8>)
    requires
        0 <= from <= entries.len(),
        forall|i: int| 0 <= i < entries.len() ==> is_plain(#[trigger] entries[i]),
    ensures
        all_entries(
            archived(entries) + entry_bytes(trailer_name(), 0, Seq::empty()) + tail,
            archived(entries.take(from)).len() as int,
        ) == Ok::<Seq<EntryView>, FsError>(entries.skip(from)),
    decreases entries.len() - from,
{
    let last = entry_bytes(trailer_name(), 0, Seq::empty());
    let a = archived(entries) + last + tail;
    let o = archived(entries.take(from)).len() as int;
    lemma_archived_length(entries.take(from));
    if from == entries.len() {
        assert(entries.take(from) =~= entries);
        law_entry_round_trip(archived(entries), trailer_name(), 0, Seq::empty(), tail);
        assert(entries.skip(from) =~= Seq::<EntryView>::empty());
    } else {
        let e = entries[from];
        assert(is_plain(e));
        let upto = entries.take(from + 1);
        assert(upto.drop_last() =~= entries.take(from));
        assert(upto.last() == e);
        lemma_archived_prefix(entries, from + 1);
        let rest = archived(entries).skip(archived(upto).len() as int) + last + tail;
        assert(a =~= archived(entries.take(from)) + entry_bytes(e.name, e.mode, e.data) + rest);
        law_entry_round_trip(archived(entries.take(from)), e.name, e.mode, e.data, rest);
        lemma_entry_length(e.name, e.mode, e.data);
        law_archive_round_trip(entries, from + 1, tail);
        assert(entries.skip(from) =~= seq![e] + entries.skip(from + 1));
        assert(EntryView { name: e.name, data: e.data, mode: e.mode } == e);
    }
}

proof fn lemma_archived_prefix(entries: Seq<EntryView>, upto: int)
    requires
        0 <= upto <= entries.len(),
    ensures
        archived(entries.take(upto)).len() <= archived(entries).len(),
        archived(entries).take(archived(entries.take(upto)).len() as int) == archived(
            entries.take(upto),
        ),
    decreases entries.len() - upto,
{
    let part = archived(entries.take(upto));
    if upto == entries.len() {
        assert(entries.take(upto) =~= entries);
        assert(part.take(part.len() as int) =~= part);
    } else {
        lemma_archived_prefix(entries, upto + 1);
        let more = entries.take(upto + 1);
        assert(more.drop_last() =~= entries.take(upto));
        let longer = archived(more);
        assert(longer.take(part.len() as int) =~= part);
        assert(archived(entries).take(part.len() as int) =~= archived(entries).take(
            longer.len() as int,
        ).take(part.len() as int));
    }
}

/// An entry of an archive that is cut off stands as it was, with its data, or
/// is found to be cut.
#[verifier::rlimit(40)]
proof fn lemma_cut(a: Seq<u8>, o: int, n: int)
    requires
        0 <= o,
        0 <= n <= a.len(),
        parsed(a, o) is Item || parsed(a, o) is Trailer,
    ensures
        parsed(a.take(n), o) == Parsed::Fault(FsError::Truncated) || parsed(a.take(n), o) == parsed(
            a,
            o,
        ),
        parsed(a.take(n), o) is Fault || align4(o + 110 + number_at(a, o + 94)->0) + number_at(
            a,
            o + 54,
        )->0 <= n,
        parsed(a.take(n), o) matches Parsed::Item(_, next) ==> next <= n + 3,
{
    reveal(parsed);
    let c = a.take(n);
    if o + 110 <= n {
        lemma_value_positive(a.subrange(o + 94, o + 102));
        lemma_value_positive(a.subrange(o + 54, o + 62));
        assert(c.subrange(o, o + 6) =~= a.subrange(o, o + 6));
        assert(c.subrange(o + 14, o + 22) =~= a.subrange(o + 14, o + 22));
        assert(c.subrange(o + 54, o + 62) =~= a.subrange(o + 54, o + 62));
        assert(c.subrange(o + 94, o + 102) =~= a.subrange(o + 94, o + 102));
        let name_end = o + 110 + number_at(a, o + 94)->0;
        let data_start = align4(name_end);
        let data_end = data_start + number_at(a, o + 54)->0;
        if name_end <= n && data_end <= n {
            assert(c[name_end - 1] == a[name_end - 1]);
            assert(c.subrange(o + 110, name_end - 1) =~= a.subrange(o + 110, name_end - 1));
            assert(c.subrange(data_start, data_end) =~= a.subrange(data_start, data_end));
        }
    }
}

/// The end of an archive has no data.
proof fn lemma_end_bare(before: Seq<u8>)
    requires
        before.len() % 4 == 0,
    ensures
        ({
            let a = before + entry_bytes(trailer_name(), 0, Seq::empty());
            let o = before.len() as int;
            &&& number_at(a, o + 54) == Some(0int)
            &&& number_at(a, o + 94) == Some(11int)
            &&& a.len() == o + 124
        }),
{
    let e = entry_bytes(trailer_name(), 0, Seq::empty());
    let h = header(0, 0, 11);
    let none = Seq::<u8>::empty();
    lemma_header_fields(0, 0, 11);
    lemma_entry_parts(trailer_name(), 0, none);
    lemma_limit();
    law_hex_round_trip(0, 8);
    law_hex_round_trip(11, 8);
    lemma_inside(before, e, none, 54, 62);
    lemma_inside(before, e, none, 94, 102);
    lemma_head(e, h, 54, 62);
    lemma_head(e, h, 94, 102);
    assert(before + e + none =~= before + e);
}

proof fn lemma_cut_from(entries: Seq<EntryView>, from: int, n: int)
    requires
        0 <= from <= entries.len(),
        forall|i: int| 0 <= i < entries.len() ==> is_plain(#[trigger] entries[i]),
        0 <= n < (archived(entries) + entry_bytes(trailer_name(), 0, Seq::empty())).len(),
    ensures
        all_entries(
            (archived(entries) + entry_bytes(trailer_name(), 0, Seq::empty())).take(n),
            archived(entries.take(from)).len() as int,
        ) == Err::<Seq<EntryView>, FsError>(FsError::Truncated),
    decreases entries.len() - from,
{
    let last = entry_bytes(trailer_name(), 0, Seq::empty());
    let a = archived(entries) + last;
    let o = archived(entries.take(from)).len() as int;
    lemma_archived_length(entries.take(from));
    if from == entries.len() {
        assert(entries.take(from) =~= entries);
        assert(a =~= archived(entries) + last + Seq::<u8>::empty());
        law_entry_round_trip(archived(entries), trailer_name(), 0, Seq::empty(), Seq::empty());
        lemma_end_bare(archived(entries));
        lemma_cut(a, o, n);
    } else {
        let e = entries[from];
        assert(is_plain(e));
        let upto = entries.take(from + 1);
        assert(upto.drop_last() =~= entries.take(from));
        assert(upto.last() == e);
        lemma_archived_prefix(entries, from + 1);
        let rest = archived(entries).skip(archived(upto).len() as int) + last;
        assert(a =~= archived(entries.take(from)) + entry_bytes(e.name, e.mode, e.data) + rest);
        law_entry_round_trip(archived(entries.take(from)), e.name, e.mode, e.data, rest);
        lemma_entry_length(e.name, e.mode, e.data);
        lemma_cut(a, o, n);
        lemma_cut_from(entries, from + 1, n);
    }
}

/// An archive that is cut off anywhere is refused as truncated.
pub proof fn law_cut_archive_refused(entries: Seq<EntryView>, n: int)
    requires
        forall|i: int| 0 <= i < entries.len() ==> is_plain(#[trigger] entries[i]),
        0 <= n < (archived(entries) + entry_bytes(trailer_name(), 0, Seq::empty())).len(),
    ensures
        all_entries(
            (archived(entries) + entry_bytes(trailer_name(), 0, Seq::empty())).take(n),
            0,
        ) == Err::<Seq<EntryView>, FsError>(FsError::Truncated),
{
    assert(entries.take(0) =~= Seq::<EntryView>::empty());
    lemma_cut_from(entries, 0, n);
}

proof fn lemma_first_plain()
    ensures
        forall|i: int| 0 <= i < 4 ==> is_plain(#[trigger] initramfs_entries()[i]),
{
    crate::elf::lemma_test_image_length();
    let all = initramfs_entries();
    assert forall|i: int| 0 <= i < 4 implies is_plain(#[trigger] all[i]) by {
        assert(all[i].name.len() != trailer_name().len());
        assert(!all[i].name.contains(0));
    }
}

/// The first file system has four entries, and every part of it that is cut off
/// is refused.
pub proof fn law_first_archive_whole(n: int)
    requires
        0 <= n < (archived(initramfs_entries()) + entry_bytes(
            trailer_name(),
            0,
            Seq::empty(),
        )).len(),
    ensures
        initramfs_entries().len() == 4,
        all_entries(
            (archived(initramfs_entries()) + entry_bytes(trailer_name(), 0, Seq::empty())).take(n),
            0,
        ) is Err,
{
    lemma_first_plain();
    law_cut_archive_refused(initramfs_entries(), n);
}

/// The first file system: a program, and a greeting.
pub fn make_initramfs() -> (r: Vec<u8>)
    ensures
        r@ == archived(initramfs_entries()) + entry_bytes(trailer_name(), 0, Seq::empty()),
        all_entries(r@, 0) == Ok::<Seq<EntryView>, FsError>(initramfs_entries()),
{
    let mut archive: Vec<u8> = Vec::new();
    let none: [u8; 0] = [];
    let bin: [u8; 3] = [0x62, 0x69, 0x6e];
    let init: [u8; 8] = [0x62, 0x69, 0x6e, 0x2f, 0x69, 0x6e, 0x69, 0x74];
    let etc: [u8; 3] = [0x65, 0x74, 0x63];
    let motd: [u8; 8] = [0x65, 0x74, 0x63, 0x2f, 0x6d, 0x6f, 0x74, 0x64];
    let greeting: [u8; 16] = [
        0x56, 0x61, 0x6e, 0x74, 0x61, 0x20, 0x69, 0x6e, 0x69, 0x74, 0x72, 0x61, 0x6d, 0x66, 0x73,
        0x0a,
    ];
    let last: [u8; 10] = [0x54, 0x52, 0x41, 0x49, 0x4c, 0x45, 0x52, 0x21, 0x21, 0x21];
    let program: Vec<u8> = make_test_elf();
    let ghost all = initramfs_entries();
    proof {
        assert(none@ =~= Seq::<u8>::empty());
        assert(bin@ =~= all[0].name);
        assert(init@ =~= all[1].name);
        assert(etc@ =~= all[2].name);
        assert(motd@ =~= all[3].name);
        assert(greeting@ =~= all[3].data);
        assert(last@ =~= trailer_name());
        crate::elf::lemma_test_image_length();
        lemma_entry_length(bin@, all[0].mode, none@);
        lemma_entry_length(init@, all[1].mode, program@);
        lemma_entry_length(etc@, all[2].mode, none@);
        lemma_entry_length(motd@, all[3].mode, greeting@);
        lemma_entry_length(last@, 0, none@);
        assert(archive@ =~= archived(all.take(0)));
    }
    append_entry(&mut archive, &bin, MODE_DIRECTORY | 0o755, &none);
    proof {
        assert(all.take(1).drop_last() =~= all.take(0));
        assert(archive@ == archived(all.take(1)));
    }
    append_entry(&mut archive, &init, MODE_REGULAR | 0o755, program.as_slice());
    proof {
        assert(all.take(2).drop_last() =~= all.take(1));
        assert(archive@ == archived(all.take(2)));
    }
    append_entry(&mut archive, &etc, MODE_DIRECTORY | 0o755, &none);
    proof {
        assert(all.take(3).drop_last() =~= all.take(2));
        assert(archive@ == archived(all.take(3)));
    }
    append_entry(&mut archive, &motd, MODE_REGULAR | 0o644, &greeting);
    proof {
        assert(all.take(4).drop_last() =~= all.take(3));
        assert(all.take(4) =~= all);
        assert(archive@ == archived(all));
    }
    append_entry(&mut archive, &last, 0, &none);
    proof {
        lemma_first_plain();
        law_archive_round_trip(all, 0, Seq::empty());
        assert(all.take(0) =~= Seq::<EntryView>::empty());
        assert(all.skip(0) =~= all);
        assert(archive@ =~= archived(all) + entry_bytes(trailer_name(), 0, Seq::empty())
            + Seq::<u8>::empty());
    }
    archive
}

} // verus!
