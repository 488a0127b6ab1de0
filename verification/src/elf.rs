//! ELF64 images, as far as loading a process needs them: little-endian x86-64
//! files with ordinary program headers.
use vstd::prelude::*;
use vstd::slice::slice_subrange;

use crate::bytes::{
    self, get_le16, get_le32, get_le64, push_all, push_le16, push_le32, push_le64, push_zeros,
};
use crate::text::{self, find_byte};

verus! {

const ELF_HEADER_SIZE: usize = 64;

const PROGRAM_HEADER_SIZE: usize = 56;

pub const PT_LOAD: u32 = 1;

pub const PT_INTERP: u32 = 3;

pub const PT_PHDR: u32 = 6;

pub const PF_X: u32 = 1;

pub const PF_W: u32 = 2;

#[derive(Clone, Copy, Debug, PartialEq, Eq, Structural)]
pub enum ElfError {
    Truncated,
    BadMagic,
    UnsupportedClass,
    UnsupportedEncoding,
    UnsupportedType,
    UnsupportedMachine,
    InvalidHeaderSize,
    InvalidProgramHeaders,
    NoLoadSegments,
    DynamicInterpreter,
}

#[derive(Clone, Copy, Debug)]
pub struct ElfImage<'a> {
    pub bytes: &'a [u8],
    pub entry: u64,
    pub position_independent: bool,
    pub program_header_offset: usize,
    pub program_header_size: usize,
    pub program_header_count: usize,
}

#[derive(Clone, Copy, Debug, PartialEq, Eq, Structural)]
pub struct ProgramHeader {
    pub kind: u32,
    pub flags: u32,
    pub offset: u64,
    pub virtual_address: u64,
    pub file_size: u64,
    pub memory_size: u64,
    pub alignment: u64,
}

/// The program header whose bytes start at `at`.
pub open spec fn header_at(bytes: Seq<u8>, at: int) -> ProgramHeader {
    ProgramHeader {
        kind: bytes::le32_at(bytes, at) as u32,
        flags: bytes::le32_at(bytes, at + 4) as u32,
        offset: bytes::le64_at(bytes, at + 8) as u64,
        virtual_address: bytes::le64_at(bytes, at + 16) as u64,
        file_size: bytes::le64_at(bytes, at + 32) as u64,
        memory_size: bytes::le64_at(bytes, at + 40) as u64,
        alignment: bytes::le64_at(bytes, at + 48) as u64,
    }
}

/// The program headers of a file, from number `i` on.
pub open spec fn headers_from(bytes: Seq<u8>, i: int) -> Seq<ProgramHeader>
    decreases bytes::le16_at(bytes, 56) - i,
{
    if i >= bytes::le16_at(bytes, 56) {
        Seq::empty()
    } else {
        seq![header_at(bytes, bytes::le64_at(bytes, 32) + i * bytes::le16_at(bytes, 54))] + headers_from(
            bytes,
            i + 1,
        )
    }
}

pub open spec fn headers(bytes: Seq<u8>) -> Seq<ProgramHeader> {
    headers_from(bytes, 0)
}

/// Whether a segment is to be loaded.
pub open spec fn has_load(headers: Seq<ProgramHeader>) -> bool {
    exists|i: int| 0 <= i < headers.len() && (#[trigger] headers[i]).kind == PT_LOAD
}

/// Why a file is not an image that can be loaded, if it is not.
pub open spec fn image_fault(bytes: Seq<u8>) -> Option<ElfError> {
    if bytes.len() < 64 {
        Some(ElfError::Truncated)
    } else if bytes[0] != 0x7f || bytes[1] != 0x45 || bytes[2] != 0x4c || bytes[3] != 0x46 {
        Some(ElfError::BadMagic)
    } else if bytes[4] != 2 {
        Some(ElfError::UnsupportedClass)
    } else if bytes[5] != 1 || bytes[6] != 1 {
        Some(ElfError::UnsupportedEncoding)
    } else if bytes::le16_at(bytes, 16) != 2 && bytes::le16_at(bytes, 16) != 3 {
        Some(ElfError::UnsupportedType)
    } else if bytes::le16_at(bytes, 18) != 0x3e {
        Some(ElfError::UnsupportedMachine)
    } else if bytes::le16_at(bytes, 52) < 64 || bytes::le16_at(bytes, 54) < 56 {
        Some(ElfError::InvalidHeaderSize)
    } else if bytes::le64_at(bytes, 32) + bytes::le16_at(bytes, 54) * bytes::le16_at(bytes, 56) > bytes.len() {
        Some(ElfError::InvalidProgramHeaders)
    } else if !has_load(headers(bytes)) {
        Some(ElfError::NoLoadSegments)
    } else {
        None
    }
}

proof fn lemma_headers_index(bytes: Seq<u8>, i: int)
    requires
        0 <= i <= bytes::le16_at(bytes, 56),
    ensures
        headers_from(bytes, i).len() == bytes::le16_at(bytes, 56) - i,
        forall|k: int|
            0 <= k < bytes::le16_at(bytes, 56) - i ==> #[trigger] headers_from(bytes, i)[k] == header_at(
                bytes,
                bytes::le64_at(bytes, 32) + (i + k) * bytes::le16_at(bytes, 54),
            ),
    decreases bytes::le16_at(bytes, 56) - i,
{
    if i < bytes::le16_at(bytes, 56) {
        lemma_headers_index(bytes, i + 1);
        assert forall|k: int| 0 <= k < bytes::le16_at(bytes, 56) - i implies #[trigger] headers_from(
            bytes,
            i,
        )[k] == header_at(bytes, bytes::le64_at(bytes, 32) + (i + k) * bytes::le16_at(bytes, 54)) by {
            if k > 0 {
                assert(headers_from(bytes, i)[k] == headers_from(bytes, i + 1)[k - 1]);
            }
        }
    }
}

impl<'a> ElfImage<'a> {
    pub open spec fn wf(self) -> bool {
        &&& image_fault(self.bytes@) is None
        &&& self.entry == bytes::le64_at(self.bytes@, 24)
        &&& self.position_independent == (bytes::le16_at(self.bytes@, 16) == 3)
        &&& self.program_header_offset == bytes::le64_at(self.bytes@, 32)
        &&& self.program_header_size == bytes::le16_at(self.bytes@, 54)
        &&& self.program_header_count == bytes::le16_at(self.bytes@, 56)
    }

    /// The program headers of the file.
    pub open spec fn headers(self) -> Seq<ProgramHeader> {
        headers(self.bytes@)
    }

    pub fn parse(bytes: &'a [u8]) -> (r: Result<Self, ElfError>)
        ensures
            match r {
                Ok(image) => image.bytes@ == bytes@ && image.wf(),
                Err(e) => image_fault(bytes@) == Some(e),
            },
    {
        if bytes.len() < ELF_HEADER_SIZE {
            return Err(ElfError::Truncated);
        }
        if bytes[0] != 0x7f || bytes[1] != 0x45 || bytes[2] != 0x4c || bytes[3] != 0x46 {
            return Err(ElfError::BadMagic);
        }
        if bytes[4] != 2 {
            return Err(ElfError::UnsupportedClass);
        }
        if bytes[5] != 1 || bytes[6] != 1 {
            return Err(ElfError::UnsupportedEncoding);
        }
        let image_type: u16 = get_le16(bytes, 16);
        if image_type != 2 && image_type != 3 {
            return Err(ElfError::UnsupportedType);
        }
        if get_le16(bytes, 18) != 0x3e {
            return Err(ElfError::UnsupportedMachine);
        }
        let header_size: u16 = get_le16(bytes, 52);
        let size: u16 = get_le16(bytes, 54);
        let count: u16 = get_le16(bytes, 56);
        if header_size < 64 || size < 56 {
            return Err(ElfError::InvalidHeaderSize);
        }
        let offset: u64 = get_le64(bytes, 32);
        proof {
            assert(0 <= size * count <= 0xffff * 0xffff) by (nonlinear_arith)
                requires
                    size <= 0xffff,
                    count <= 0xffff,
            ;
        }
        let table: u64 = size as u64 * count as u64;
        if table > bytes.len() as u64 || offset > bytes.len() as u64 - table {
            return Err(ElfError::InvalidProgramHeaders);
        }
        let image = ElfImage {
            bytes,
            entry: get_le64(bytes, 24),
            position_independent: image_type == 3,
            program_header_offset: offset as usize,
            program_header_size: size as usize,
            program_header_count: count as usize,
        };
        proof {
            lemma_headers_index(bytes@, 0);
        }
        let mut i: usize = 0;
        while i < image.program_header_count
            invariant
                i <= count,
                image.bytes@ == bytes@,
                image.program_header_offset == bytes::le64_at(bytes@, 32),
                image.program_header_size == bytes::le16_at(bytes@, 54),
                image.program_header_count == bytes::le16_at(bytes@, 56),
                image.program_header_count == count,
                size == image.program_header_size,
                size >= 56,
                image.program_header_offset + size * count <= bytes.len(),
                headers(bytes@).len() == count,
                forall|k: int|
                    0 <= k < count ==> #[trigger] headers(bytes@)[k] == header_at(
                        bytes@,
                        bytes::le64_at(bytes@, 32) + (0 + k) * bytes::le16_at(bytes@, 54),
                    ),
                forall|k: int| 0 <= k < i ==> (#[trigger] headers(bytes@)[k]).kind != PT_LOAD,
                image_fault(bytes@) == (if has_load(headers(bytes@)) {
                    None
                } else {
                    Some(ElfError::NoLoadSegments)
                }),
                image.entry == bytes::le64_at(bytes@, 24),
                image.position_independent == (bytes::le16_at(bytes@, 16) == 3),
            decreases count - i,
        {
            proof {
                lemma_row(i as int, size as int, count as int);
            }
            let at: usize = image.program_header_offset + i * image.program_header_size;
            if get_le32(bytes, at) == PT_LOAD {
                assert(headers(bytes@)[i as int].kind == PT_LOAD);
                return Ok(image);
            }
            i += 1;
        }
        Err(ElfError::NoLoadSegments)
    }

    fn program_header(self, i: usize) -> (r: ProgramHeader)
        requires
            self.wf(),
            i < self.program_header_count,
        ensures
            i < self.headers().len(),
            r == self.headers()[i as int],
    {
        proof {
            lemma_headers_index(self.bytes@, 0);
            let b = self.bytes@;
            assert(image_fault(b) is None);
            assert(bytes::le64_at(b, 32) + bytes::le16_at(b, 54) * bytes::le16_at(b, 56) <= b.len());
            assert(b.len() == self.bytes.len());
            assert(self.program_header_size * self.program_header_count == bytes::le16_at(b, 54)
                * bytes::le16_at(b, 56));
            lemma_row(i as int, self.program_header_size as int, self.program_header_count as int);
        }
        let at: usize = self.program_header_offset + i * self.program_header_size;
        ProgramHeader {
            kind: get_le32(self.bytes, at),
            flags: get_le32(self.bytes, at + 4),
            offset: get_le64(self.bytes, at + 8),
            virtual_address: get_le64(self.bytes, at + 16),
            file_size: get_le64(self.bytes, at + 32),
            memory_size: get_le64(self.bytes, at + 40),
            alignment: get_le64(self.bytes, at + 48),
        }
    }

    pub fn program_headers(self) -> (r: Vec<ProgramHeader>)
        requires
            self.wf(),
        ensures
            r@ == self.headers(),
    {
        let mut all: Vec<ProgramHeader> = Vec::new();
        let mut i: usize = 0;
        proof {
            lemma_headers_index(self.bytes@, 0);
        }
        while i < self.program_header_count
            invariant
                self.wf(),
                i <= self.program_header_count,
                self.headers().len() == self.program_header_count,
                all@ == self.headers().take(i as int),
            decreases self.program_header_count - i,
        {
            all.push(self.program_header(i));
            assert(all@ =~= self.headers().take(i + 1));
            i += 1;
        }
        assert(all@ =~= self.headers());
        all
    }

    /// The bytes of a segment in the file.
    pub fn file_bytes(self, header: ProgramHeader) -> (r: Option<&'a [u8]>)
        ensures
            r is Some <==> header.offset + header.file_size <= self.bytes.len(),
            r matches Some(part) ==> part@ == self.bytes@.subrange(
                header.offset as int,
                header.offset + header.file_size,
            ),
    {
        let length: u64 = self.bytes.len() as u64;
        if header.offset > length || header.file_size > length - header.offset {
            return None;
        }
        Some(
            slice_subrange(
                self.bytes,
                header.offset as usize,
                (header.offset + header.file_size) as usize,
            ),
        )
    }

    /// Whether the image may be loaded anywhere.
    pub fn is_pie(self) -> (r: bool)
        requires
            self.wf(),
        ensures
            r == (bytes::le16_at(self.bytes@, 16) == 3),
    {
        self.position_independent
    }

    pub fn program_header_size(self) -> (r: usize)
        ensures
            r == self.program_header_size,
    {
        self.program_header_size
    }

    pub fn program_header_count(self) -> (r: usize)
        ensures
            r == self.program_header_count,
    {
        self.program_header_count
    }

    /// The path of the program that is to interpret this one.
    pub fn interpreter(self) -> (r: Option<&'a [u8]>)
        requires
            self.wf(),
        ensures
            match r {
                Some(path) => interpreter_of(self.bytes@) == Some(path@),
                None => interpreter_of(self.bytes@) is None,
            },
    {
        proof {
            lemma_headers_index(self.bytes@, 0);
        }
        let mut i: usize = 0;
        while i < self.program_header_count
            invariant
                self.wf(),
                i <= self.program_header_count,
                self.headers().len() == self.program_header_count,
                first_kind(self.headers(), PT_INTERP, 0) == first_kind(
                    self.headers(),
                    PT_INTERP,
                    i as int,
                ),
            decreases self.program_header_count - i,
        {
            let header = self.program_header(i);
            if header.kind == PT_INTERP {
                return match self.file_bytes(header) {
                    None => None,
                    Some(part) => {
                        let end: usize = find_byte(part, 0);
                        let path = slice_subrange(part, 0, end);
                        assert(path@ =~= part@.take(end as int));
                        Some(path)
                    },
                };
            }
            i += 1;
        }
        None
    }

    /// Where the program headers are in memory, in an image loaded at `base`.
    pub fn phdr_virtual_address(self, base: u64) -> (r: u64)
        requires
            self.wf(),
        ensures
            r == headers_address(self.bytes@, base),
    {
        proof {
            lemma_headers_index(self.bytes@, 0);
        }
        let mut i: usize = 0;
        while i < self.program_header_count
            invariant
                self.wf(),
                i <= self.program_header_count,
                self.headers().len() == self.program_header_count,
                first_kind(self.headers(), PT_PHDR, 0) == first_kind(
                    self.headers(),
                    PT_PHDR,
                    i as int,
                ),
            decreases self.program_header_count - i,
        {
            let header = self.program_header(i);
            if header.kind == PT_PHDR {
                return base.wrapping_add(header.virtual_address);
            }
            i += 1;
        }
        base.wrapping_add(self.program_header_offset as u64)
    }
}

/// The first header of a kind, from number `i` on.
pub open spec fn first_kind(headers: Seq<ProgramHeader>, kind: u32, i: int) -> Option<ProgramHeader>
    decreases headers.len() - i,
{
    if i < 0 || i >= headers.len() {
        None
    } else if headers[i].kind == kind {
        Some(headers[i])
    } else {
        first_kind(headers, kind, i + 1)
    }
}

/// The path that an image names as its interpreter, up to the first zero byte.
pub open spec fn interpreter_of(bytes: Seq<u8>) -> Option<Seq<u8>> {
    match first_kind(headers(bytes), PT_INTERP, 0) {
        None => None,
        Some(h) => if h.offset + h.file_size <= bytes.len() {
            let part = bytes.subrange(h.offset as int, h.offset + h.file_size);
            Some(part.take(text::first_index(part, 0)))
        } else {
            None
        },
    }
}

/// Where the program headers of an image are in memory: where their own header
/// says, else as far from the base as they are from the start of the file.
pub open spec fn headers_address(bytes: Seq<u8>, base: u64) -> u64 {
    match first_kind(headers(bytes), PT_PHDR, 0) {
        Some(h) => base.wrapping_add(h.virtual_address),
        None => base.wrapping_add(bytes::le64_at(bytes, 32) as u64),
    }
}

proof fn lemma_row(i: int, size: int, count: int)
    requires
        0 <= i < count,
        size >= 56,
    ensures
        0 <= i * size,
        i * size + size <= size * count,
{
    assert(0 <= i * size) by (nonlinear_arith)
        requires
            0 <= i,
            size >= 56,
    ;
    assert(i * size + size <= size * count) by (nonlinear_arith)
        requires
            i + 1 <= count,
            size >= 0,
    ;
}

// ---------------------------------------------------------------------------
// A program to try the loader with
// ---------------------------------------------------------------------------
pub const TEST_DATA_ADDRESS: u64 = 0x0040_1000;

/// `mov rax, 1; mov rdi, data; mov rsi, 28; syscall; mov rax, 60;
/// xor edi, edi; syscall; ud2`.
pub open spec fn test_code() -> Seq<u8> {
    seq![0x48u8, 0xc7u8, 0xc0u8, 1u8, 0u8, 0u8, 0u8, 0x48u8, 0xbfu8] + bytes::le64_bytes(TEST_DATA_ADDRESS)
        + seq![0x48u8, 0xc7u8, 0xc6u8] + bytes::le32_bytes(28) + seq![
        0x0fu8,
        0x05u8,
        0x48u8,
        0xc7u8,
        0xc0u8,
        60u8,
        0u8,
        0u8,
        0u8,
        0x31u8,
        0xffu8,
        0x0fu8,
        0x05u8,
        0x0fu8,
        0x0bu8,
    ]
}

/// `[user] syscall write passed` and a line end.
pub open spec fn test_data() -> Seq<u8> {
    seq![
        91u8, 117u8, 115u8, 101u8, 114u8, 93u8, 32u8, 115u8, 121u8, 115u8, 99u8, 97u8, 108u8, 108u8,
        32u8, 119u8, 114u8, 105u8, 116u8, 101u8, 32u8, 112u8, 97u8, 115u8, 115u8, 101u8, 100u8, 10u8,
    ]
}

/// The header of an executable with `count` program headers after it.
pub open spec fn file_header(entry: u64, count: u16) -> Seq<u8> {
    seq![0x7fu8, 0x45u8, 0x4cu8, 0x46u8, 2u8, 1u8, 1u8] + bytes::zeros(9) + bytes::le16_bytes(2) + bytes::le16_bytes(0x3e)
        + bytes::le32_bytes(1) + bytes::le64_bytes(entry) + bytes::le64_bytes(64) + bytes::zeros(12) + bytes::le16_bytes(64)
        + bytes::le16_bytes(56) + bytes::le16_bytes(count) + bytes::zeros(6)
}

pub open spec fn load_header(flags: u32, offset: u64, address: u64, file: u64, memory: u64) -> Seq<
    u8,
> {
    bytes::le32_bytes(PT_LOAD) + bytes::le32_bytes(flags) + bytes::le64_bytes(offset) + bytes::le64_bytes(address) + bytes::zeros(8)
        + bytes::le64_bytes(file) + bytes::le64_bytes(memory) + bytes::le64_bytes(0x1000)
}

/// A program that writes a line and ends.
pub open spec fn test_image() -> Seq<u8> {
    file_header(0x0040_0000, 2) + load_header(PF_X, 0x100, 0x0040_0000, 39, 39) + load_header(
        PF_W,
        0x200,
        TEST_DATA_ADDRESS,
        28,
        36,
    ) + bytes::zeros(0x50) + test_code() + bytes::zeros(0xd9) + test_data() + bytes::zeros(0xe4)
}

fn make_file_header(entry: u64, count: u16) -> (r: Vec<u8>)
    ensures
        r@ == file_header(entry, count),
{
    let mut v: Vec<u8> = Vec::new();
    v.push(0x7f);
    v.push(0x45);
    v.push(0x4c);
    v.push(0x46);
    v.push(2);
    v.push(1);
    v.push(1);
    assert(v@ =~= seq![0x7fu8, 0x45u8, 0x4cu8, 0x46u8, 2u8, 1u8, 1u8]);
    push_zeros(&mut v, 9);
    push_le16(&mut v, 2);
    push_le16(&mut v, 0x3e);
    push_le32(&mut v, 1);
    push_le64(&mut v, entry);
    push_le64(&mut v, 64);
    push_zeros(&mut v, 12);
    push_le16(&mut v, 64);
    push_le16(&mut v, 56);
    push_le16(&mut v, count);
    push_zeros(&mut v, 6);
    v
}

fn make_load_header(flags: u32, offset: u64, address: u64, file: u64, memory: u64) -> (r: Vec<u8>)
    ensures
        r@ == load_header(flags, offset, address, file, memory),
{
    let mut v: Vec<u8> = Vec::new();
    push_le32(&mut v, PT_LOAD);
    assert(v@ =~= bytes::le32_bytes(PT_LOAD));
    push_le32(&mut v, flags);
    push_le64(&mut v, offset);
    push_le64(&mut v, address);
    push_zeros(&mut v, 8);
    push_le64(&mut v, file);
    push_le64(&mut v, memory);
    push_le64(&mut v, 0x1000);
    v
}

fn make_test_code() -> (r: Vec<u8>)
    ensures
        r@ == test_code(),
        r.len() == 39,
{
    let start: [u8; 9] = [0x48, 0xc7, 0xc0, 1, 0, 0, 0, 0x48, 0xbf];
    let middle: [u8; 3] = [0x48, 0xc7, 0xc6];
    let end: [u8; 15] = [
        0x0f, 0x05, 0x48, 0xc7, 0xc0, 60, 0, 0, 0, 0x31, 0xff, 0x0f, 0x05, 0x0f, 0x0b,
    ];
    let mut v: Vec<u8> = Vec::new();
    push_all(&mut v, start.as_slice());
    assert(v@ =~= seq![0x48u8, 0xc7u8, 0xc0u8, 1u8, 0u8, 0u8, 0u8, 0x48u8, 0xbfu8]);
    push_le64(&mut v, TEST_DATA_ADDRESS);
    push_all(&mut v, middle.as_slice());
    assert(middle@ =~= seq![0x48u8, 0xc7u8, 0xc6u8]);
    push_le32(&mut v, 28);
    push_all(&mut v, end.as_slice());
    assert(end@ =~= seq![
        0x0fu8,
        0x05u8,
        0x48u8,
        0xc7u8,
        0xc0u8,
        60u8,
        0u8,
        0u8,
        0u8,
        0x31u8,
        0xffu8,
        0x0fu8,
        0x05u8,
        0x0fu8,
        0x0bu8,
    ]);
    v
}

pub proof fn lemma_test_image_length()
    ensures
        test_image().len() == 0x300,
{
    assert(test_image().len() == 0x300);
}

/// A program that writes a line and ends.
pub fn make_test_elf() -> (r: Vec<u8>)
    ensures
        r@ == test_image(),
{
    let mut image: Vec<u8> = make_file_header(0x0040_0000, 2);
    let code = make_load_header(PF_X, 0x100, 0x0040_0000, 39, 39);
    let data_header = make_load_header(PF_W, 0x200, TEST_DATA_ADDRESS, 28, 36);
    let instructions = make_test_code();
    push_all(&mut image, code.as_slice());
    push_all(&mut image, data_header.as_slice());
    push_zeros(&mut image, 0x50);
    push_all(&mut image, instructions.as_slice());
    push_zeros(&mut image, 0xd9);
    let data: [u8; 28] = [
        91, 117, 115, 101, 114, 93, 32, 115, 121, 115, 99, 97, 108, 108, 32, 119, 114, 105, 116,
        101, 32, 112, 97, 115, 115, 101, 100, 10,
    ];
    assert(data@ =~= test_data());
    push_all(&mut image, data.as_slice());
    push_zeros(&mut image, 0xe4);
    image
}

} // verus!
