//! What file systems have in common: their errors and what they say of files.
use vstd::prelude::*;

use crate::bytes::{self, put};
use crate::storage::StorageError;

verus! {

#[derive(Clone, Copy, Debug, PartialEq, Eq, Structural)]
pub enum VfsError {
    NotFound,
    NotDirectory,
    IsDirectory,
    AlreadyExists,
    NotEmpty,
    InvalidPath,
    NoSpace,
    FileTooLarge,
    ReadOnlyFilesystem,
    RedoxFs,
    Storage(StorageError),
}

#[derive(Clone, Copy, Debug, PartialEq, Eq, Structural)]
pub struct InodeMetadata {
    pub ino: u64,
    pub size: u64,
    pub mode: u32,
    pub uid: u32,
    pub gid: u32,
    pub atime: u64,
    pub mtime: u64,
    pub ctime: u64,
}

#[derive(Clone, Copy, Debug, PartialEq, Eq, Structural)]
pub struct StatFs {
    pub f_type: u64,
    pub f_bsize: u64,
    pub f_blocks: u64,
    pub f_bfree: u64,
    pub f_bavail: u64,
    pub f_files: u64,
    pub f_ffree: u64,
}

/// What is said of a file that is made up: it belongs to the system and has no
/// times.
pub open spec fn listed(ino: u64, mode: u32, size: u64) -> InodeMetadata {
    InodeMetadata { ino, size, mode, uid: 0, gid: 0, atime: 0, mtime: 0, ctime: 0 }
}

/// Whether a name stands for the directory itself.
pub open spec fn is_self(name: Seq<u8>) -> bool {
    name.len() == 0 || name == crate::text::utf8("."@)
}

/// What a read of contents leaves in a buffer, and how many bytes it gave.
pub open spec fn part_read(contents: Seq<u8>, offset: u64, buffer: Seq<u8>) -> (Seq<u8>, usize) {
    let start = if offset < contents.len() {
        offset as int
    } else {
        contents.len() as int
    };
    let n = if contents.len() - start < buffer.len() {
        contents.len() - start
    } else {
        buffer.len() as int
    };
    (bytes::splice(buffer, 0, contents.subrange(start, start + n)), n as usize)
}

pub(crate) fn read_part(contents: &[u8], offset: u64, buf: &mut [u8]) -> (r: usize)
    ensures
        (final(buf)@, r) == part_read(contents@, offset, old(buf)@),
{
    assert(contents@.len() == contents.len());
    assert(buf@.len() == buf.len());
    let start: usize = if offset < contents.len() as u64 {
        offset as usize
    } else {
        contents.len()
    };
    let n: usize = if contents.len() - start < buf.len() {
        contents.len() - start
    } else {
        buf.len()
    };
    put(buf, 0, vstd::slice::slice_subrange(contents, start, start + n));
    n
}

/// A read gives the bytes of the contents from where it starts, as many as are
/// there and as there is room for; what lies behind them in the buffer stays.
pub proof fn law_read_gives_contents(contents: Seq<u8>, offset: u64, buffer: Seq<u8>)
    requires
        buffer.len() <= usize::MAX,
    ensures
        ({
            let (after, n) = part_read(contents, offset, buffer);
            &&& after.len() == buffer.len()
            &&& n <= buffer.len()
            &&& n > 0 ==> offset + n <= contents.len()
            &&& n < buffer.len() ==> offset + n >= contents.len()
            &&& forall|i: int| 0 <= i < n ==> #[trigger] after[i] == contents[offset + i]
            &&& forall|i: int| n <= i < buffer.len() ==> #[trigger] after[i] == buffer[i]
        }),
{
}

} // verus!
