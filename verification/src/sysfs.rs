//! A file system that shows devices and network interfaces.
use vstd::prelude::*;

use crate::store;
use crate::text::{self, is_text, text_bytes};
use crate::vfs::{self, read_part, InodeMetadata, StatFs, VfsError};

verus! {

#[derive(Clone, Copy, Debug, PartialEq, Eq, Structural)]
pub struct SysFs;

/// What a name in a directory leads to.
pub open spec fn child(parent: u64, name: Seq<u8>) -> Option<u64> {
    if parent == 1 {
        if vfs::is_self(name) {
            Some(1)
        } else if name == text::utf8(".."@) {
            Some(1)
        } else if name == text::utf8("class"@) {
            Some(2)
        } else if name == text::utf8("block"@) {
            Some(7)
        } else {
            None
        }
    } else if parent == 2 {
        if vfs::is_self(name) {
            Some(2)
        } else if name == text::utf8(".."@) {
            Some(1)
        } else if name == text::utf8("net"@) {
            Some(3)
        } else {
            None
        }
    } else if parent == 3 {
        if vfs::is_self(name) {
            Some(3)
        } else if name == text::utf8(".."@) {
            Some(2)
        } else if name == text::utf8("eth0"@) {
            Some(4)
        } else {
            None
        }
    } else if parent == 4 {
        if vfs::is_self(name) {
            Some(4)
        } else if name == text::utf8(".."@) {
            Some(3)
        } else if name == text::utf8("operstate"@) {
            Some(5)
        } else if name == text::utf8("address"@) {
            Some(6)
        } else {
            None
        }
    } else if parent == 7 {
        if vfs::is_self(name) {
            Some(7)
        } else if name == text::utf8(".."@) {
            Some(1)
        } else if name == text::utf8("vda"@) {
            Some(8)
        } else {
            None
        }
    } else if parent == 8 {
        if vfs::is_self(name) {
            Some(8)
        } else if name == text::utf8(".."@) {
            Some(7)
        } else if name == text::utf8("size"@) {
            Some(9)
        } else {
            None
        }
    } else {
        None
    }
}

/// What a file holds.
pub open spec fn contents(ino: u64) -> Option<Seq<u8>> {
    if ino == 5 {
        Some(text::utf8("up\n"@))
    } else if ino == 6 {
        Some(text::utf8("52:54:00:12:34:56\n"@))
    } else if ino == 9 {
        Some(text::utf8("1048576\n"@))
    } else {
        None
    }
}

pub open spec fn is_directory(ino: u64) -> bool {
    1 <= ino <= 4 || ino == 7 || ino == 8
}

/// The names in a directory.
pub open spec fn names_in(ino: u64) -> Option<Seq<Seq<u8>>> {
    if ino == 1 {
        Some(seq![
            text::utf8("."@),
            text::utf8(".."@),
            text::utf8("class"@),
            text::utf8("block"@),
        ])
    } else if ino == 2 {
        Some(seq![
            text::utf8("."@),
            text::utf8(".."@),
            text::utf8("net"@),
        ])
    } else if ino == 3 {
        Some(seq![
            text::utf8("."@),
            text::utf8(".."@),
            text::utf8("eth0"@),
        ])
    } else if ino == 4 {
        Some(seq![
            text::utf8("."@),
            text::utf8(".."@),
            text::utf8("operstate"@),
            text::utf8("address"@),
        ])
    } else if ino == 7 {
        Some(seq![
            text::utf8("."@),
            text::utf8(".."@),
            text::utf8("vda"@),
        ])
    } else if ino == 8 {
        Some(seq![
            text::utf8("."@),
            text::utf8(".."@),
            text::utf8("size"@),
        ])
    } else {
        None
    }
}

impl SysFs {
    pub fn new() -> (r: Self)
        ensures
            r == SysFs,
    {
        SysFs
    }

    fn content_for_ino(&self, ino: u64) -> (r: Option<Vec<u8>>)
        ensures
            match r {
                Some(bytes) => contents(ino) == Some(bytes@),
                None => contents(ino) is None,
            },
    {
        if ino == 5 {
            Some(text_bytes("up\n"))
        } else if ino == 6 {
            Some(text_bytes("52:54:00:12:34:56\n"))
        } else if ino == 9 {
            Some(text_bytes("1048576\n"))
        } else {
            None
        }
    }

    pub fn lookup(&self, parent: u64, name: &[u8]) -> (r: Result<u64, VfsError>)
        ensures
            r == match child(parent, name@) {
                Some(ino) => Ok::<u64, VfsError>(ino),
                None => Err(VfsError::NotFound),
            },
    {
        if parent == 1 {
            if name.len() == 0 || is_text(name, ".") {
                Ok(1)
            } else if is_text(name, "..") {
                Ok(1)
            } else if is_text(name, "class") {
                Ok(2)
            } else if is_text(name, "block") {
                Ok(7)
            } else {
                Err(VfsError::NotFound)
            }
        } else if parent == 2 {
            if name.len() == 0 || is_text(name, ".") {
                Ok(2)
            } else if is_text(name, "..") {
                Ok(1)
            } else if is_text(name, "net") {
                Ok(3)
            } else {
                Err(VfsError::NotFound)
            }
        } else if parent == 3 {
            if name.len() == 0 || is_text(name, ".") {
                Ok(3)
            } else if is_text(name, "..") {
                Ok(2)
            } else if is_text(name, "eth0") {
                Ok(4)
            } else {
                Err(VfsError::NotFound)
            }
        } else if parent == 4 {
            if name.len() == 0 || is_text(name, ".") {
                Ok(4)
            } else if is_text(name, "..") {
                Ok(3)
            } else if is_text(name, "operstate") {
                Ok(5)
            } else if is_text(name, "address") {
                Ok(6)
            } else {
                Err(VfsError::NotFound)
            }
        } else if parent == 7 {
            if name.len() == 0 || is_text(name, ".") {
                Ok(7)
            } else if is_text(name, "..") {
                Ok(1)
            } else if is_text(name, "vda") {
                Ok(8)
            } else {
                Err(VfsError::NotFound)
            }
        } else if parent == 8 {
            if name.len() == 0 || is_text(name, ".") {
                Ok(8)
            } else if is_text(name, "..") {
                Ok(7)
            } else if is_text(name, "size") {
                Ok(9)
            } else {
                Err(VfsError::NotFound)
            }
        } else {
            Err(VfsError::NotFound)
        }
    }

    pub fn read_inode(&self, ino: u64) -> (r: Result<InodeMetadata, VfsError>)
        ensures
            r == if is_directory(ino) {
                Ok::<InodeMetadata, VfsError>(vfs::listed(ino, 0o040555, 0))
            } else {
                match contents(ino) {
                    Some(bytes) => Ok(vfs::listed(ino, 0o100444, bytes.len() as u64)),
                    None => Err(VfsError::NotFound),
                }
            },
    {
        let (mode, size): (u32, u64) = if (ino >= 1 && ino <= 4) || ino == 7 || ino == 8 {
            (0o040555, 0)
        } else {
            match self.content_for_ino(ino) {
                Some(bytes) => (0o100444, bytes.len() as u64),
                None => {
                    return Err(VfsError::NotFound);
                },
            }
        };
        Ok(InodeMetadata { ino, size, mode, uid: 0, gid: 0, atime: 0, mtime: 0, ctime: 0 })
    }

    pub fn readlink(&self, _ino: u64) -> (r: Result<Vec<u8>, VfsError>)
        ensures
            r == Err::<Vec<u8>, VfsError>(VfsError::InvalidPath),
    {
        Err(VfsError::InvalidPath)
    }

    pub fn read(&self, ino: u64, offset: u64, buf: &mut [u8]) -> (r: Result<usize, VfsError>)
        ensures
            match contents(ino) {
                Some(bytes) => {
                    &&& final(buf)@ == vfs::part_read(bytes, offset, old(buf)@).0
                    &&& r == Ok::<usize, VfsError>(vfs::part_read(bytes, offset, old(buf)@).1)
                },
                None => r == Err::<usize, VfsError>(VfsError::NotFound) && final(buf)@
                    == old(buf)@,
            },
    {
        match self.content_for_ino(ino) {
            None => Err(VfsError::NotFound),
            Some(bytes) => Ok(read_part(bytes.as_slice(), offset, buf)),
        }
    }

    pub fn read_dir(&self, ino: u64) -> (r: Result<Vec<Vec<u8>>, VfsError>)
        ensures
            match r {
                Ok(names) => names_in(ino) == Some(store::views(names@)),
                Err(e) => names_in(ino) is None && e == VfsError::NotDirectory,
            },
    {
        let mut names: Vec<Vec<u8>> = Vec::new();
        if ino == 1 {
            names.push(text_bytes("."));
            names.push(text_bytes(".."));
            names.push(text_bytes("class"));
            names.push(text_bytes("block"));
        } else if ino == 2 {
            names.push(text_bytes("."));
            names.push(text_bytes(".."));
            names.push(text_bytes("net"));
        } else if ino == 3 {
            names.push(text_bytes("."));
            names.push(text_bytes(".."));
            names.push(text_bytes("eth0"));
        } else if ino == 4 {
            names.push(text_bytes("."));
            names.push(text_bytes(".."));
            names.push(text_bytes("operstate"));
            names.push(text_bytes("address"));
        } else if ino == 7 {
            names.push(text_bytes("."));
            names.push(text_bytes(".."));
            names.push(text_bytes("vda"));
        } else if ino == 8 {
            names.push(text_bytes("."));
            names.push(text_bytes(".."));
            names.push(text_bytes("size"));
        } else {
            return Err(VfsError::NotDirectory);
        }
        assert(store::views(names@) =~= names_in(ino)->0);
        Ok(names)
    }

    pub fn statfs(&self) -> (r: Result<StatFs, VfsError>)
        ensures
            r == Ok::<StatFs, VfsError>(
                StatFs {
                    f_type: 0x62656572,
                    f_bsize: 4096,
                    f_blocks: 1024,
                    f_bfree: 1024,
                    f_bavail: 1024,
                    f_files: 64,
                    f_ffree: 50,
                },
            ),
    {
        Ok(
            StatFs {
                    f_type: 0x62656572,
                    f_bsize: 4096,
                    f_blocks: 1024,
                    f_bfree: 1024,
                    f_bavail: 1024,
                    f_files: 64,
                    f_ffree: 50,
                },
        )
    }

    pub fn create(&self, _parent: u64, _name: &[u8], _mode: u32) -> (r: Result<u64, VfsError>)
        ensures
            r == Err::<u64, VfsError>(VfsError::ReadOnlyFilesystem),
    {
        Err(VfsError::ReadOnlyFilesystem)
    }

    pub fn mkdir(&self, _parent: u64, _name: &[u8], _mode: u32) -> (r: Result<u64, VfsError>)
        ensures
            r == Err::<u64, VfsError>(VfsError::ReadOnlyFilesystem),
    {
        Err(VfsError::ReadOnlyFilesystem)
    }

    pub fn unlink(&self, _parent: u64, _name: &[u8]) -> (r: Result<(), VfsError>)
        ensures
            r == Err::<(), VfsError>(VfsError::ReadOnlyFilesystem),
    {
        Err(VfsError::ReadOnlyFilesystem)
    }

    pub fn rmdir(&self, _parent: u64, _name: &[u8]) -> (r: Result<(), VfsError>)
        ensures
            r == Err::<(), VfsError>(VfsError::ReadOnlyFilesystem),
    {
        Err(VfsError::ReadOnlyFilesystem)
    }

    pub fn symlink(&self, _parent: u64, _name: &[u8], _target: &[u8]) -> (r: Result<u64, VfsError>)
        ensures
            r == Err::<u64, VfsError>(VfsError::ReadOnlyFilesystem),
    {
        Err(VfsError::ReadOnlyFilesystem)
    }

    pub fn rename(
        &self,
        _old_parent: u64,
        _old_name: &[u8],
        _new_parent: u64,
        _new_name: &[u8],
    ) -> (r: Result<(), VfsError>)
        ensures
            r == Err::<(), VfsError>(VfsError::ReadOnlyFilesystem),
    {
        Err(VfsError::ReadOnlyFilesystem)
    }

    pub fn sync(&self) -> (r: Result<(), VfsError>)
        ensures
            r == Ok::<(), VfsError>(()),
    {
        Ok(())
    }

    /// The contents are made when they are read.
    pub fn is_page_cached(&self) -> (r: bool)
        ensures
            !r,
    {
        false
    }

    pub fn root_inode(&self) -> (r: u64)
        ensures
            r == 1,
    {
        1
    }

    pub fn write(&self, _ino: u64, _offset: u64, _buf: &[u8]) -> (r: Result<usize, VfsError>)
        ensures
            r == Err::<usize, VfsError>(VfsError::ReadOnlyFilesystem),
    {
        Err(VfsError::ReadOnlyFilesystem)
    }

    pub fn truncate(&self, _ino: u64, _size: u64) -> (r: Result<(), VfsError>)
        ensures
            r == Err::<(), VfsError>(VfsError::ReadOnlyFilesystem),
    {
        Err(VfsError::ReadOnlyFilesystem)
    }
}

/// Every name that a directory lists is found in it; what it leads to is a
/// directory that lists names itself, or a file that holds something.
pub proof fn law_listed_names_found(ino: u64, i: int)
    requires
        names_in(ino) is Some,
        0 <= i < names_in(ino)->0.len(),
    ensures
        is_directory(ino),
        child(ino, names_in(ino)->0[i]) matches Some(node) && (is_directory(node) <==> names_in(
            node,
        ) is Some) && (is_directory(node) <==> contents(node) is None),
{
}

} // verus!
