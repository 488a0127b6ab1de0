//! A file system that shows devices.
use vstd::prelude::*;

use crate::bytes::{self, copy_range};
use crate::pty::{has_pty, list_ptys, PtyTable, PtyView};
use crate::random::{self, get_random_bytes, Filling, RandomState};
use crate::store;
use crate::text::{self, decimal_bytes, is_text, is_utf8, parse_decimal, text_bytes};
use crate::vfs::{self, InodeMetadata, StatFs, VfsError};

verus! {

#[derive(Clone, Copy, Debug, PartialEq, Eq, Structural)]
pub struct DevFs;

/// The digits of a number, which a plus sign may precede.
pub open spec fn unsigned_part(name: Seq<u8>) -> Seq<u8> {
    if name.len() > 1 && name[0] == 0x2b {
        name.skip(1)
    } else {
        name
    }
}

/// The number that a name denotes.
pub open spec fn number_of(name: Seq<u8>) -> Option<u32> {
    let digits = unsigned_part(name);
    if text::is_numeral(digits) && text::decimal(digits) <= u32::MAX {
        Some(text::decimal(digits) as u32)
    } else {
        None
    }
}

fn parse_number(name: &[u8]) -> (r: Option<u32>)
    ensures
        r == number_of(name@),
{
    assert(name@.len() == name.len());
    if name.len() > 1 && name[0] == 0x2b {
        let digits = copy_range(name, 1, name.len());
        assert(digits@ =~= name@.skip(1));
        match parse_decimal(digits.as_slice(), 0xffff_ffff) {
            None => None,
            Some(value) => Some(value as u32),
        }
    } else {
        match parse_decimal(name, 0xffff_ffff) {
            None => None,
            Some(value) => Some(value as u32),
        }
    }
}

/// What a name in a directory leads to.
pub open spec fn child(ptys: Map<u64, PtyView>, parent: u64, name: Seq<u8>) -> Option<u64> {
    if parent == 1 {
        if vfs::is_self(name) || name == text::utf8(".."@) {
            Some(1)
        } else if name == text::utf8("null"@) {
            Some(2)
        } else if name == text::utf8("zero"@) {
            Some(3)
        } else if name == text::utf8("urandom"@) {
            Some(4)
        } else if name == text::utf8("random"@) {
            Some(5)
        } else if name == text::utf8("console"@) {
            Some(6)
        } else if name == text::utf8("tty"@) {
            Some(7)
        } else if name == text::utf8("pts"@) {
            Some(8)
        } else if name == text::utf8("ptmx"@) {
            Some(9)
        } else if name == text::utf8("shm"@) {
            Some(10)
        } else {
            None
        }
    } else if parent == 8 {
        if vfs::is_self(name) {
            Some(8)
        } else if name == text::utf8(".."@) {
            Some(1)
        } else {
            match number_of(name) {
                Some(id) if ptys.dom().contains(id as u64) => Some((100 + id) as u64),
                _ => None,
            }
        }
    } else {
        None
    }
}

/// What a node is; none if it is not there.
pub open spec fn mode_of(ptys: Map<u64, PtyView>, ino: u64) -> Option<u32> {
    if ino == 1 || ino == 8 {
        Some(0o040755)
    } else if 2 <= ino <= 7 || ino == 9 {
        Some(0o020666)
    } else if ino == 10 {
        Some(0o040777)
    } else if 100 <= ino <= 1000000 && ptys.dom().contains((ino - 100) as u64) {
        Some(0o020666)
    } else {
        None
    }
}

pub open spec fn root_names() -> Seq<Seq<u8>> {
    seq![
        text::utf8("."@),
        text::utf8(".."@),
        text::utf8("null"@),
        text::utf8("zero"@),
        text::utf8("urandom"@),
        text::utf8("random"@),
        text::utf8("console"@),
        text::utf8("tty"@),
        text::utf8("pts"@),
        text::utf8("ptmx"@),
        text::utf8("shm"@),
    ]
}

/// The numbers of all pairs, ascending.
pub open spec fn are_all(ptys: Map<u64, PtyView>, ids: Seq<u32>) -> bool {
    &&& forall|i: int, j: int| 0 <= i < j < ids.len() ==> ids[i] < ids[j]
    &&& forall|id: u32| #[trigger] ids.contains(id) <==> ptys.dom().contains(id as u64)
}

pub open spec fn pts_names(ids: Seq<u32>) -> Seq<Seq<u8>> {
    seq![text::utf8("."@), text::utf8(".."@)] + Seq::new(ids.len(), |i: int| text::decimal_text(ids[i] as nat))
}

impl DevFs {
    pub fn new() -> (r: Self)
        ensures
            r == DevFs,
    {
        DevFs
    }

    pub fn lookup(&self, ptys: &PtyTable, parent: u64, name: &[u8]) -> (r: Result<u64, VfsError>)
        requires
            ptys.wf(),
        ensures
            r == match child(ptys@, parent, name@) {
                Some(ino) => Ok::<u64, VfsError>(ino),
                None => Err(VfsError::NotFound),
            },
    {
        if parent == 1 {
            if name.len() == 0 || is_text(name, ".") || is_text(name, "..") {
                Ok(1)
            } else if is_text(name, "null") {
                Ok(2)
            } else if is_text(name, "zero") {
                Ok(3)
            } else if is_text(name, "urandom") {
                Ok(4)
            } else if is_text(name, "random") {
                Ok(5)
            } else if is_text(name, "console") {
                Ok(6)
            } else if is_text(name, "tty") {
                Ok(7)
            } else if is_text(name, "pts") {
                Ok(8)
            } else if is_text(name, "ptmx") {
                Ok(9)
            } else if is_text(name, "shm") {
                Ok(10)
            } else {
                Err(VfsError::NotFound)
            }
        } else if parent == 8 {
            if name.len() == 0 || is_text(name, ".") {
                Ok(8)
            } else if is_text(name, "..") {
                Ok(1)
            } else {
                match parse_number(name) {
                    Some(id) => if has_pty(ptys, id) {
                        Ok(100 + id as u64)
                    } else {
                        Err(VfsError::NotFound)
                    },
                    None => Err(VfsError::NotFound),
                }
            }
        } else {
            Err(VfsError::NotFound)
        }
    }

    pub fn read_inode(&self, ptys: &PtyTable, ino: u64) -> (r: Result<InodeMetadata, VfsError>)
        requires
            ptys.wf(),
        ensures
            r == match mode_of(ptys@, ino) {
                Some(mode) => Ok::<InodeMetadata, VfsError>(vfs::listed(ino, mode, 0)),
                None => Err(VfsError::NotFound),
            },
    {
        let mode: u32 = if ino == 1 || ino == 8 {
            0o040755
        } else if (ino >= 2 && ino <= 7) || ino == 9 {
            0o020666
        } else if ino == 10 {
            0o040777
        } else if ino >= 100 && ino <= 1000000 && has_pty(ptys, (ino - 100) as u32) {
            0o020666
        } else {
            return Err(VfsError::NotFound);
        };
        Ok(InodeMetadata { ino, size: 0, mode, uid: 0, gid: 0, atime: 0, mtime: 0, ctime: 0 })
    }

    pub fn readlink(&self, _ino: u64) -> (r: Result<Vec<u8>, VfsError>)
        ensures
            r == Err::<Vec<u8>, VfsError>(VfsError::InvalidPath),
    {
        Err(VfsError::InvalidPath)
    }

    /// Reads from a device: nothing, zeros, or random bytes from a place in the
    /// buffer on.
    pub fn read(&self, random: &mut RandomState, ino: u64, buf: &mut [u8], from: usize) -> (r: Result<
        Filling,
        VfsError,
    >)
        requires
            old(random).csprng.wf(),
            from <= old(buf)@.len(),
        ensures
            final(random).csprng.wf(),
            ino == 2 || ino == 6 || ino == 7 ==> r == Ok::<Filling, VfsError>(Filling::Done(0))
                && final(buf)@ == old(buf)@ && *final(random) == *old(random),
            ino == 3 ==> r == Ok::<Filling, VfsError>(
                Filling::Done(old(buf)@.len() as usize),
            ) && final(buf)@ == bytes::zeros(old(buf)@.len()) && *final(random) == *old(random),
            ino == 4 || ino == 5 ==> (r matches Ok(filling) && (
                final(random).csprng@,
                final(buf)@,
                filling,
            ) == random::random_filled(old(random).csprng@, old(buf)@, from as int)),
            !(2 <= ino <= 7) ==> r == Err::<Filling, VfsError>(VfsError::InvalidPath)
                && final(buf)@ == old(buf)@ && *final(random) == *old(random),
    {
        if ino == 2 || ino == 6 || ino == 7 {
            Ok(Filling::Done(0))
        } else if ino == 3 {
            let mut i: usize = 0;
            while i < buf.len()
                invariant
                    i <= buf@.len(),
                    buf@.len() == old(buf)@.len(),
                    forall|j: int| 0 <= j < i ==> buf@[j] == 0,
                decreases buf@.len() - i,
            {
                buf[i] = 0;
                i += 1;
            }
            assert(buf@ =~= bytes::zeros(old(buf)@.len()));
            Ok(Filling::Done(buf.len()))
        } else if ino == 4 || ino == 5 {
            Ok(get_random_bytes(random, buf, from))
        } else {
            Err(VfsError::InvalidPath)
        }
    }

    /// Writes to a device: how much of it was taken, and whether it is to be
    /// printed.
    pub fn write(&self, ino: u64, buf: &[u8]) -> (r: Result<(usize, bool), VfsError>)
        ensures
            r == if 2 <= ino <= 5 {
                Ok::<(usize, bool), VfsError>((buf@.len() as usize, false))
            } else if ino == 6 || ino == 7 {
                Ok((buf@.len() as usize, vstd::utf8::valid_utf8(buf@)))
            } else {
                Err(VfsError::ReadOnlyFilesystem)
            },
    {
        if ino >= 2 && ino <= 5 {
            Ok((buf.len(), false))
        } else if ino == 6 || ino == 7 {
            Ok((buf.len(), is_utf8(buf)))
        } else {
            Err(VfsError::ReadOnlyFilesystem)
        }
    }

    pub fn truncate(&self, _ino: u64, _size: u64) -> (r: Result<(), VfsError>)
        ensures
            r == Ok::<(), VfsError>(()),
    {
        Ok(())
    }

    pub fn read_dir(&self, ptys: &PtyTable, ino: u64) -> (r: Result<Vec<Vec<u8>>, VfsError>)
        requires
            ptys.wf(),
        ensures
            match r {
                Ok(names) => if ino == 1 {
                    store::views(names@) == root_names()
                } else {
                    ino == 8 && exists|ids: Seq<u32>| #[trigger]
                        are_all(ptys@, ids) && store::views(names@) == pts_names(ids)
                },
                Err(e) => e == VfsError::NotDirectory && ino != 1 && ino != 8,
            },
    {
        let mut names: Vec<Vec<u8>> = Vec::new();
        if ino == 1 {
            names.push(text_bytes("."));
            names.push(text_bytes(".."));
            names.push(text_bytes("null"));
            names.push(text_bytes("zero"));
            names.push(text_bytes("urandom"));
            names.push(text_bytes("random"));
            names.push(text_bytes("console"));
            names.push(text_bytes("tty"));
            names.push(text_bytes("pts"));
            names.push(text_bytes("ptmx"));
            names.push(text_bytes("shm"));
            assert(store::views(names@) =~= root_names());
            Ok(names)
        } else if ino == 8 {
            let ids: Vec<u32> = list_ptys(ptys);
            names.push(text_bytes("."));
            names.push(text_bytes(".."));
            let mut i: usize = 0;
            assert(store::views(names@) =~= pts_names(ids@.take(0)));
            while i < ids.len()
                invariant
                    i <= ids.len(),
                    store::views(names@) == pts_names(ids@.take(i as int)),
                decreases ids.len() - i,
            {
                let ghost before = store::views(names@);
                names.push(decimal_bytes(ids[i] as u64));
                i += 1;
                assert(store::views(names@) =~= before.push(text::decimal_text(ids@[i - 1] as nat)));
                assert(pts_names(ids@.take(i as int)) =~= before.push(
                    text::decimal_text(ids@[i - 1] as nat),
                ));
            }
            assert(ids@.take(i as int) =~= ids@);
            assert(are_all(ptys@, ids@));
            Ok(names)
        } else {
            Err(VfsError::NotDirectory)
        }
    }

    pub fn statfs(&self) -> (r: Result<StatFs, VfsError>)
        ensures
            r == Ok::<StatFs, VfsError>(
                StatFs {
                    f_type: 0x01021994,
                    f_bsize: 4096,
                    f_blocks: 1024,
                    f_bfree: 1024,
                    f_bavail: 1024,
                    f_files: 64,
                    f_ffree: 50,
                },
            ),
    {
        Ok(
            StatFs {
                    f_type: 0x01021994,
                    f_bsize: 4096,
                    f_blocks: 1024,
                    f_bfree: 1024,
                    f_bavail: 1024,
                    f_files: 64,
                    f_ffree: 50,
                },
        )
    }

    pub fn create(&self, _parent: u64, _name: &[u8], _mode: u32) -> (r: Result<u64, VfsError>)
        ensures
            r == Err::<u64, VfsError>(VfsError::ReadOnlyFilesystem),
    {
        Err(VfsError::ReadOnlyFilesystem)
    }

    pub fn mkdir(&self, _parent: u64, _name: &[u8], _mode: u32) -> (r: Result<u64, VfsError>)
        ensures
            r == Err::<u64, VfsError>(VfsError::ReadOnlyFilesystem),
    {
        Err(VfsError::ReadOnlyFilesystem)
    }

    pub fn unlink(&self, _parent: u64, _name: &[u8]) -> (r: Result<(), VfsError>)
        ensures
            r == Err::<(), VfsError>(VfsError::ReadOnlyFilesystem),
    {
        Err(VfsError::ReadOnlyFilesystem)
    }

    pub fn rmdir(&self, _parent: u64, _name: &[u8]) -> (r: Result<(), VfsError>)
        ensures
            r == Err::<(), VfsError>(VfsError::ReadOnlyFilesystem),
    {
        Err(VfsError::ReadOnlyFilesystem)
    }

    pub fn symlink(&self, _parent: u64, _name: &[u8], _target: &[u8]) -> (r: Result<u64, VfsError>)
        ensures
            r == Err::<u64, VfsError>(VfsError::ReadOnlyFilesystem),
    {
        Err(VfsError::ReadOnlyFilesystem)
    }

    pub fn rename(
        &self,
        _old_parent: u64,
        _old_name: &[u8],
        _new_parent: u64,
        _new_name: &[u8],
    ) -> (r: Result<(), VfsError>)
        ensures
            r == Err::<(), VfsError>(VfsError::ReadOnlyFilesystem),
    {
        Err(VfsError::ReadOnlyFilesystem)
    }

    pub fn sync(&self) -> (r: Result<(), VfsError>)
        ensures
            r == Ok::<(), VfsError>(()),
    {
        Ok(())
    }

    /// The contents are made when they are read.
    pub fn is_page_cached(&self) -> (r: bool)
        ensures
            !r,
    {
        false
    }

    pub fn root_inode(&self) -> (r: u64)
        ensures
            r == 1,
    {
        1
    }
}

/// Every name that the directory of devices lists is found in it, and leads to
/// something.
pub proof fn law_listed_names_found(ptys: Map<u64, PtyView>, i: int)
    requires
        0 <= i < root_names().len(),
    ensures
        child(ptys, 1, root_names()[i]) matches Some(node) && mode_of(ptys, node) is Some,
{
}

/// A terminal is found under its number, and only those that are there are
/// listed, each under its own.
pub proof fn law_terminal_by_number(ptys: Map<u64, PtyView>, ids: Seq<u32>, i: int)
    requires
        are_all(ptys, ids),
        0 <= i < ids.len(),
        ids[i] <= 999_900,
    ensures
        pts_names(ids)[i + 2] == text::decimal_text(ids[i] as nat),
        child(ptys, 8, text::decimal_text(ids[i] as nat)) == Some((100 + ids[i]) as u64),
        mode_of(ptys, (100 + ids[i]) as u64) == Some(0o020666u32),
{
    let name = text::decimal_text(ids[i] as nat);
    text::law_decimal_round_trip(ids[i] as nat);
    assert(ids.contains(ids[i]));
    assert(ptys.dom().contains(ids[i] as u64));
    lemma_not_dots(ids[i] as nat);
}

proof fn lemma_not_dots(n: nat)
    ensures
        text::decimal_text(n).len() > 0,
        text::decimal_text(n)[0] >= 48,
        !vfs::is_self(text::decimal_text(n)),
        text::decimal_text(n) != text::utf8(".."@),
{
    text::law_decimal_round_trip(n);
    reveal_strlit("..");
    reveal_strlit(".");
    assert(vstd::utf8::is_ascii_chars(".."@));
    vstd::utf8::is_ascii_chars_encode_utf8(".."@);
    assert(vstd::utf8::is_ascii_chars("."@));
    vstd::utf8::is_ascii_chars_encode_utf8("."@);
}

} // verus!
