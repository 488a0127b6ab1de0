//! Disk images: a partition table, a partition to boot from and one for the
//! root file system.
use vstd::prelude::*;
use vstd::slice::slice_subrange;

use std::io::Cursor;

use crate::bytes::{self, push_all, push_le32, push_le64, push_zeros, put_vec};
use crate::gpt::{self, crc32, GptError, RootPartition};
use crate::store;
use crate::text;

verus! {

pub const SECTOR_SIZE: usize = 512;

pub const GPT_ENTRY_SIZE: usize = 128;

pub const GPT_ENTRY_COUNT: usize = 128;

pub const GPT_ENTRIES_LBA: u64 = 2;

pub const GPT_FIRST_USABLE_LBA: u64 = 34;

pub const ESP_START_LBA: u64 = 2_048;

/// The type of a partition to boot from.
pub open spec fn esp_type() -> Seq<u8> {
    seq![
        0x28u8, 0x73, 0x2a, 0xc1, 0x1f, 0xf8, 0xd2, 0x11, 0xba, 0x4b, 0x00, 0xa0, 0xc9, 0x3e, 0xc9,
        0x3b,
    ]
}

#[derive(Clone, Copy, Debug, PartialEq, Eq, Structural)]
pub struct ImageOptions {
    pub esp_sectors: u64,
    pub root_sectors: u64,
}

#[derive(Clone, Copy, Debug)]
pub struct ImageContents<'a> {
    pub boot_efi: &'a [u8],
    pub kernel: &'a [u8],
    pub limine_config: &'a [u8],
    pub root_files: &'a [RootFile<'a>],
}

#[derive(Clone, Copy, Debug)]
pub struct RootFile<'a> {
    pub path: &'a str,
    pub contents: &'a [u8],
    pub mode: u16,
    pub uid: u32,
    pub gid: u32,
}

#[derive(Clone, Copy, Debug, PartialEq, Eq, Structural)]
pub enum ImageError {
    InvalidLayout,
    Io,
    /// What the root file system was refused with.
    RedoxFs(i32),
}

// ---------------------------------------------------------------------------
// The partition to boot from
// ---------------------------------------------------------------------------
/// A FAT volume in memory. Only what `fatfs` made is one.
#[derive(Debug)]
pub struct FatVolume {
    bytes: Vec<u8>,
}

impl View for FatVolume {
    type V = Seq<u8>;

    closed spec fn view(&self) -> Seq<u8> {
        self.bytes@
    }
}

/// A new volume of a size with a label; none where the size will not do.
pub uninterp spec fn formatted(size: nat, label: Seq<u8>) -> Option<Seq<u8>>;

/// A volume with one more directory; none where it cannot be.
pub uninterp spec fn with_directory(volume: Seq<u8>, path: Seq<char>) -> Option<Seq<u8>>;

/// A volume with one more file; none where it cannot be.
pub uninterp spec fn with_file(volume: Seq<u8>, path: Seq<char>, contents: Seq<u8>) -> Option<
    Seq<u8>,
>;

/// Makes a volume with a label, by `fatfs::format_volume`. It depends on the
/// size and the label alone, as no clock is asked, and leaves the size.
#[verifier::external_body]
fn format_fat(size: usize, label: [u8; 11]) -> (r: Option<FatVolume>)
    ensures
        match r {
            Some(volume) => formatted(size as nat, label@) == Some(volume@) && volume@.len()
                == size,
            None => formatted(size as nat, label@) is None,
        },
{
    let mut bytes = vec![0u8; size];
    let options = fatfs::FormatVolumeOptions::new().volume_label(label);
    match fatfs::format_volume(Cursor::new(bytes.as_mut_slice()), options) {
        Ok(()) => Some(FatVolume { bytes }),
        Err(_) => None,
    }
}

/// Makes a directory, by `create_dir` of the root directory of a
/// `fatfs::FileSystem`. It depends on the volume and the path alone, and leaves
/// the size.
#[verifier::external_body]
fn create_fat_directory(volume: FatVolume, path: &str) -> (r: Option<FatVolume>)
    ensures
        match r {
            Some(after) => with_directory(volume@, path@) == Some(after@) && after@.len()
                == volume@.len(),
            None => with_directory(volume@, path@) is None,
        },
{
    let mut bytes = volume.bytes;
    let disk = Cursor::new(bytes.as_mut_slice());
    let fs = fatfs::FileSystem::new(disk, fatfs::FsOptions::new()).ok()?;
    fs.root_dir().create_dir(path).ok()?;
    fs.unmount().ok()?;
    Some(FatVolume { bytes })
}

/// Makes a file and writes it, by `create_file` of the root directory of a
/// `fatfs::FileSystem` and `write_all`. It depends on the volume, the path and
/// the contents alone, and leaves the size.
#[verifier::external_body]
fn create_fat_file(volume: FatVolume, path: &str, contents: &[u8]) -> (r: Option<FatVolume>)
    ensures
        match r {
            Some(after) => with_file(volume@, path@, contents@) == Some(after@) && after@.len()
                == volume@.len(),
            None => with_file(volume@, path@, contents@) is None,
        },
{
    let mut bytes = volume.bytes;
    let disk = Cursor::new(bytes.as_mut_slice());
    let fs = fatfs::FileSystem::new(disk, fatfs::FsOptions::new()).ok()?;
    let mut file = fs.root_dir().create_file(path).ok()?;
    std::io::Write::write_all(&mut file, contents).ok()?;
    drop(file);
    fs.unmount().ok()?;
    Some(FatVolume { bytes })
}

/// What follows a step, where it went well.
pub open spec fn then_directory(volume: Option<Seq<u8>>, path: Seq<char>) -> Option<Seq<u8>> {
    match volume {
        Some(bytes) => with_directory(bytes, path),
        None => None,
    }
}

pub open spec fn then_file(volume: Option<Seq<u8>>, path: Seq<char>, contents: Seq<u8>) -> Option<
    Seq<u8>,
> {
    match volume {
        Some(bytes) => with_file(bytes, path, contents),
        None => None,
    }
}

/// The label of the volume to boot from, `VANTA ESP`.
pub open spec fn esp_label() -> Seq<u8> {
    seq![0x56u8, 0x41, 0x4e, 0x54, 0x41, 0x20, 0x45, 0x53, 0x50, 0x20, 0x20]
}

/// The volume to boot from: its directories, the loader, the kernel and what
/// the loader is told.
pub open spec fn esp_volume(size: nat, contents: ImageContents<'_>) -> Option<Seq<u8>> {
    let made = then_directory(
        then_directory(then_directory(formatted(size, esp_label()), "EFI"@), "EFI/BOOT"@),
        "boot"@,
    );
    then_file(
        then_file(
            then_file(made, "EFI/BOOT/BOOTX64.EFI"@, contents.boot_efi@),
            "boot/vanta-kernel"@,
            contents.kernel@,
        ),
        "limine.conf"@,
        contents.limine_config@,
    )
}

pub fn build_esp(sectors: u64, contents: ImageContents<'_>) -> (r: Result<Vec<u8>, ImageError>)
    ensures
        match r {
            Ok(bytes) => sectors * 512 <= usize::MAX && esp_volume(
                (sectors * 512) as nat,
                contents,
            ) == Some(bytes@) && bytes@.len() == sectors * 512,
            Err(e) => e == if sectors * 512 > usize::MAX {
                ImageError::InvalidLayout
            } else {
                ImageError::Io
            } && (sectors * 512 <= usize::MAX ==> esp_volume(
                (sectors * 512) as nat,
                contents,
            ) is None),
        },
{
    if sectors > usize::MAX as u64 / 512 {
        return Err(ImageError::InvalidLayout);
    }
    let size: usize = sectors as usize * SECTOR_SIZE;
    let label: [u8; 11] = [0x56, 0x41, 0x4e, 0x54, 0x41, 0x20, 0x45, 0x53, 0x50, 0x20, 0x20];
    assert(label@ =~= esp_label());
    let volume = match format_fat(size, label) {
        None => {
            return Err(ImageError::Io);
        },
        Some(volume) => volume,
    };
    let volume = match create_fat_directory(volume, "EFI") {
        None => {
            return Err(ImageError::Io);
        },
        Some(volume) => volume,
    };
    let volume = match create_fat_directory(volume, "EFI/BOOT") {
        None => {
            return Err(ImageError::Io);
        },
        Some(volume) => volume,
    };
    let volume = match create_fat_directory(volume, "boot") {
        None => {
            return Err(ImageError::Io);
        },
        Some(volume) => volume,
    };
    let volume = match create_fat_file(volume, "EFI/BOOT/BOOTX64.EFI", contents.boot_efi) {
        None => {
            return Err(ImageError::Io);
        },
        Some(volume) => volume,
    };
    let volume = match create_fat_file(volume, "boot/vanta-kernel", contents.kernel) {
        None => {
            return Err(ImageError::Io);
        },
        Some(volume) => volume,
    };
    let volume = match create_fat_file(volume, "limine.conf", contents.limine_config) {
        None => {
            return Err(ImageError::Io);
        },
        Some(volume) => volume,
    };
    Ok(volume.bytes)
}

// ---------------------------------------------------------------------------
// The root file system
// ---------------------------------------------------------------------------
/// Where a file of the root file system goes: the directories on the way, and
/// its name.
#[derive(Debug)]
pub struct PlannedFile {
    pub parents: Vec<Vec<u8>>,
    pub name: Vec<u8>,
}

pub open spec fn is_named(part: Seq<u8>) -> bool {
    part.len() > 0
}

/// The parts of a path that are not empty.
pub open spec fn named_parts(parts: Seq<Seq<u8>>) -> Seq<Seq<u8>>
    decreases parts.len(),
{
    if parts.len() == 0 {
        Seq::empty()
    } else {
        let before = named_parts(parts.drop_last());
        if is_named(parts.last()) {
            before.push(parts.last())
        } else {
            before
        }
    }
}

pub open spec fn components(path: Seq<u8>) -> Seq<Seq<u8>> {
    named_parts(text::split(path, 0x2f))
}

/// Where a file goes: the directories on the way, and its name. A path without
/// a name goes nowhere.
pub fn plan_root_file(path: &str) -> (r: Option<PlannedFile>)
    ensures
        match r {
            Some(plan) => components(text::utf8(path@)) == store::views(plan.parents@).push(plan.name@),
            None => components(text::utf8(path@)).len() == 0,
        },
{
    let text: Vec<u8> = crate::text::text_bytes(path);
    let mut parts: Vec<Vec<u8>> = split_named(text.as_slice());
    if parts.len() == 0 {
        return None;
    }
    let ghost all = store::views(parts@);
    match parts.pop() {
        None => None,
        Some(name) => {
            assert(all =~= store::views(parts@).push(name@));
            Some(PlannedFile { parents: parts, name })
        },
    }
}

fn split_named(path: &[u8]) -> (r: Vec<Vec<u8>>)
    ensures
        store::views(r@) == components(path@),
{
    let mut found: Vec<Vec<u8>> = Vec::new();
    let mut rest: &[u8] = path;
    let ghost all = text::split(path@, 0x2f);
    let ghost mut seen: int = 0;
    let mut more: bool = true;
    assert(all.take(0) =~= Seq::<Seq<u8>>::empty());
    assert(all.skip(0) =~= all);
    assert(store::views(found@) =~= Seq::<Seq<u8>>::empty());
    while more
        invariant
            0 <= seen <= all.len(),
            all == text::split(path@, 0x2f),
            store::views(found@) == named_parts(all.take(seen)),
            more ==> seen < all.len() && all.skip(seen) == text::split(rest@, 0x2f),
            !more ==> seen == all.len(),
        decreases all.len() - seen,
    {
        let i: usize = crate::text::find_byte(rest, 0x2f);
        assert(rest@.len() == rest.len());
        let part = slice_subrange(rest, 0, i);
        let ghost before = rest@;
        let ghost left = all.skip(seen);
        proof {
            assert(part@ =~= before.take(i as int));
            if i < before.len() {
                assert(left == seq![before.take(i as int)] + text::split(before.skip(i + 1), 0x2f));
                crate::text::lemma_split_more(before, 0x2f);
            } else {
                assert(before.take(i as int) =~= before);
                assert(left == seq![before]);
            }
            assert(left[0] == part@);
            assert(all[seen] == part@);
            assert(all.take(seen + 1).drop_last() =~= all.take(seen));
            assert(all.take(seen + 1).last() == part@);
        }
        if part.len() > 0 {
            let ghost names = store::views(found@);
            found.push(vstd::slice::slice_to_vec(part));
            assert(store::views(found@) =~= names.push(part@));
        }
        if i < rest.len() {
            rest = slice_subrange(rest, i + 1, rest.len());
            proof {
                assert(rest@ =~= before.skip(i + 1));
                assert(all.skip(seen + 1) =~= left.skip(1));
                assert(left.skip(1) =~= text::split(rest@, 0x2f));
                crate::text::lemma_split_more(rest@, 0x2f);
                assert(all.skip(seen + 1).len() >= 1);
            }
        } else {
            more = false;
            assert(left.len() == 1);
        }
        proof {
            seen = seen + 1;
        }
    }
    assert(all.take(seen) =~= all);
    found
}

/// What was found under the name of a directory on the way.
#[derive(Clone, Copy, Debug, PartialEq, Eq, Structural)]
pub enum Found {
    Directory,
    Other,
    Nothing,
    Failed(i32),
}

/// What to do about a directory on the way.
#[derive(Clone, Copy, Debug, PartialEq, Eq, Structural)]
pub enum Descent {
    Enter,
    Create,
    Refuse(i32),
}

pub const EIO: i32 = 5;

/// What to do about what was found: a directory is entered, one that is not
/// there is made, and nothing else is gone through.
pub open spec fn descent(found: Found) -> Descent {
    match found {
        Found::Directory => Descent::Enter,
        Found::Other => Descent::Refuse(5),
        Found::Nothing => Descent::Create,
        Found::Failed(error) => Descent::Refuse(error),
    }
}

pub fn descend(found: Found) -> (r: Descent)
    ensures
        r == descent(found),
{
    match found {
        Found::Directory => Descent::Enter,
        Found::Other => Descent::Refuse(EIO),
        Found::Nothing => Descent::Create,
        Found::Failed(error) => Descent::Refuse(error),
    }
}

/// A RedoxFS volume in memory, with its file system open. Only what `redoxfs`
/// made is one.
#[verifier::external_body]
pub struct RootVolume {
    fs: redoxfs::FileSystem<redoxfs::DiskIo<Cursor<Vec<u8>>>>,
}

/// The bytes of a volume.
pub uninterp spec fn volume_bytes(volume: RootVolume) -> Seq<u8>;

/// A transaction on a volume that has not ended yet.
#[verifier::external_body]
pub struct RootTransaction<'a, 'b> {
    tx: &'a mut redoxfs::Transaction<'b, redoxfs::DiskIo<Cursor<Vec<u8>>>>,
}

/// A step of a transaction.
pub enum RootStep {
    Looked { parent: u32, name: Seq<u8> },
    Made { parent: u32, name: Seq<u8>, mode: u16, seconds: u64, nanoseconds: u32 },
    Wrote { node: u32, contents: Seq<u8> },
}

/// The bytes of the volume that a transaction began on.
pub uninterp spec fn begun_on(t: RootTransaction<'_, '_>) -> Seq<u8>;

/// The steps of a transaction so far.
pub uninterp spec fn steps_of(t: RootTransaction<'_, '_>) -> Seq<RootStep>;

/// What a directory has under a name, in a transaction on a volume after some
/// steps: its number and whether it is a directory, or the error.
pub uninterp spec fn root_entry(
    volume: Seq<u8>,
    steps: Seq<RootStep>,
    parent: u32,
    name: Seq<u8>,
) -> Result<(u32, bool), i32>;

/// The number of the node that is made in a transaction on a volume after some
/// steps, or the error.
pub uninterp spec fn root_node(
    volume: Seq<u8>,
    steps: Seq<RootStep>,
    parent: u32,
    name: Seq<u8>,
    mode: u16,
    seconds: u64,
    nanoseconds: u32,
) -> Result<u32, i32>;

/// How writing a file from its start ends, in a transaction on a volume after
/// some steps: with the number of bytes, or an error.
pub uninterp spec fn root_write(
    volume: Seq<u8>,
    steps: Seq<RootStep>,
    node: u32,
    contents: Seq<u8>,
) -> Result<usize, i32>;

/// The bytes of a volume when a transaction with some steps is committed, or
/// the error.
pub uninterp spec fn root_committed(volume: Seq<u8>, steps: Seq<RootStep>) -> Result<Seq<u8>, i32>;

/// The error with which a volume of a size is refused, if it is.
pub uninterp spec fn format_refusal(size: usize) -> Option<i32>;

/// Whether a number is one that `redoxfs` gives to nodes: its tables have 254
/// places each, and a number is made of four of them.
pub open spec fn node_number(n: u32) -> bool {
    &&& n % 256 < 254
    &&& n / 256 % 256 < 254
    &&& n / 65536 % 256 < 254
    &&& n / 16777216 < 254
}

/// What a RedoxFS volume starts with.
pub open spec fn root_signature() -> Seq<u8> {
    seq![0x52u8, 0x65, 0x64, 0x6f, 0x78, 0x46, 0x53, 0]
}

/// Whether `redoxfs` can keep a name: it takes the bytes before the first zero
/// byte for the name, and cannot read an entry back whose name is empty.
pub open spec fn can_be_kept(name: Seq<u8>) -> bool {
    name.len() > 0 && name[0] != 0
}

/// Whether each name in a path can be kept.
pub open spec fn path_can_be_kept(path: Seq<char>) -> bool {
    forall|i: int|
        0 <= i < components(text::utf8(path)).len() ==> can_be_kept(
            #[trigger] components(text::utf8(path))[i],
        )
}

/// Whether the names in the paths of all files can be kept.
pub open spec fn files_can_be_kept(files: Seq<RootFile<'_>>) -> bool {
    forall|i: int| 0 <= i < files.len() ==> path_can_be_kept((#[trigger] files[i]).path@)
}

/// Whether a mode is that of a directory.
pub open spec fn is_directory_mode(mode: u16) -> bool {
    mode & 0xf000 == 0x4000
}

/// Whether a step made or found a node that is a directory.
pub open spec fn step_shows_directory(
    volume: Seq<u8>,
    steps: Seq<RootStep>,
    i: int,
    node: u32,
) -> bool {
    match steps[i] {
        RootStep::Looked { parent, name } => root_entry(volume, steps.take(i), parent, name) == Ok::<
            (u32, bool),
            i32,
        >((node, true)),
        RootStep::Made { parent, name, mode, seconds, nanoseconds } => is_directory_mode(mode)
            && root_node(volume, steps.take(i), parent, name, mode, seconds, nanoseconds) == Ok::<
            u32,
            i32,
        >(node),
        RootStep::Wrote { .. } => false,
    }
}

/// Whether a node is known as a directory after some steps: the root directory
/// is, and what a step made or found as one.
pub open spec fn is_known_directory(volume: Seq<u8>, steps: Seq<RootStep>, node: u32) -> bool {
    node == ROOT_NODE || exists|i: int|
        0 <= i < steps.len() && #[trigger] step_shows_directory(volume, steps, i, node)
}

/// Whether the last step made a node that is no directory.
pub open spec fn is_fresh_file(volume: Seq<u8>, steps: Seq<RootStep>, node: u32) -> bool {
    &&& steps.len() > 0
    &&& steps.last() matches RootStep::Made { parent, name, mode, seconds, nanoseconds }
    &&& !is_directory_mode(mode)
    &&& root_node(volume, steps.drop_last(), parent, name, mode, seconds, nanoseconds) == Ok::<
        u32,
        i32,
    >(node)
}

/// What is known as a directory stays one.
proof fn lemma_directory_stays(volume: Seq<u8>, steps: Seq<RootStep>, step: RootStep, node: u32)
    requires
        is_known_directory(volume, steps, node),
    ensures
        is_known_directory(volume, steps.push(step), node),
{
    if node != ROOT_NODE {
        let i = choose|i: int|
            0 <= i < steps.len() && #[trigger] step_shows_directory(volume, steps, i, node);
        assert(steps.push(step).take(i) =~= steps.take(i));
        assert(step_shows_directory(volume, steps.push(step), i, node));
    }
}

/// What the last step shows as a directory is known as one.
proof fn lemma_directory_shown(volume: Seq<u8>, steps: Seq<RootStep>, step: RootStep, node: u32)
    requires
        ({
            match step {
                RootStep::Looked { parent, name } => root_entry(volume, steps, parent, name)
                    == Ok::<(u32, bool), i32>((node, true)),
                RootStep::Made { parent, name, mode, seconds, nanoseconds } => is_directory_mode(
                    mode,
                ) && root_node(volume, steps, parent, name, mode, seconds, nanoseconds) == Ok::<
                    u32,
                    i32,
                >(node),
                RootStep::Wrote { .. } => false,
            }
        }),
    ensures
        is_known_directory(volume, steps.push(step), node),
{
    let after = steps.push(step);
    let i = steps.len() as int;
    assert(after.take(i) =~= steps);
    assert(step_shows_directory(volume, after, i, node));
}

/// Makes an empty volume, by `redoxfs::FileSystem::create`. The volume has an
/// identifier that is drawn at random, so nothing is claimed of its bytes but
/// how many there are. Whether a size is refused, and with what error, depends
/// on the size alone; one below 260 blocks of 4096 bytes is, with `ENOSPC`.
#[verifier::external_body]
fn format_root(size: usize) -> (r: Result<RootVolume, i32>)
    ensures
        match r {
            Ok(volume) => volume_bytes(volume).len() == size && format_refusal(size) is None && size
                / 4096 >= 260,
            Err(e) => format_refusal(size) == Some(e) && (size / 4096 < 260 ==> e == 28),
        },
{
    let disk = redoxfs::DiskIo(Cursor::new(vec![0u8; size]));
    match redoxfs::FileSystem::create(disk, None, 0, 0) {
        Ok(fs) => Ok(RootVolume { fs }),
        Err(e) => Err(e.errno),
    }
}

/// Looks a name up, by `find_node` of a `redoxfs::Transaction`. What it finds
/// depends on the volume, the steps before, the directory and the name alone,
/// and is the number of a node. The node it is looked up in has to be a
/// directory, and the name one that can be kept.
#[verifier::external_body]
fn find_root_node(t: &mut RootTransaction<'_, '_>, parent: u32, name: &[u8]) -> (r: Result<
    (u32, bool),
    i32,
>)
    requires
        node_number(parent),
        is_known_directory(begun_on(*old(t)), steps_of(*old(t)), parent),
        can_be_kept(name@),
    ensures
        begun_on(*final(t)) == begun_on(*old(t)),
        steps_of(*final(t)) == steps_of(*old(t)).push(RootStep::Looked { parent, name: name@ }),
        r == root_entry(begun_on(*old(t)), steps_of(*old(t)), parent, name@),
        r matches Ok(found) ==> node_number(found.0),
{
    let name = String::from_utf8_lossy(name);
    match t.tx.find_node(redoxfs::TreePtr::new(parent), &name) {
        Ok(node) => Ok((node.id(), node.data().is_dir())),
        Err(e) => Err(e.errno),
    }
}

/// Makes a node, by `create_node` of a `redoxfs::Transaction`. What comes of
/// it depends on the volume, the steps before and the arguments alone, and the
/// node has a number. The node it is made in has to be a directory, and the
/// name one that can be kept: a second name of no length in a directory stops
/// the program.
#[verifier::external_body]
fn create_root_node(
    t: &mut RootTransaction<'_, '_>,
    parent: u32,
    name: &[u8],
    mode: u16,
    seconds: u64,
    nanoseconds: u32,
) -> (r: Result<u32, i32>)
    requires
        node_number(parent),
        is_known_directory(begun_on(*old(t)), steps_of(*old(t)), parent),
        can_be_kept(name@),
    ensures
        begun_on(*final(t)) == begun_on(*old(t)),
        steps_of(*final(t)) == steps_of(*old(t)).push(
            (RootStep::Made { parent, name: name@, mode, seconds, nanoseconds }),
        ),
        r == root_node(
            begun_on(*old(t)),
            steps_of(*old(t)),
            parent,
            name@,
            mode,
            seconds,
            nanoseconds,
        ),
        r matches Ok(made) ==> node_number(made),
{
    let name = String::from_utf8_lossy(name);
    let parent = redoxfs::TreePtr::new(parent);
    match t.tx.create_node(parent, &name, mode, seconds, nanoseconds) {
        Ok(node) => Ok(node.id()),
        Err(e) => Err(e.errno),
    }
}

/// Writes a file from its start, by `write_node` of a `redoxfs::Transaction`.
/// What comes of it depends on the volume, the steps before and the arguments
/// alone. The node has to be one that was just made, and no directory.
#[verifier::external_body]
fn write_root_node(t: &mut RootTransaction<'_, '_>, node: u32, contents: &[u8]) -> (r: Result<
    usize,
    i32,
>)
    requires
        node_number(node),
        is_fresh_file(begun_on(*old(t)), steps_of(*old(t)), node),
    ensures
        begun_on(*final(t)) == begun_on(*old(t)),
        steps_of(*final(t)) == steps_of(*old(t)).push(
            (RootStep::Wrote { node, contents: contents@ }),
        ),
        r == root_write(begun_on(*old(t)), steps_of(*old(t)), node, contents@),
{
    match t.tx.write_node(redoxfs::TreePtr::new(node), 0, contents, 0, 0) {
        Ok(count) => Ok(count),
        Err(e) => Err(e.errno),
    }
}

/// Fills a volume in one transaction, by `tx` of a `redoxfs::FileSystem`: it
/// begins a transaction on the volume, runs `fill_root` on it and, if that
/// succeeds, commits it. The volume still starts with the signature: that
/// stands in each of the headers, of which the first block holds one. How many
/// bytes there are is not said. Each name in the paths has to be one that can
/// be kept.
#[verifier::external_body]
fn fill_volume(volume: RootVolume, files: &[RootFile<'_>]) -> (r: Result<Vec<u8>, i32>)
    requires
        files_can_be_kept(files@),
    ensures
        match root_filled(volume_bytes(volume), Seq::empty(), files@) {
            (steps, Ok(_)) => match root_committed(volume_bytes(volume), steps) {
                Ok(bytes) => r matches Ok(filled) && filled@ == bytes,
                Err(error) => r matches Err(e) && e == error,
            },
            (_, Err(error)) => r matches Err(e) && e == error,
        },
        r matches Ok(filled) ==> filled@.len() >= 8 && filled@.take(8) == root_signature(),
{
    let mut fs = volume.fs;
    let done = fs.tx(|tx| fill_root(&mut RootTransaction { tx }, files).map_err(::syscall::Error::new));
    match done {
        Ok(()) => Ok(fs.disk.0.into_inner()),
        Err(e) => Err(e.errno),
    }
}

/// The number of the root directory.
pub const ROOT_NODE: u32 = 1;

/// The mode of a directory that all may enter and its owner may change.
pub const DIRECTORY_MODE: u16 = 0x41ed;

/// The mode of a file that all may read and its owner may change.
pub const FILE_MODE: u16 = 0x81a4;

/// What marks a mode as that of a file.
pub const FILE_KIND: u16 = 0x8000;

pub const ENOENT: i32 = 2;

/// What a lookup found, as the way down sees it.
pub open spec fn found_as(entry: Result<(u32, bool), i32>) -> Found {
    match entry {
        Ok((_, true)) => Found::Directory,
        Ok((_, false)) => Found::Other,
        Err(error) => if error == 2 {
            Found::Nothing
        } else {
            Found::Failed(error)
        },
    }
}

/// A node made: the steps with it, and its number.
pub open spec fn node_made(
    volume: Seq<u8>,
    steps: Seq<RootStep>,
    parent: u32,
    name: Seq<u8>,
    mode: u16,
    seconds: u64,
    nanoseconds: u32,
) -> (Seq<RootStep>, Result<u32, i32>) {
    (
        steps.push((RootStep::Made { parent, name, mode, seconds, nanoseconds })),
        root_node(volume, steps, parent, name, mode, seconds, nanoseconds),
    )
}

/// A directory on the way entered, and made where there was none.
pub open spec fn entered(
    volume: Seq<u8>,
    steps: Seq<RootStep>,
    parent: u32,
    name: Seq<u8>,
) -> (Seq<RootStep>, Result<u32, i32>) {
    let entry = root_entry(volume, steps, parent, name);
    let looked = steps.push((RootStep::Looked { parent, name }));
    match descent(found_as(entry)) {
        Descent::Enter => (looked, Ok(entry->Ok_0.0)),
        Descent::Create => node_made(volume, looked, parent, name, DIRECTORY_MODE, 0, 0),
        Descent::Refuse(error) => (looked, Err(error)),
    }
}

/// The directories of a path entered, one after the other.
pub open spec fn entered_all(
    volume: Seq<u8>,
    steps: Seq<RootStep>,
    parent: u32,
    names: Seq<Seq<u8>>,
    i: int,
) -> (Seq<RootStep>, Result<u32, i32>)
    decreases names.len() - i,
{
    if i >= names.len() {
        (steps, Ok(parent))
    } else {
        match entered(volume, steps, parent, names[i]) {
            (after, Ok(node)) => entered_all(volume, after, node, names, i + 1),
            (after, Err(error)) => (after, Err(error)),
        }
    }
}

/// A node made and written.
pub open spec fn file_made(
    volume: Seq<u8>,
    steps: Seq<RootStep>,
    parent: u32,
    name: Seq<u8>,
    mode: u16,
    seconds: u64,
    nanoseconds: u32,
    contents: Seq<u8>,
) -> (Seq<RootStep>, Result<(), i32>) {
    match node_made(volume, steps, parent, name, mode, seconds, nanoseconds) {
        (after, Ok(node)) => (
            after.push((RootStep::Wrote { node, contents })),
            match root_write(volume, after, node, contents) {
                Ok(_) => Ok(()),
                Err(error) => Err(error),
            },
        ),
        (after, Err(error)) => (after, Err(error)),
    }
}

/// A file put where its path says, in directories that are made on the way.
/// Its owner is kept where a time would be.
pub open spec fn file_installed(volume: Seq<u8>, steps: Seq<RootStep>, file: RootFile<'_>) -> (
    Seq<RootStep>,
    Result<(), i32>,
) {
    let parts = components(text::utf8(file.path@));
    if parts.len() == 0 {
        (steps, Err(5))
    } else {
        match entered_all(volume, steps, ROOT_NODE, parts.drop_last(), 0) {
            (after, Ok(parent)) => file_made(
                volume,
                after,
                parent,
                parts.last(),
                FILE_KIND | file.mode,
                file.uid as u64,
                file.gid,
                file.contents@,
            ),
            (after, Err(error)) => (after, Err(error)),
        }
    }
}

pub open spec fn files_installed(
    volume: Seq<u8>,
    steps: Seq<RootStep>,
    files: Seq<RootFile<'_>>,
    i: int,
) -> (Seq<RootStep>, Result<(), i32>)
    decreases files.len() - i,
{
    if i >= files.len() {
        (steps, Ok(()))
    } else {
        match file_installed(volume, steps, files[i]) {
            (after, Ok(_)) => files_installed(volume, after, files, i + 1),
            (after, Err(error)) => (after, Err(error)),
        }
    }
}

/// What the settings of a new system say.
pub open spec fn first_settings() -> Seq<u8> {
    text::utf8("vanta-vfs-syscall\n"@)
}

/// The directories of a new system made, its settings and the files that were
/// asked for.
pub open spec fn root_filled(volume: Seq<u8>, steps: Seq<RootStep>, files: Seq<RootFile<'_>>) -> (
    Seq<RootStep>,
    Result<(), i32>,
) {
    match node_made(volume, steps, ROOT_NODE, text::utf8("etc"@), DIRECTORY_MODE, 0, 0) {
        (s1, Err(error)) => (s1, Err(error)),
        (s1, Ok(etc)) => match node_made(
            volume,
            s1,
            ROOT_NODE,
            text::utf8("home"@),
            DIRECTORY_MODE,
            0,
            0,
        ) {
            (s2, Err(error)) => (s2, Err(error)),
            (s2, Ok(home)) => match node_made(
                volume,
                s2,
                home,
                text::utf8("vanta"@),
                DIRECTORY_MODE,
                1000,
                1000,
            ) {
                (s3, Err(error)) => (s3, Err(error)),
                (s3, Ok(_)) => match file_made(
                    volume,
                    s3,
                    etc,
                    text::utf8("config"@),
                    FILE_MODE,
                    0,
                    0,
                    first_settings(),
                ) {
                    (s4, Err(error)) => (s4, Err(error)),
                    (s4, Ok(_)) => files_installed(volume, s4, files, 0),
                },
            },
        },
    }
}

/// What an empty volume becomes: it is filled in one transaction, which is
/// committed if nothing in it failed.
pub open spec fn root_volume(fresh: Seq<u8>, files: Seq<RootFile<'_>>) -> Result<Seq<u8>, i32> {
    match root_filled(fresh, Seq::empty(), files) {
        (steps, Ok(_)) => root_committed(fresh, steps),
        (_, Err(error)) => Err(error),
    }
}

/// Whether a result is the one that a fresh volume of a size leads to.
pub open spec fn leads_to(
    fresh: Seq<u8>,
    size: int,
    files: Seq<RootFile<'_>>,
    result: Result<Seq<u8>, i32>,
) -> bool {
    &&& fresh.len() == size
    &&& root_volume(fresh, files) == result
    &&& result matches Ok(bytes) ==> bytes.len() >= 8 && bytes.take(8) == root_signature()
}

/// How building a volume ends.
pub open spec fn volume_made(root: Result<Seq<u8>, i32>, r: Result<Vec<u8>, ImageError>) -> bool {
    match root {
        Ok(bytes) => r matches Ok(volume) && volume@ == bytes,
        Err(e) => r == Err::<Vec<u8>, ImageError>(ImageError::RedoxFs(e)),
    }
}

fn enter(t: &mut RootTransaction<'_, '_>, parent: u32, name: &[u8]) -> (r: Result<u32, i32>)
    requires
        node_number(parent),
        is_known_directory(begun_on(*old(t)), steps_of(*old(t)), parent),
        can_be_kept(name@),
    ensures
        begun_on(*final(t)) == begun_on(*old(t)),
        (steps_of(*final(t)), r) == entered(begun_on(*old(t)), steps_of(*old(t)), parent, name@),
        r matches Ok(node) ==> node_number(node) && is_known_directory(
            begun_on(*final(t)),
            steps_of(*final(t)),
            node,
        ),
{
    let ghost volume = begun_on(*t);
    let ghost before = steps_of(*t);
    let entry = find_root_node(t, parent, name);
    let ghost looked = RootStep::Looked { parent, name: name@ };
    proof {
        lemma_directory_stays(volume, before, looked, parent);
        if let Ok((node, true)) = entry {
            lemma_directory_shown(volume, before, looked, node);
        }
    }
    let found = match entry {
        Ok((_, true)) => Found::Directory,
        Ok((_, false)) => Found::Other,
        Err(error) => if error == ENOENT {
            Found::Nothing
        } else {
            Found::Failed(error)
        },
    };
    match descend(found) {
        Descent::Enter => match entry {
            Ok((node, _)) => Ok(node),
            Err(error) => Err(error),
        },
        Descent::Create => make_directory(t, parent, name, 0, 0),
        Descent::Refuse(error) => Err(error),
    }
}

fn make_directory(
    t: &mut RootTransaction<'_, '_>,
    parent: u32,
    name: &[u8],
    seconds: u64,
    nanoseconds: u32,
) -> (r: Result<u32, i32>)
    requires
        node_number(parent),
        is_known_directory(begun_on(*old(t)), steps_of(*old(t)), parent),
        can_be_kept(name@),
    ensures
        begun_on(*final(t)) == begun_on(*old(t)),
        (steps_of(*final(t)), r) == node_made(
            begun_on(*old(t)),
            steps_of(*old(t)),
            parent,
            name@,
            DIRECTORY_MODE,
            seconds,
            nanoseconds,
        ),
        r matches Ok(node) ==> node_number(node) && is_known_directory(
            begun_on(*final(t)),
            steps_of(*final(t)),
            node,
        ),
        forall|node: u32| #[trigger]
            is_known_directory(begun_on(*old(t)), steps_of(*old(t)), node) ==> is_known_directory(
                begun_on(*final(t)),
                steps_of(*final(t)),
                node,
            ),
{
    let ghost volume = begun_on(*t);
    let ghost before = steps_of(*t);
    let made = create_root_node(t, parent, name, DIRECTORY_MODE, seconds, nanoseconds);
    proof {
        let step = RootStep::Made {
            parent,
            name: name@,
            mode: DIRECTORY_MODE,
            seconds,
            nanoseconds,
        };
        assert(0x41edu16 & 0xf000 == 0x4000) by (bit_vector);
        if let Ok(node) = made {
            lemma_directory_shown(volume, before, step, node);
        }
        assert forall|node: u32| #[trigger] is_known_directory(volume, before, node) implies
            is_known_directory(volume, before.push(step), node) by {
            lemma_directory_stays(volume, before, step, node);
        }
    }
    made
}

fn make_file(
    t: &mut RootTransaction<'_, '_>,
    parent: u32,
    name: &[u8],
    mode: u16,
    seconds: u64,
    nanoseconds: u32,
    contents: &[u8],
) -> (r: Result<(), i32>)
    requires
        node_number(parent),
        is_known_directory(begun_on(*old(t)), steps_of(*old(t)), parent),
        can_be_kept(name@),
        !is_directory_mode(mode),
    ensures
        begun_on(*final(t)) == begun_on(*old(t)),
        (steps_of(*final(t)), r) == file_made(
            begun_on(*old(t)),
            steps_of(*old(t)),
            parent,
            name@,
            mode,
            seconds,
            nanoseconds,
            contents@,
        ),
{
    let ghost before = steps_of(*t);
    let made = create_root_node(t, parent, name, mode, seconds, nanoseconds);
    assert(steps_of(*t).drop_last() =~= before);
    match made {
        Ok(node) => match write_root_node(t, node, contents) {
            Ok(_) => Ok(()),
            Err(error) => Err(error),
        },
        Err(error) => Err(error),
    }
}

/// Puts a file where its path says.
#[verifier::loop_isolation(false)]
pub fn install_root_file(t: &mut RootTransaction<'_, '_>, file: RootFile<'_>) -> (r: Result<(), i32>)
    requires
        path_can_be_kept(file.path@),
    ensures
        begun_on(*final(t)) == begun_on(*old(t)),
        (steps_of(*final(t)), r) == file_installed(begun_on(*old(t)), steps_of(*old(t)), file),
{
    let plan = match plan_root_file(file.path) {
        None => {
            return Err(EIO);
        },
        Some(plan) => plan,
    };
    let ghost volume = begun_on(*t);
    let ghost names = store::views(plan.parents@);
    let ghost goal = entered_all(volume, steps_of(*t), ROOT_NODE, names, 0);
    proof {
        assert(components(text::utf8(file.path@)).drop_last() =~= names);
        assert(components(text::utf8(file.path@)).last() == plan.name@);
        assert(can_be_kept(plan.name@));
    }
    let mut parent: u32 = ROOT_NODE;
    let mut i: usize = 0;
    while i < plan.parents.len()
        invariant
            i <= plan.parents.len(),
            node_number(parent),
            begun_on(*t) == volume,
            is_known_directory(volume, steps_of(*t), parent),
            goal == entered_all(volume, steps_of(*t), parent, names, i as int),
        decreases plan.parents.len() - i,
    {
        assert(names[i as int] == plan.parents@[i as int]@);
        assert(names[i as int] == components(text::utf8(file.path@))[i as int]);
        match enter(t, parent, plan.parents[i].as_slice()) {
            Ok(node) => {
                parent = node;
            },
            Err(error) => {
                return Err(error);
            },
        }
        i = i + 1;
    }
    let mode: u16 = file.mode;
    assert((0x8000u16 | mode) & 0xf000 != 0x4000) by (bit_vector);
    make_file(
        t,
        parent,
        plan.name.as_slice(),
        FILE_KIND | file.mode,
        file.uid as u64,
        file.gid,
        file.contents,
    )
}

/// The names of what a new system has can be kept.
proof fn lemma_first_names()
    ensures
        can_be_kept(text::utf8("etc"@)),
        can_be_kept(text::utf8("home"@)),
        can_be_kept(text::utf8("vanta"@)),
        can_be_kept(text::utf8("config"@)),
{
    reveal_strlit("etc");
    reveal_strlit("home");
    reveal_strlit("vanta");
    reveal_strlit("config");
    vstd::utf8::is_ascii_chars_encode_utf8("etc"@);
    vstd::utf8::is_ascii_chars_encode_utf8("home"@);
    vstd::utf8::is_ascii_chars_encode_utf8("vanta"@);
    vstd::utf8::is_ascii_chars_encode_utf8("config"@);
    assert("etc"@[0] == 'e' && "home"@[0] == 'h' && "vanta"@[0] == 'v' && "config"@[0] == 'c');
}

/// Makes the root file system of a new system.
#[verifier::loop_isolation(false)]
pub fn fill_root(t: &mut RootTransaction<'_, '_>, files: &[RootFile<'_>]) -> (r: Result<(), i32>)
    requires
        files_can_be_kept(files@),
    ensures
        begun_on(*final(t)) == begun_on(*old(t)),
        (steps_of(*final(t)), r) == root_filled(begun_on(*old(t)), steps_of(*old(t)), files@),
{
    let ghost volume = begun_on(*t);
    let ghost goal = root_filled(volume, steps_of(*t), files@);
    let etc_name = text::text_bytes("etc");
    let home_name = text::text_bytes("home");
    let user_name = text::text_bytes("vanta");
    let config_name = text::text_bytes("config");
    let settings = text::text_bytes("vanta-vfs-syscall\n");
    proof {
        lemma_first_names();
        assert(0x81a4u16 & 0xf000 != 0x4000) by (bit_vector);
    }
    let etc: u32 = match make_directory(t, ROOT_NODE, etc_name.as_slice(), 0, 0) {
        Ok(made) => made,
        Err(error) => {
            return Err(error);
        },
    };
    let home: u32 = match make_directory(t, ROOT_NODE, home_name.as_slice(), 0, 0) {
        Ok(made) => made,
        Err(error) => {
            return Err(error);
        },
    };
    if let Err(error) = make_directory(t, home, user_name.as_slice(), 1000, 1000) {
        return Err(error);
    }
    if let Err(error) = make_file(
        t,
        etc,
        config_name.as_slice(),
        FILE_MODE,
        0,
        0,
        settings.as_slice(),
    ) {
        return Err(error);
    }
    let mut i: usize = 0;
    while i < files.len()
        invariant
            i <= files.len(),
            begun_on(*t) == volume,
            goal == files_installed(volume, steps_of(*t), files@, i as int),
        decreases files.len() - i,
    {
        match install_root_file(t, files[i]) {
            Ok(_) => {},
            Err(error) => {
                return Err(error);
            },
        }
        i = i + 1;
    }
    Ok(())
}

fn can_keep(name: &[u8]) -> (r: bool)
    ensures
        r == can_be_kept(name@),
{
    name.len() > 0 && name[0] != 0
}

fn can_keep_path(path: &str) -> (r: bool)
    ensures
        r == path_can_be_kept(path@),
{
    let ghost parts = components(text::utf8(path@));
    let plan = match plan_root_file(path) {
        None => {
            return true;
        },
        Some(plan) => plan,
    };
    let ghost names = store::views(plan.parents@);
    let mut i: usize = 0;
    while i < plan.parents.len()
        invariant
            i <= plan.parents.len(),
            names == store::views(plan.parents@),
            parts == components(text::utf8(path@)),
            parts == names.push(plan.name@),
            forall|k: int| 0 <= k < i ==> can_be_kept(#[trigger] parts[k]),
        decreases plan.parents.len() - i,
    {
        assert(parts[i as int] == plan.parents@[i as int]@);
        if !can_keep(plan.parents[i].as_slice()) {
            return false;
        }
        i = i + 1;
    }
    assert(parts[i as int] == plan.name@);
    can_keep(plan.name.as_slice())
}

/// Whether the names in the paths of all files can be kept on a volume.
pub fn can_keep_files(files: &[RootFile<'_>]) -> (r: bool)
    ensures
        r == files_can_be_kept(files@),
{
    let mut i: usize = 0;
    while i < files.len()
        invariant
            i <= files.len(),
            forall|k: int| 0 <= k < i ==> path_can_be_kept((#[trigger] files@[k]).path@),
        decreases files.len() - i,
    {
        if !can_keep_path(files[i].path) {
            assert(!path_can_be_kept(files@[i as int].path@));
            return false;
        }
        i = i + 1;
    }
    true
}

/// The root file system of a new system, on a volume of its own. The volume
/// starts from one that `redoxfs` made empty, whatever its identifier.
pub fn build_redoxfs(sectors: u64, files: &[RootFile<'_>]) -> (r: Result<Vec<u8>, ImageError>)
    requires
        files_can_be_kept(files@),
    ensures
        if sectors * 512 > usize::MAX {
            r == Err::<Vec<u8>, ImageError>(ImageError::InvalidLayout)
        } else {
            match format_refusal((sectors * 512) as usize) {
                Some(e) => r == Err::<Vec<u8>, ImageError>(ImageError::RedoxFs(e)),
                None => exists|fresh: Seq<u8>, root: Result<Seq<u8>, i32>| #[trigger]
                    leads_to(fresh, sectors * 512, files@, root) && volume_made(root, r),
            }
        },
        sectors * 512 / 4096 < 260 && sectors * 512 <= usize::MAX ==> r == Err::<
            Vec<u8>,
            ImageError,
        >(ImageError::RedoxFs(28)),
{
    if sectors > usize::MAX as u64 / 512 {
        return Err(ImageError::InvalidLayout);
    }
    let size: usize = sectors as usize * SECTOR_SIZE;
    assert((sectors * 512) as usize == size);
    let volume = match format_root(size) {
        Ok(volume) => volume,
        Err(error) => {
            return Err(ImageError::RedoxFs(error));
        },
    };
    let ghost fresh = volume_bytes(volume);
    match fill_volume(volume, files) {
        Ok(filled) => {
            let ghost root = Ok::<Seq<u8>, i32>(filled@);
            assert(leads_to(fresh, sectors * 512, files@, root) && volume_made(root, Ok(filled)));
            Ok(filled)
        },
        Err(error) => {
            let ghost root = Err::<Seq<u8>, i32>(error);
            assert(leads_to(fresh, sectors * 512, files@, root));
            Err(ImageError::RedoxFs(error))
        },
    }
}

// ---------------------------------------------------------------------------
// The partition table
// ---------------------------------------------------------------------------
pub open spec fn table_entry(kind: Seq<u8>, partition: RootPartition, id: u8) -> Seq<u8> {
    kind + seq![id] + bytes::zeros(15) + bytes::le64_bytes(partition.start_lba) + bytes::le64_bytes(partition.end_lba)
        + bytes::zeros(80)
}

#[verifier::opaque]
pub open spec fn table_entries(esp: RootPartition, root: RootPartition) -> Seq<u8> {
    table_entry(esp_type(), esp, 1) + table_entry(gpt::root_type(), root, 2) + bytes::zeros(16128)
}

/// The fields of a header, with a checksum.
#[verifier::opaque]
pub open spec fn header_fields(
    checksum: u32,
    current: u64,
    backup: u64,
    entries: u64,
    last_usable: u64,
    entries_crc: u32,
) -> Seq<u8> {
    gpt::signature() + bytes::le32_bytes(0x1_0000) + bytes::le32_bytes(92) + bytes::le32_bytes(checksum) + bytes::zeros(4)
        + bytes::le64_bytes(current) + bytes::le64_bytes(backup) + bytes::le64_bytes(34) + bytes::le64_bytes(last_usable)
        + seq![0x56u8] + bytes::zeros(15) + bytes::le64_bytes(entries) + bytes::le32_bytes(128) + bytes::le32_bytes(128)
        + bytes::le32_bytes(entries_crc)
}

/// A header: its fields with their own checksum, to the end of its sector.
#[verifier::opaque]
pub open spec fn table_header(
    current: u64,
    backup: u64,
    entries: u64,
    last_usable: u64,
    entries_crc: u32,
) -> Seq<u8> {
    let plain = header_fields(0, current, backup, entries, last_usable, entries_crc);
    header_fields(gpt::crc32_of(plain), current, backup, entries, last_usable, entries_crc) + bytes::zeros(420)
}

/// The record in the first sector that keeps other systems away.
pub open spec fn protected(image: Seq<u8>, total: u64) -> Seq<u8> {
    let last = if total - 1 > u32::MAX {
        u32::MAX
    } else {
        (total - 1) as u32
    };
    let a = bytes::splice(image, 450, seq![0xeeu8]);
    let b = bytes::splice(a, 454, bytes::le32_bytes(1));
    let c = bytes::splice(b, 458, bytes::le32_bytes(last));
    bytes::splice(c, 510, seq![0x55u8, 0xaa])
}

/// An image with its table, at its start and again at its end.
pub open spec fn with_table(image: Seq<u8>, esp: RootPartition, root: RootPartition, total: u64) -> Seq<
    u8,
> {
    let entries = table_entries(esp, root);
    let crc = gpt::crc32_of(entries);
    let last = (total - 1) as u64;
    let usable = (total - 34) as u64;
    let a = bytes::splice(image, 1024, entries);
    let b = bytes::splice(a, (total - 33) * 512, entries);
    let c = bytes::splice(b, 512, table_header(1, last, 2, usable, crc));
    let d = bytes::splice(c, (total - 1) * 512, table_header(last, 1, (total - 33) as u64, usable, crc));
    protected(d, total)
}

fn push_entry(entries: &mut Vec<u8>, kind: &[u8], partition: RootPartition, id: u8)
    requires
        old(entries)@.len() + 128 <= usize::MAX,
        kind@.len() == 16,
    ensures
        final(entries)@ == old(entries)@ + table_entry(kind@, partition, id),
{
    let ghost before = entries@;
    let mut entry: Vec<u8> = Vec::new();
    push_all(&mut entry, kind);
    assert(entry@ =~= kind@);
    let ghost tagged = kind@ + seq![id];
    entry.push(id);
    assert(entry@ =~= tagged);
    push_zeros(&mut entry, 15);
    push_le64(&mut entry, partition.start_lba);
    push_le64(&mut entry, partition.end_lba);
    push_zeros(&mut entry, 80);
    push_all(entries, entry.as_slice());
}

fn make_entries(esp: RootPartition, root: RootPartition) -> (r: Vec<u8>)
    ensures
        r@ == table_entries(esp, root),
        r@.len() == 16384,
{
    let esp_kind: [u8; 16] = [
        0x28, 0x73, 0x2a, 0xc1, 0x1f, 0xf8, 0xd2, 0x11, 0xba, 0x4b, 0x00, 0xa0, 0xc9, 0x3e, 0xc9,
        0x3b,
    ];
    let root_kind: [u8; 16] = [
        0x4e, 0x0d, 0x2f, 0x5d, 0xff, 0x9c, 0x2f, 0x4b, 0xa9, 0xb6, 0x6b, 0xf9, 0xea, 0xa4, 0xd2,
        0x01,
    ];
    assert(esp_kind@ =~= esp_type());
    assert(root_kind@ =~= gpt::root_type());
    proof {
        reveal(table_entries);
    }
    let mut entries: Vec<u8> = Vec::new();
    push_entry(&mut entries, &esp_kind, esp, 1);
    assert(entries@ =~= table_entry(esp_type(), esp, 1));
    push_entry(&mut entries, &root_kind, root, 2);
    push_zeros(&mut entries, 16128);
    entries
}

fn make_fields(
    checksum: u32,
    current: u64,
    backup: u64,
    entries: u64,
    last_usable: u64,
    entries_crc: u32,
) -> (r: Vec<u8>)
    ensures
        r@ == header_fields(checksum, current, backup, entries, last_usable, entries_crc),
        r@.len() == 92,
{
    proof {
        reveal(header_fields);
    }
    let mark: [u8; 8] = [0x45, 0x46, 0x49, 0x20, 0x50, 0x41, 0x52, 0x54];
    let mut h: Vec<u8> = Vec::new();
    push_all(&mut h, &mark);
    assert(h@ =~= gpt::signature());
    push_le32(&mut h, 0x1_0000);
    push_le32(&mut h, 92);
    push_le32(&mut h, checksum);
    push_zeros(&mut h, 4);
    push_le64(&mut h, current);
    push_le64(&mut h, backup);
    push_le64(&mut h, GPT_FIRST_USABLE_LBA);
    push_le64(&mut h, last_usable);
    let ghost before = h@;
    h.push(0x56);
    assert(h@ =~= before + seq![0x56u8]);
    push_zeros(&mut h, 15);
    push_le64(&mut h, entries);
    push_le32(&mut h, 128);
    push_le32(&mut h, 128);
    push_le32(&mut h, entries_crc);
    h
}

fn make_header(current: u64, backup: u64, entries: u64, last_usable: u64, entries_crc: u32) -> (r:
    Vec<u8>)
    ensures
        r@ == table_header(current, backup, entries, last_usable, entries_crc),
        r@.len() == 512,
{
    proof {
        reveal(table_header);
    }
    let plain: Vec<u8> = make_fields(0, current, backup, entries, last_usable, entries_crc);
    let checksum: u32 = crc32(plain.as_slice());
    let mut header: Vec<u8> = make_fields(
        checksum,
        current,
        backup,
        entries,
        last_usable,
        entries_crc,
    );
    push_zeros(&mut header, 420);
    header
}

/// Writes the table of two partitions into an image.
pub fn write_gpt(image: &mut Vec<u8>, esp: RootPartition, root: RootPartition, total_sectors: u64)
    requires
        total_sectors >= 68,
        old(image)@.len() == total_sectors * 512,
    ensures
        final(image)@ == with_table(old(image)@, esp, root, total_sectors),
        final(image)@.len() == old(image)@.len(),
{
    let total: usize = image.len() / SECTOR_SIZE;
    assert(total == total_sectors);
    let entries: Vec<u8> = make_entries(esp, root);
    let crc: u32 = crc32(entries.as_slice());
    let usable: u64 = total_sectors - 34;
    put_vec(image, 1024, entries.as_slice());
    put_vec(image, (total - 33) * SECTOR_SIZE, entries.as_slice());
    let first: Vec<u8> = make_header(1, total_sectors - 1, GPT_ENTRIES_LBA, usable, crc);
    put_vec(image, 512, first.as_slice());
    let second: Vec<u8> = make_header(total_sectors - 1, 1, total_sectors - 33, usable, crc);
    put_vec(image, (total - 1) * SECTOR_SIZE, second.as_slice());
    write_protective_mbr(image, total_sectors);
}

fn write_protective_mbr(image: &mut Vec<u8>, total_sectors: u64)
    requires
        total_sectors >= 1,
        old(image)@.len() >= 512,
    ensures
        final(image)@ == protected(old(image)@, total_sectors),
        final(image)@.len() == old(image)@.len(),
{
    let last: u32 = if total_sectors - 1 > u32::MAX as u64 {
        u32::MAX
    } else {
        (total_sectors - 1) as u32
    };
    let kind: [u8; 1] = [0xee];
    let mark: [u8; 2] = [0x55, 0xaa];
    assert(kind@ =~= seq![0xeeu8]);
    assert(mark@ =~= seq![0x55u8, 0xaa]);
    let mut start: Vec<u8> = Vec::new();
    push_le32(&mut start, 1);
    assert(start@ =~= bytes::le32_bytes(1));
    let mut length: Vec<u8> = Vec::new();
    push_le32(&mut length, last);
    assert(length@ =~= bytes::le32_bytes(last));
    put_vec(image, 450, &kind);
    put_vec(image, 454, start.as_slice());
    put_vec(image, 458, length.as_slice());
    put_vec(image, 510, &mark);
}

// ---------------------------------------------------------------------------
// The image
// ---------------------------------------------------------------------------
/// A finished image.
#[derive(Debug)]
pub struct BuiltImage {
    pub bytes: Vec<u8>,
    pub esp: RootPartition,
    pub root: RootPartition,
}

pub open spec fn partition_of(image: Seq<u8>, partition: RootPartition) -> Seq<u8> {
    image.subrange(partition.start_lba * 512, (partition.end_lba + 1) * 512)
}

impl BuiltImage {
    pub open spec fn wf(&self) -> bool {
        &&& self.esp.start_lba <= self.esp.end_lba
        &&& self.root.start_lba <= self.root.end_lba
        &&& (self.esp.end_lba + 1) * 512 <= self.bytes@.len()
        &&& (self.root.end_lba + 1) * 512 <= self.bytes@.len()
    }

    pub fn bytes(&self) -> (r: &[u8])
        ensures
            r@ == self.bytes@,
    {
        self.bytes.as_slice()
    }

    pub fn esp_bytes(&self) -> (r: &[u8])
        requires
            self.wf(),
        ensures
            r@ == partition_of(self.bytes@, self.esp),
    {
        assert(self.bytes@.len() == self.bytes.len());
        let start: usize = self.esp.start_lba as usize * SECTOR_SIZE;
        let end: usize = (self.esp.end_lba as usize + 1) * SECTOR_SIZE;
        slice_subrange(self.bytes.as_slice(), start, end)
    }

    pub fn root_bytes(&self) -> (r: &[u8])
        requires
            self.wf(),
        ensures
            r@ == partition_of(self.bytes@, self.root),
    {
        assert(self.bytes@.len() == self.bytes.len());
        let start: usize = self.root.start_lba as usize * SECTOR_SIZE;
        let end: usize = (self.root.end_lba as usize + 1) * SECTOR_SIZE;
        slice_subrange(self.bytes.as_slice(), start, end)
    }

    pub fn root_partition(&self) -> (r: RootPartition)
        ensures
            r == self.root,
    {
        self.root
    }
}

/// Where the partitions go, and how many sectors the image has.
pub open spec fn layout(options: ImageOptions) -> Option<(RootPartition, RootPartition, u64)> {
    let total = 2048 + options.esp_sectors + options.root_sectors + 33;
    if options.esp_sectors == 0 || options.root_sectors == 0 || options.root_sectors % 8 != 0
        || total * 512 > usize::MAX {
        None
    } else {
        Some(
            (
                RootPartition {
                    start_lba: 2048,
                    end_lba: (2047 + options.esp_sectors) as u64,
                },
                RootPartition {
                    start_lba: (2048 + options.esp_sectors) as u64,
                    end_lba: (2047 + options.esp_sectors + options.root_sectors) as u64,
                },
                total as u64,
            ),
        )
    }
}

pub fn plan_layout(options: ImageOptions) -> (r: Option<(RootPartition, RootPartition, u64)>)
    ensures
        r == layout(options),
{
    if options.esp_sectors == 0 || options.root_sectors == 0 || options.root_sectors % 8 != 0 {
        return None;
    }
    let total: u128 = 2081 + options.esp_sectors as u128 + options.root_sectors as u128;
    if total * 512 > usize::MAX as u128 {
        return None;
    }
    let esp_end: u64 = ESP_START_LBA + options.esp_sectors - 1;
    Some(
        (
            RootPartition { start_lba: ESP_START_LBA, end_lba: esp_end },
            RootPartition {
                start_lba: esp_end + 1,
                end_lba: esp_end + options.root_sectors,
            },
            total as u64,
        ),
    )
}

/// The bytes of an image: its partitions, and the table that leads to them.
pub open spec fn assembled(
    esp: RootPartition,
    root: RootPartition,
    total: u64,
    esp_volume: Seq<u8>,
    root_volume: Seq<u8>,
) -> Seq<u8> {
    let blank = bytes::zeros((total * 512) as nat);
    let first = bytes::splice(blank, esp.start_lba * 512, esp_volume);
    let second = bytes::splice(first, root.start_lba * 512, root_volume);
    with_table(second, esp, root, total)
}

/// Puts volumes that fill their partitions into an image.
pub fn assemble_image(options: ImageOptions, esp_volume: &[u8], root_volume: &[u8]) -> (r: Result<
    BuiltImage,
    ImageError,
>)
    ensures
        match layout(options) {
            None => r == Err::<BuiltImage, ImageError>(ImageError::InvalidLayout),
            Some((esp, root, total)) => if esp_volume@.len() != options.esp_sectors * 512
                || root_volume@.len() != options.root_sectors * 512 {
                r == Err::<BuiltImage, ImageError>(ImageError::InvalidLayout)
            } else {
                r matches Ok(image) && image.wf() && image.esp == esp && image.root == root
                    && image.bytes@ == assembled(esp, root, total, esp_volume@, root_volume@)
            },
        },
{
    let (esp, root, total): (RootPartition, RootPartition, u64) = match plan_layout(options) {
        None => {
            return Err(ImageError::InvalidLayout);
        },
        Some(plan) => plan,
    };
    if esp_volume.len() as u128 != options.esp_sectors as u128 * 512 || root_volume.len() as u128
        != options.root_sectors as u128 * 512 {
        return Err(ImageError::InvalidLayout);
    }
    let mut bytes: Vec<u8> = Vec::new();
    push_zeros(&mut bytes, total as usize * SECTOR_SIZE);
    assert(bytes@ =~= bytes::zeros((total * 512) as nat));
    put_vec(&mut bytes, esp.start_lba as usize * SECTOR_SIZE, esp_volume);
    put_vec(&mut bytes, root.start_lba as usize * SECTOR_SIZE, root_volume);
    write_gpt(&mut bytes, esp, root, total);
    Ok(BuiltImage { bytes, esp, root })
}

/// What comes of the volumes of an image: an image if the root volume could be
/// made and has its size, else the error.
pub open spec fn image_made(
    plan: (RootPartition, RootPartition, u64),
    options: ImageOptions,
    esp_volume: Seq<u8>,
    root_volume: Result<Seq<u8>, i32>,
    r: Result<BuiltImage, ImageError>,
) -> bool {
    match root_volume {
        Err(e) => r == Err::<BuiltImage, ImageError>(ImageError::RedoxFs(e)),
        Ok(root) => if root.len() != options.root_sectors * 512 {
            r == Err::<BuiltImage, ImageError>(ImageError::InvalidLayout)
        } else {
            r matches Ok(image) && image.wf() && image.esp == plan.0 && image.root == plan.1
                && esp_volume.len() == options.esp_sectors * 512 && image.bytes@ == assembled(plan.0, plan.1, plan.2, esp_volume, root)
        },
    }
}

/// Builds an image of a system: the volume to boot from, the root file system
/// with its files, and the table that leads to both. The root file system
/// starts from a volume that `redoxfs` made empty, whatever its identifier.
pub fn build_image(options: ImageOptions, contents: ImageContents<'_>) -> (r: Result<
    BuiltImage,
    ImageError,
>)
    requires
        files_can_be_kept(contents.root_files@),
    ensures
        match (
            layout(options),
            esp_volume((options.esp_sectors * 512) as nat, contents),
            format_refusal((options.root_sectors * 512) as usize),
        ) {
            (None, _, _) => r == Err::<BuiltImage, ImageError>(ImageError::InvalidLayout),
            (Some(_), None, _) => r == Err::<BuiltImage, ImageError>(ImageError::Io),
            (Some(_), Some(_), Some(e)) => r == Err::<BuiltImage, ImageError>(
                ImageError::RedoxFs(e),
            ),
            (Some(plan), Some(esp_bytes), None) => exists|fresh: Seq<u8>, root: Result<Seq<u8>, i32>|
             #[trigger]
                leads_to(fresh, options.root_sectors * 512, contents.root_files@, root)
                    && image_made(plan, options, esp_bytes, root, r),
        },
{
    if plan_layout(options).is_none() {
        return Err(ImageError::InvalidLayout);
    }
    let esp_bytes: Vec<u8> = match build_esp(options.esp_sectors, contents) {
        Err(e) => {
            return Err(e);
        },
        Ok(bytes) => bytes,
    };
    match build_redoxfs(options.root_sectors, contents.root_files) {
        Err(e) => Err(e),
        Ok(root_volume) => {
            assemble_image(options, esp_bytes.as_slice(), root_volume.as_slice())
        },
    }
}

// ---------------------------------------------------------------------------
// Laws
// ---------------------------------------------------------------------------
/// The sectors of an image.
pub open spec fn sectors_of(image: Seq<u8>) -> spec_fn(u64) -> Option<Seq<u8>> {
    |lba: u64|
        if (lba + 1) * 512 <= image.len() {
            Some(image.subrange(lba * 512, (lba + 1) * 512))
        } else {
            None
        }
}

proof fn lemma_sectors(image: Seq<u8>, first: int, count: nat)
    requires
        0 <= first,
        (first + count) * 512 <= image.len(),
        first + count <= u64::MAX,
    ensures
        gpt::sectors_from(sectors_of(image), first, count) == Some(
            image.subrange(first * 512, (first + count) * 512),
        ),
    decreases count,
{
    if count == 0 {
        assert(image.subrange(first * 512, first * 512) =~= Seq::<u8>::empty());
    } else {
        lemma_sectors(image, first, (count - 1) as nat);
        let middle = (first + count - 1) * 512;
        assert(image.subrange(first * 512, (first + count) * 512) =~= image.subrange(
            first * 512,
            middle,
        ) + image.subrange(middle, middle + 512));
    }
}

proof fn lemma_le32_field(s: Seq<u8>, i: int, x: u32)
    requires
        0 <= i,
        i + 4 <= s.len(),
        s.subrange(i, i + 4) == bytes::le32_bytes(x),
    ensures
        bytes::le32_at(s, i) == x,
{
    let a = s.take(i);
    let b = s.skip(i + 4);
    assert(s =~= a + s.subrange(i, i + 4) + b);
    crate::bytes::le_round_trip(a, b, 0, x, 0);
}

proof fn lemma_le64_field(s: Seq<u8>, i: int, x: u64)
    requires
        0 <= i,
        i + 8 <= s.len(),
        s.subrange(i, i + 8) == bytes::le64_bytes(x),
    ensures
        bytes::le64_at(s, i) == x,
{
    let a = s.take(i);
    let b = s.skip(i + 8);
    assert(s =~= a + s.subrange(i, i + 8) + b);
    crate::bytes::le_round_trip(a, b, 0, 0, x);
}

proof fn lemma_fields(
    checksum: u32,
    current: u64,
    backup: u64,
    entries: u64,
    last_usable: u64,
    entries_crc: u32,
)
    ensures
        ({
            let h = header_fields(checksum, current, backup, entries, last_usable, entries_crc);
            &&& h.len() == 92
            &&& h.take(8) == gpt::signature()
            &&& h.subrange(12, 16) == bytes::le32_bytes(92)
            &&& h.subrange(16, 20) == bytes::le32_bytes(checksum)
            &&& h.subrange(24, 32) == bytes::le64_bytes(current)
            &&& h.subrange(32, 40) == bytes::le64_bytes(backup)
            &&& h.subrange(40, 48) == bytes::le64_bytes(34)
            &&& h.subrange(48, 56) == bytes::le64_bytes(last_usable)
            &&& h.subrange(72, 80) == bytes::le64_bytes(entries)
            &&& h.subrange(80, 84) == bytes::le32_bytes(128)
            &&& h.subrange(84, 88) == bytes::le32_bytes(128)
            &&& h.subrange(88, 92) == bytes::le32_bytes(entries_crc)
        }),
{
    reveal(header_fields);
    lemma_layout(
        gpt::signature(),
        bytes::le32_bytes(0x1_0000),
        bytes::le32_bytes(92),
        bytes::le32_bytes(checksum),
        bytes::le64_bytes(current),
        bytes::le64_bytes(backup),
        bytes::le64_bytes(34),
        bytes::le64_bytes(last_usable),
        bytes::le64_bytes(entries),
        bytes::le32_bytes(128),
        bytes::le32_bytes(entries_crc),
    );
}

#[verifier::rlimit(40)]
proof fn lemma_layout(
    mark: Seq<u8>,
    version: Seq<u8>,
    size: Seq<u8>,
    checksum: Seq<u8>,
    current: Seq<u8>,
    backup: Seq<u8>,
    first: Seq<u8>,
    last: Seq<u8>,
    entries: Seq<u8>,
    count: Seq<u8>,
    crc: Seq<u8>,
)
    requires
        mark.len() == 8,
        version.len() == 4,
        size.len() == 4,
        checksum.len() == 4,
        current.len() == 8,
        backup.len() == 8,
        first.len() == 8,
        last.len() == 8,
        entries.len() == 8,
        count.len() == 4,
        crc.len() == 4,
    ensures
        ({
            let a = mark + version + size + checksum + bytes::zeros(4);
            let b = a + current + backup + first + last;
            let h = b + seq![0x56u8] + bytes::zeros(15) + entries + count + count + crc;
            &&& h.len() == 92
            &&& h.take(8) == mark
            &&& h.subrange(12, 16) == size
            &&& h.subrange(16, 20) == checksum
            &&& h.subrange(24, 32) == current
            &&& h.subrange(32, 40) == backup
            &&& h.subrange(40, 48) == first
            &&& h.subrange(48, 56) == last
            &&& h.subrange(72, 80) == entries
            &&& h.subrange(80, 84) == count
            &&& h.subrange(84, 88) == count
            &&& h.subrange(88, 92) == crc
        }),
{
    let a = mark + version + size + checksum + bytes::zeros(4);
    let b = a + current + backup + first + last;
    let h = b + seq![0x56u8] + bytes::zeros(15) + entries + count + count + crc;
    assert(a.take(8) =~= mark);
    assert(a.subrange(12, 16) =~= size);
    assert(a.subrange(16, 20) =~= checksum);
    assert(b.subrange(0, 24) =~= a);
    assert(b.subrange(24, 32) =~= current);
    assert(b.subrange(32, 40) =~= backup);
    assert(b.subrange(40, 48) =~= first);
    assert(b.subrange(48, 56) =~= last);
    assert(h.subrange(0, 56) =~= b);
    assert(h.subrange(72, 80) =~= entries);
    assert(h.subrange(80, 84) =~= count);
    assert(h.subrange(84, 88) =~= count);
    assert(h.subrange(88, 92) =~= crc);
    let low = h.subrange(0, 56);
    assert(h.take(8) =~= low.subrange(0, 24).take(8));
    assert(h.subrange(12, 16) =~= low.subrange(0, 24).subrange(12, 16));
    assert(h.subrange(16, 20) =~= low.subrange(0, 24).subrange(16, 20));
    assert(h.subrange(24, 32) =~= low.subrange(24, 32));
    assert(h.subrange(32, 40) =~= low.subrange(32, 40));
    assert(h.subrange(40, 48) =~= low.subrange(40, 48));
    assert(h.subrange(48, 56) =~= low.subrange(48, 56));
}

proof fn lemma_header(current: u64, backup: u64, entries: u64, last_usable: u64, entries_crc: u32)
    ensures
        ({
            let h = table_header(current, backup, entries, last_usable, entries_crc);
            &&& h.len() == 512
            &&& gpt::header_fault(h) is None
            &&& bytes::le64_at(h, 24) == current
            &&& bytes::le64_at(h, 32) == backup
            &&& bytes::le64_at(h, 40) == 34
            &&& bytes::le64_at(h, 48) == last_usable
            &&& bytes::le64_at(h, 72) == entries
            &&& bytes::le32_at(h, 80) == 128
            &&& bytes::le32_at(h, 84) == 128
            &&& bytes::le32_at(h, 88) == entries_crc
        }),
{
    reveal(table_header);
    let plain = header_fields(0, current, backup, entries, last_usable, entries_crc);
    let sum = gpt::crc32_of(plain);
    let f = header_fields(sum, current, backup, entries, last_usable, entries_crc);
    let h = f + bytes::zeros(420);
    lemma_fields(0, current, backup, entries, last_usable, entries_crc);
    lemma_fields(sum, current, backup, entries, last_usable, entries_crc);
    assert(h.take(92) =~= f);
    assert(h.take(8) =~= f.take(8));
    assert(h.subrange(12, 16) =~= f.subrange(12, 16));
    assert(h.subrange(16, 20) =~= f.subrange(16, 20));
    assert(h.subrange(24, 32) =~= f.subrange(24, 32));
    assert(h.subrange(32, 40) =~= f.subrange(32, 40));
    assert(h.subrange(40, 48) =~= f.subrange(40, 48));
    assert(h.subrange(48, 56) =~= f.subrange(48, 56));
    assert(h.subrange(72, 80) =~= f.subrange(72, 80));
    assert(h.subrange(80, 84) =~= f.subrange(80, 84));
    assert(h.subrange(84, 88) =~= f.subrange(84, 88));
    assert(h.subrange(88, 92) =~= f.subrange(88, 92));
    lemma_le32_field(h, 12, 92);
    lemma_le32_field(h, 16, sum);
    lemma_le64_field(h, 24, current);
    lemma_le64_field(h, 32, backup);
    lemma_le64_field(h, 40, 34);
    lemma_le64_field(h, 48, last_usable);
    lemma_le64_field(h, 72, entries);
    lemma_le32_field(h, 80, 128);
    lemma_le32_field(h, 84, 128);
    lemma_le32_field(h, 88, entries_crc);
    lemma_blanked(sum, current, backup, entries, last_usable, entries_crc);
}

/// The fields with their checksum blanked are the fields without one.
proof fn lemma_blanked(
    sum: u32,
    current: u64,
    backup: u64,
    entries: u64,
    last_usable: u64,
    entries_crc: u32,
)
    ensures
        bytes::splice(
            header_fields(sum, current, backup, entries, last_usable, entries_crc),
            16,
            bytes::zeros(4),
        ) == header_fields(0, current, backup, entries, last_usable, entries_crc),
{
    reveal(header_fields);
    let front = gpt::signature() + bytes::le32_bytes(0x1_0000) + bytes::le32_bytes(92);
    let f = header_fields(sum, current, backup, entries, last_usable, entries_crc);
    let g = header_fields(0, current, backup, entries, last_usable, entries_crc);
    lemma_fields(sum, current, backup, entries, last_usable, entries_crc);
    lemma_fields(0, current, backup, entries, last_usable, entries_crc);
    assert(g.subrange(16, 20) =~= bytes::zeros(4));
    let s = bytes::splice(f, 16, bytes::zeros(4));
    assert forall|i: int| 0 <= i < 92 implies s[i] == g[i] by {
        if 16 <= i < 20 {
            assert(g[i] == g.subrange(16, 20)[i - 16]);
        } else {
            lemma_same_outside(sum, current, backup, entries, last_usable, entries_crc, i);
        }
    }
    assert(s =~= g);
}

proof fn lemma_same_outside(
    sum: u32,
    current: u64,
    backup: u64,
    entries: u64,
    last_usable: u64,
    entries_crc: u32,
    i: int,
)
    requires
        0 <= i < 92,
        !(16 <= i < 20),
    ensures
        header_fields(sum, current, backup, entries, last_usable, entries_crc)[i] == header_fields(
            0,
            current,
            backup,
            entries,
            last_usable,
            entries_crc,
        )[i],
{
    reveal(header_fields);
    let front = gpt::signature() + bytes::le32_bytes(0x1_0000) + bytes::le32_bytes(92);
    assert(front.len() == 16);
    assert(bytes::le32_bytes(sum).len() == 4 && bytes::le32_bytes(0).len() == 4);
}

proof fn lemma_entries(esp: RootPartition, root: RootPartition)
    ensures
        ({
            let e = table_entries(esp, root);
            &&& e.len() == 16384
            &&& e.subrange(0, 16) == esp_type()
            &&& e.subrange(128, 144) == gpt::root_type()
            &&& bytes::le64_at(e, 160) == root.start_lba
            &&& bytes::le64_at(e, 168) == root.end_lba
        }),
{
    reveal(table_entries);
    let first = table_entry(esp_type(), esp, 1);
    let second = table_entry(gpt::root_type(), root, 2);
    lemma_entry(esp_type(), esp, 1);
    lemma_entry(gpt::root_type(), root, 2);
    let e = table_entries(esp, root);
    assert(e.subrange(0, 128) =~= first);
    assert(e.subrange(128, 256) =~= second);
    assert(e.subrange(0, 16) =~= e.subrange(0, 128).subrange(0, 16));
    assert(e.subrange(128, 144) =~= e.subrange(128, 256).subrange(0, 16));
    assert(e.subrange(160, 168) =~= e.subrange(128, 256).subrange(32, 40));
    assert(e.subrange(168, 176) =~= e.subrange(128, 256).subrange(40, 48));
    lemma_le64_field(e, 160, root.start_lba);
    lemma_le64_field(e, 168, root.end_lba);
}

proof fn lemma_entry(kind: Seq<u8>, partition: RootPartition, id: u8)
    requires
        kind.len() == 16,
    ensures
        ({
            let e = table_entry(kind, partition, id);
            &&& e.len() == 128
            &&& e.subrange(0, 16) == kind
            &&& e.subrange(32, 40) == bytes::le64_bytes(partition.start_lba)
            &&& e.subrange(40, 48) == bytes::le64_bytes(partition.end_lba)
        }),
{
    let e = table_entry(kind, partition, id);
    assert(e.subrange(0, 16) =~= kind);
    assert(e.subrange(32, 40) =~= bytes::le64_bytes(partition.start_lba));
    assert(e.subrange(40, 48) =~= bytes::le64_bytes(partition.end_lba));
}

proof fn lemma_table_places(image: Seq<u8>, esp: RootPartition, root: RootPartition, total: u64)
    requires
        total >= 68,
        image.len() == total * 512,
    ensures
        ({
            let after = with_table(image, esp, root, total);
            let entries = table_entries(esp, root);
            &&& after.len() == image.len()
            &&& after.subrange(512, 1024) == table_header(
                1,
                (total - 1) as u64,
                2,
                (total - 34) as u64,
                gpt::crc32_of(entries),
            )
            &&& after.subrange(1024, 17408) == entries
        }),
{
    let entries = table_entries(esp, root);
    let crc = gpt::crc32_of(entries);
    let last = (total - 1) as u64;
    let usable = (total - 34) as u64;
    lemma_entries(esp, root);
    lemma_header(1, last, 2, usable, crc);
    lemma_header(last, 1, (total - 33) as u64, usable, crc);
    let h1 = table_header(1, last, 2, usable, crc);
    let h2 = table_header(last, 1, (total - 33) as u64, usable, crc);
    let a = bytes::splice(image, 1024, entries);
    let b = bytes::splice(a, (total - 33) * 512, entries);
    let c = bytes::splice(b, 512, h1);
    let d = bytes::splice(c, (total - 1) * 512, h2);
    let after = with_table(image, esp, root, total);
    assert(after.subrange(512, 1024) =~= h1) by {
        assert forall|i: int| 0 <= i < 512 implies after.subrange(512, 1024)[i] == h1[i] by {
            assert(c[512 + i] == h1[i]);
            assert(d[512 + i] == c[512 + i]);
        }
    }
    assert(after.subrange(1024, 17408) =~= entries) by {
        assert forall|i: int| 0 <= i < 16384 implies after.subrange(1024, 17408)[i]
            == entries[i] by {
            assert(a[1024 + i] == entries[i]);
            assert(b[1024 + i] == a[1024 + i]);
            assert(c[1024 + i] == b[1024 + i]);
            assert(d[1024 + i] == c[1024 + i]);
        }
    }
}

/// The root partition is found on an image that was built with it.
#[verifier::rlimit(60)]
pub proof fn law_root_found(
    options: ImageOptions,
    esp: RootPartition,
    root: RootPartition,
    total: u64,
    esp_bytes: Seq<u8>,
    root_bytes: Seq<u8>,
)
    requires
        layout(options) == Some((esp, root, total)),
    ensures
        gpt::root_on_disk(sectors_of(assembled(esp, root, total, esp_bytes, root_bytes))) == Ok::<
            RootPartition,
            GptError,
        >(root),
        ({
            let image = assembled(esp, root, total, esp_bytes, root_bytes);
            &&& image.len() == total * 512
            &&& gpt::root_of(image.subrange(512, 1024), image.subrange(1024, 17408)) == Ok::<
                RootPartition,
                GptError,
            >(root)
        }),
{
    let blank = bytes::zeros((total * 512) as nat);
    let first = bytes::splice(blank, esp.start_lba * 512, esp_bytes);
    let second = bytes::splice(first, root.start_lba * 512, root_bytes);
    let image = assembled(esp, root, total, esp_bytes, root_bytes);
    let entries = table_entries(esp, root);
    let crc = gpt::crc32_of(entries);
    let header = table_header(1, (total - 1) as u64, 2, (total - 34) as u64, crc);
    lemma_table_places(second, esp, root, total);
    lemma_header(1, (total - 1) as u64, 2, (total - 34) as u64, crc);
    lemma_entries(esp, root);
    lemma_sectors(image, 2, 32);
    assert(sectors_of(image)(1) == Some(header));
    assert(gpt::array_sectors(header) == 32);
    assert(gpt::sectors_from(sectors_of(image), 2, 32) == Some(entries));
    assert(entries.take(16384) =~= entries);
    assert(gpt::layout_ok(header, 16384));
    assert(esp_type()[0] != gpt::root_type()[0]);
    assert(gpt::root_from(header, entries, 1) == Ok::<RootPartition, GptError>(root));
    assert(gpt::root_from(header, entries, 0) == gpt::root_from(header, entries, 1));
    assert(gpt::root_of(header, entries) == Ok::<RootPartition, GptError>(root));
}

/// The partitions of an image hold what was put into them: the table touches
/// neither.
pub proof fn law_partitions_kept(
    options: ImageOptions,
    esp: RootPartition,
    root: RootPartition,
    total: u64,
    esp_bytes: Seq<u8>,
    root_bytes: Seq<u8>,
)
    requires
        layout(options) == Some((esp, root, total)),
        esp_bytes.len() == options.esp_sectors * 512,
        root_bytes.len() == options.root_sectors * 512,
    ensures
        ({
            let image = assembled(esp, root, total, esp_bytes, root_bytes);
            &&& partition_of(image, esp) == esp_bytes
            &&& partition_of(image, root) == root_bytes
        }),
{
    let blank = bytes::zeros((total * 512) as nat);
    let first = bytes::splice(blank, esp.start_lba * 512, esp_bytes);
    let second = bytes::splice(first, root.start_lba * 512, root_bytes);
    let image = assembled(esp, root, total, esp_bytes, root_bytes);
    let entries = table_entries(esp, root);
    let crc = gpt::crc32_of(entries);
    let last = (total - 1) as u64;
    let usable = (total - 34) as u64;
    lemma_entries(esp, root);
    lemma_header(1, last, 2, usable, crc);
    lemma_header(last, 1, (total - 33) as u64, usable, crc);
    assert forall|i: int| 2048 * 512 <= i < (root.end_lba + 1) * 512 implies image[i]
        == second[i] by {
        let a = bytes::splice(second, 1024, entries);
        let b = bytes::splice(a, (total - 33) * 512, entries);
        let c = bytes::splice(b, 512, table_header(1, last, 2, usable, crc));
        let d = bytes::splice(
            c,
            (total - 1) * 512,
            table_header(last, 1, (total - 33) as u64, usable, crc),
        );
        assert(a[i] == second[i]);
        assert(b[i] == a[i]);
        assert(c[i] == b[i]);
        assert(d[i] == c[i]);
    }
    assert(partition_of(image, esp) =~= esp_bytes);
    assert(partition_of(image, root) =~= root_bytes);
}

/// An image that was built has its partitions one after the other, from sector
/// 2048 on, and 33 sectors after them; the root partition is found by its
/// table; the first partition holds the volume to boot from, and the second
/// starts as a RedoxFS volume does.
pub proof fn law_image_whole(
    options: ImageOptions,
    plan: (RootPartition, RootPartition, u64),
    esp_bytes: Seq<u8>,
    fresh: Seq<u8>,
    files: Seq<RootFile<'_>>,
    root: Result<Seq<u8>, i32>,
    image: BuiltImage,
)
    requires
        layout(options) == Some(plan),
        leads_to(fresh, options.root_sectors * 512, files, root),
        image_made(plan, options, esp_bytes, root, Ok(image)),
    ensures
        ({
            let e = options.esp_sectors;
            let n = options.root_sectors;
            let b = image.bytes@;
            &&& image.root == (RootPartition {
                start_lba: (2048 + e) as u64,
                end_lba: (2048 + e + n - 1) as u64,
            })
            &&& b.len() == 512 * (2081 + e + n)
            &&& gpt::root_of(b.subrange(512, 1024), b.subrange(1024, 17408)) == Ok::<
                RootPartition,
                GptError,
            >(image.root)
            &&& partition_of(b, image.esp) == b.subrange(1_048_576, 512 * (2048 + e))
            &&& partition_of(b, image.esp) == esp_bytes
            &&& partition_of(b, image.root).take(8) == root_signature()
            &&& Ok::<Seq<u8>, i32>(partition_of(b, image.root)) == root_volume(fresh, files)
        }),
{
    let (esp, part, total) = plan;
    law_root_found(options, esp, part, total, esp_bytes, root->Ok_0);
    law_partitions_kept(options, esp, part, total, esp_bytes, root->Ok_0);
}

} // verus!
