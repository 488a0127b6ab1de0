//! A file system in memory, its files held in frames.
use vstd::prelude::*;

pub mod laws;

use crate::bytes::{self, copy_range, put, put_vec};
use crate::memory::{self, BuddyView, PhysFrame};
use crate::namemap::NameMap;
use crate::ordmap::OrdMap;
use crate::paging::{self, Machine, MachineView};
use crate::storage::StorageError;
use crate::text::is_text;
use crate::vfs::{InodeMetadata, StatFs, VfsError};

verus! {

#[derive(Debug)]
pub enum TmpNodeKind {
    File { pages: Vec<u64>, size: u64 },
    Directory { entries: NameMap<u64> },
    Symlink { target: Vec<u8> },
}

#[verifier::ext_equal]
pub enum TmpKindView {
    File { pages: Seq<u64>, size: u64 },
    Directory { entries: Map<Seq<u8>, u64> },
    Symlink { target: Seq<u8> },
}

impl View for TmpNodeKind {
    type V = TmpKindView;

    open spec fn view(&self) -> TmpKindView {
        match self {
            TmpNodeKind::File { pages, size } => TmpKindView::File { pages: pages@, size: *size },
            TmpNodeKind::Directory { entries } => TmpKindView::Directory { entries: entries@ },
            TmpNodeKind::Symlink { target } => TmpKindView::Symlink { target: target@ },
        }
    }
}

#[derive(Debug)]
pub struct TmpNode {
    pub ino: u64,
    pub mode: u32,
    pub uid: u32,
    pub gid: u32,
    pub atime: u64,
    pub mtime: u64,
    pub ctime: u64,
    pub nlink: u32,
    pub open_count: u32,
    pub kind: TmpNodeKind,
}

#[verifier::ext_equal]
pub struct TmpNodeView {
    pub ino: u64,
    pub mode: u32,
    pub uid: u32,
    pub gid: u32,
    pub atime: u64,
    pub mtime: u64,
    pub ctime: u64,
    pub nlink: u32,
    pub open_count: u32,
    pub kind: TmpKindView,
}

impl View for TmpNode {
    type V = TmpNodeView;

    open spec fn view(&self) -> TmpNodeView {
        TmpNodeView {
            ino: self.ino,
            mode: self.mode,
            uid: self.uid,
            gid: self.gid,
            atime: self.atime,
            mtime: self.mtime,
            ctime: self.ctime,
            nlink: self.nlink,
            open_count: self.open_count,
            kind: self.kind@,
        }
    }
}

/// A node of a kind, as it is made.
pub open spec fn new_node(ino: u64, mode: u32, nlink: u32, kind: TmpKindView) -> TmpNodeView {
    TmpNodeView {
        ino,
        mode,
        uid: 0,
        gid: 0,
        atime: 0,
        mtime: 0,
        ctime: 0,
        nlink,
        open_count: 0,
        kind,
    }
}

fn make_node(ino: u64, mode: u32, nlink: u32, kind: TmpNodeKind) -> (r: TmpNode)
    ensures
        r@ == new_node(ino, mode, nlink, kind@),
        r.kind == kind,
{
    TmpNode { ino, mode, uid: 0, gid: 0, atime: 0, mtime: 0, ctime: 0, nlink, open_count: 0, kind }
}

#[derive(Debug)]
pub struct TmpFs {
    pub next_ino: u64,
    pub nodes: OrdMap<TmpNode>,
}

#[verifier::ext_equal]
pub struct TmpFsView {
    pub next_ino: u64,
    pub nodes: Map<u64, TmpNodeView>,
}

/// What nodes stand for.
pub open spec fn seen_nodes(nodes: Map<u64, TmpNode>) -> Map<u64, TmpNodeView> {
    Map::new(|k: u64| nodes.dom().contains(k), |k: u64| nodes[k]@)
}

impl View for TmpFs {
    type V = TmpFsView;

    open spec fn view(&self) -> TmpFsView {
        TmpFsView { next_ino: self.next_ino, nodes: seen_nodes(self.nodes@) }
    }
}

impl TmpFsView {
    pub open spec fn has(self, ino: u64) -> bool {
        self.nodes.dom().contains(ino)
    }

    pub open spec fn with(self, ino: u64, node: TmpNodeView) -> TmpFsView {
        TmpFsView { nodes: self.nodes.insert(ino, node), ..self }
    }

    /// The entries of a directory.
    pub open spec fn entries(self, ino: u64) -> Result<Map<Seq<u8>, u64>, VfsError> {
        if !self.has(ino) {
            Err(VfsError::NotFound)
        } else {
            match self.nodes[ino].kind {
                TmpKindView::Directory { entries } => Ok(entries),
                _ => Err(VfsError::NotDirectory),
            }
        }
    }

    pub open spec fn with_entries(self, ino: u64, entries: Map<Seq<u8>, u64>) -> TmpFsView {
        self.with(
            ino,
            TmpNodeView { kind: TmpKindView::Directory { entries }, ..self.nodes[ino] },
        )
    }

    /// The pages and the size of a file.
    pub open spec fn file(self, ino: u64) -> Result<(Seq<u64>, u64), VfsError> {
        if !self.has(ino) {
            Err(VfsError::NotFound)
        } else {
            match self.nodes[ino].kind {
                TmpKindView::File { pages, size } => Ok((pages, size)),
                _ => Err(VfsError::IsDirectory),
            }
        }
    }

    pub open spec fn with_file(self, ino: u64, pages: Seq<u64>, size: u64) -> TmpFsView {
        self.with(
            ino,
            TmpNodeView { kind: TmpKindView::File { pages, size }, ..self.nodes[ino] },
        )
    }

    /// Whether every page of every file is in a memory of `length` bytes.
    pub open spec fn fits(self, length: int) -> bool {
        forall|ino: u64| #[trigger]
            self.nodes.dom().contains(ino) ==> pages_fit(self.nodes[ino].kind, length)
    }
}

pub open spec fn page_fits(page: u64, length: int) -> bool {
    page % 4096 == 0 && page + 4096 <= length
}

pub open spec fn pages_fit(kind: TmpKindView, length: int) -> bool {
    match kind {
        TmpKindView::File { pages, .. } => all_fit(pages, length),
        _ => true,
    }
}

pub open spec fn all_fit(pages: Seq<u64>, length: int) -> bool {
    forall|i: int| 0 <= i < pages.len() ==> page_fits(#[trigger] pages[i], length)
}

/// What a name in a directory leads to.
pub open spec fn looked_up(fs: TmpFsView, parent: u64, name: Seq<u8>) -> Result<u64, VfsError> {
    if name == crate::text::utf8("."@) || name.len() == 0 {
        Ok(parent)
    } else {
        match fs.entries(parent) {
            Err(e) => Err(e),
            Ok(entries) => if name == crate::text::utf8(".."@) {
                Ok(parent)
            } else if entries.dom().contains(name) {
                Ok(entries[name])
            } else {
                Err(VfsError::NotFound)
            },
        }
    }
}

pub open spec fn metadata(node: TmpNodeView) -> InodeMetadata {
    InodeMetadata {
        ino: node.ino,
        size: match node.kind {
            TmpKindView::File { size, .. } => size,
            TmpKindView::Directory { entries } => (entries.dom().len() * 64) as u64,
            TmpKindView::Symlink { target } => target.len() as u64,
        },
        mode: node.mode,
        uid: node.uid,
        gid: node.gid,
        atime: node.atime,
        mtime: node.mtime,
        ctime: node.ctime,
    }
}

/// A new node under a name that the directory does not have.
pub open spec fn added(
    fs: TmpFsView,
    parent: u64,
    name: Seq<u8>,
    mode: u32,
    nlink: u32,
    kind: TmpKindView,
) -> (TmpFsView, Result<u64, VfsError>) {
    match fs.entries(parent) {
        Err(e) => (fs, Err(e)),
        Ok(entries) => if entries.dom().contains(name) {
            (fs, Err(VfsError::AlreadyExists))
        } else {
            let ino = fs.next_ino;
            let linked = fs.with_entries(parent, entries.insert(name, ino));
            (
                TmpFsView { next_ino: (ino + 1) as u64, ..linked }.with(
                    ino,
                    new_node(ino, mode, nlink, kind),
                ),
                Ok(ino),
            )
        },
    }
}

/// The allocator after frames from `i` on are given back.
pub open spec fn all_freed(v: BuddyView, pages: Seq<u64>, i: int) -> BuddyView
    decreases pages.len() - i,
{
    if i < 0 || i >= pages.len() {
        v
    } else {
        all_freed(memory::freed(v, PhysFrame(pages[i])), pages, i + 1)
    }
}

/// A node gone, with the frames that it held.
pub open spec fn dropped(fs: TmpFsView, m: MachineView, ino: u64) -> (TmpFsView, MachineView) {
    (
        TmpFsView { nodes: fs.nodes.remove(ino), ..fs },
        match fs.nodes[ino].kind {
            TmpKindView::File { pages, .. } => MachineView {
                frames: all_freed(m.frames, pages, 0),
                ..m
            },
            _ => m,
        },
    )
}

/// A node gone if neither a name nor a user is left.
pub open spec fn dropped_if_last(fs: TmpFsView, m: MachineView, ino: u64) -> (
    TmpFsView,
    MachineView,
) {
    if fs.nodes[ino].nlink == 0 && fs.nodes[ino].open_count == 0 {
        dropped(fs, m, ino)
    } else {
        (fs, m)
    }
}

/// A node with one more user.
pub open spec fn opened(fs: TmpFsView, ino: u64) -> TmpFsView {
    if fs.has(ino) {
        let node = fs.nodes[ino];
        fs.with(
            ino,
            TmpNodeView {
                open_count: if node.open_count < u32::MAX {
                    (node.open_count + 1) as u32
                } else {
                    u32::MAX
                },
                ..node
            },
        )
    } else {
        fs
    }
}

/// A node with one user less; it is gone if that was the last of it.
pub open spec fn let_go(fs: TmpFsView, m: MachineView, ino: u64) -> (TmpFsView, MachineView) {
    if fs.has(ino) {
        let node = fs.nodes[ino];
        dropped_if_last(
            fs.with(
                ino,
                TmpNodeView {
                    open_count: if node.open_count > 0 {
                        (node.open_count - 1) as u32
                    } else {
                        0
                    },
                    ..node
                },
            ),
            m,
            ino,
        )
    } else {
        (fs, m)
    }
}

/// A name gone, and the node that it led to, if that was the last of it.
pub open spec fn detached(fs: TmpFsView, m: MachineView, parent: u64, name: Seq<u8>, target: u64) -> (
    TmpFsView,
    MachineView,
) {
    let unlinked = fs.with_entries(parent, fs.entries(parent)->Ok_0.remove(name));
    let node = unlinked.nodes[target];
    let fewer = unlinked.with(
        target,
        TmpNodeView {
            nlink: if node.nlink > 0 {
                (node.nlink - 1) as u32
            } else {
                0
            },
            ..node
        },
    );
    dropped_if_last(fewer, m, target)
}

/// The node that a name leads to, for its removal.
pub open spec fn removal(fs: TmpFsView, parent: u64, name: Seq<u8>, directory: bool) -> Result<
    u64,
    VfsError,
> {
    match fs.entries(parent) {
        Err(e) => Err(e),
        Ok(entries) => if !entries.dom().contains(name) || !fs.has(entries[name]) {
            Err(VfsError::NotFound)
        } else {
            match (fs.nodes[entries[name]].kind, directory) {
                (TmpKindView::Directory { .. }, false) => Err(VfsError::IsDirectory),
                (TmpKindView::Directory { entries: inside }, true) => if inside
                    == Map::<Seq<u8>, u64>::empty() {
                    Ok(entries[name])
                } else {
                    Err(VfsError::NotEmpty)
                },
                (_, true) => Err(VfsError::NotDirectory),
                (_, false) => Ok(entries[name]),
            }
        },
    }
}

pub open spec fn removed(fs: TmpFsView, m: MachineView, parent: u64, name: Seq<u8>, directory: bool) -> (
    TmpFsView,
    MachineView,
    Result<(), VfsError>,
) {
    match removal(fs, parent, name, directory) {
        Err(e) => (fs, m, Err(e)),
        Ok(target) => {
            let (fs1, m1) = detached(fs, m, parent, name, target);
            (fs1, m1, Ok(()))
        },
    }
}

/// A name moved. It is lost where the new directory is none.
pub open spec fn renamed(
    fs: TmpFsView,
    old_parent: u64,
    old_name: Seq<u8>,
    new_parent: u64,
    new_name: Seq<u8>,
) -> (TmpFsView, Result<(), VfsError>) {
    match fs.entries(old_parent) {
        Err(e) => (fs, Err(e)),
        Ok(entries) => if !entries.dom().contains(old_name) {
            (fs, Err(VfsError::NotFound))
        } else {
            let fs1 = fs.with_entries(old_parent, entries.remove(old_name));
            match fs1.entries(new_parent) {
                Err(e) => (fs1, Err(e)),
                Ok(inside) => (
                    fs1.with_entries(new_parent, inside.insert(new_name, entries[old_name])),
                    Ok(()),
                ),
            }
        },
    }
}

// ---------------------------------------------------------------------------
// Contents
// ---------------------------------------------------------------------------
/// How much of a page a transfer takes: to the end of the page, and no more
/// than is left.
pub open spec fn chunk(at: int, left: int) -> int {
    if left < 4096 - at % 4096 {
        left
    } else {
        4096 - at % 4096
    }
}

/// What a read finds from `done` bytes on, and whether it got to its end.
pub open spec fn pages_read(
    m: MachineView,
    pages: Seq<u64>,
    offset: int,
    buffer: Seq<u8>,
    done: int,
    total: int,
) -> (Seq<u8>, bool)
    decreases total - done,
{
    let at = offset + done;
    let page = pages[at / 4096];
    let n = chunk(at, total - done);
    if done >= total {
        (buffer, true)
    } else if m.virt(page) is None {
        (buffer, false)
    } else {
        let place = page + at % 4096;
        pages_read(
            m,
            pages,
            offset,
            bytes::splice(buffer, done, m.ram.subrange(place, place + n)),
            done + n,
            total,
        )
    }
}

/// What a write leaves from `done` bytes on, and whether it got to its end.
pub open spec fn pages_written(
    m: MachineView,
    pages: Seq<u64>,
    offset: int,
    data: Seq<u8>,
    done: int,
) -> (MachineView, bool)
    decreases data.len() - done,
{
    let at = offset + done;
    let page = pages[at / 4096];
    let n = chunk(at, data.len() - done);
    if done >= data.len() {
        (m, true)
    } else if m.virt(page) is None {
        (m, false)
    } else {
        pages_written(
            MachineView {
                ram: bytes::splice(m.ram, page + at % 4096, data.subrange(done, done + n)),
                ..m
            },
            pages,
            offset,
            data,
            done + n,
        )
    }
}

/// Pages added until there are enough, and whether there were frames.
pub open spec fn grown(m: MachineView, pages: Seq<u64>, needed: int) -> (
    MachineView,
    Seq<u64>,
    bool,
)
    decreases needed - pages.len(),
{
    if pages.len() >= needed {
        (m, pages, true)
    } else {
        match m.table_taken() {
            (m1, Err(_)) => (m1, pages, false),
            (m1, Ok(page)) => grown(m1, pages.push(page), needed),
        }
    }
}

pub open spec fn pages_for(end: int) -> int {
    (end + 4095) / 4096
}

pub open spec fn bytes_left(size: u64, offset: u64, length: nat) -> int {
    if offset >= size {
        0
    } else if size - offset < length {
        size - offset
    } else {
        length as int
    }
}

/// The buffer after a read, and what the read gave.
pub open spec fn file_read(fs: TmpFsView, m: MachineView, ino: u64, offset: u64, buffer: Seq<u8>) -> (
    Seq<u8>,
    Result<usize, VfsError>,
) {
    match fs.file(ino) {
        Err(e) => (buffer, Err(e)),
        Ok((pages, size)) => {
            let total = bytes_left(size, offset, buffer.len());
            match pages_read(m, pages, offset as int, buffer, 0, total) {
                (filled, true) => (filled, Ok(total as usize)),
                (filled, false) => (filled, Err(VfsError::Storage(StorageError::IoFailed))),
            }
        },
    }
}

pub open spec fn file_written(fs: TmpFsView, m: MachineView, ino: u64, offset: u64, data: Seq<u8>) -> (
    TmpFsView,
    MachineView,
    Result<usize, VfsError>,
) {
    match fs.file(ino) {
        Err(e) => (fs, m, Err(e)),
        Ok((pages, size)) => if offset + data.len() > u64::MAX {
            (fs, m, Err(VfsError::FileTooLarge))
        } else {
            let end = offset + data.len();
            let (m1, pages1, enough) = grown(m, pages, pages_for(end));
            let fs1 = fs.with_file(ino, pages1, size);
            if !enough {
                (fs1, m1, Err(VfsError::NoSpace))
            } else {
                match pages_written(m1, pages1, offset as int, data, 0) {
                    (m2, false) => (fs1, m2, Err(VfsError::Storage(StorageError::IoFailed))),
                    (m2, true) => (
                        fs.with_file(
                            ino,
                            pages1,
                            if end > size {
                                end as u64
                            } else {
                                size
                            },
                        ),
                        m2,
                        Ok(data.len() as usize),
                    ),
                }
            }
        },
    }
}

pub open spec fn truncated(fs: TmpFsView, m: MachineView, ino: u64, size: u64) -> (
    TmpFsView,
    MachineView,
    Result<(), VfsError>,
) {
    match fs.file(ino) {
        Err(e) => (fs, m, Err(e)),
        Ok((pages, _)) => {
            let needed = pages_for(size as int);
            if needed < pages.len() {
                (
                    fs.with_file(ino, pages.take(needed), size),
                    MachineView { frames: all_freed(m.frames, pages.skip(needed), 0), ..m },
                    Ok(()),
                )
            } else {
                (fs.with_file(ino, pages, size), m, Ok(()))
            }
        },
    }
}

// ---------------------------------------------------------------------------
// The file system
// ---------------------------------------------------------------------------
proof fn lemma_nodes(nodes: Map<u64, TmpNode>)
    ensures
        forall|ino: u64, node: TmpNode| #[trigger]
            seen_nodes(nodes.insert(ino, node)) == seen_nodes(nodes).insert(ino, node@),
        forall|ino: u64| #[trigger]
            seen_nodes(nodes.remove(ino)) == seen_nodes(nodes).remove(ino),
{
    assert forall|ino: u64, node: TmpNode| #[trigger]
        seen_nodes(nodes.insert(ino, node)) == seen_nodes(nodes).insert(ino, node@) by {
        assert(seen_nodes(nodes.insert(ino, node)) =~= seen_nodes(nodes).insert(ino, node@));
    }
    assert forall|ino: u64| #[trigger]
        seen_nodes(nodes.remove(ino)) == seen_nodes(nodes).remove(ino) by {
        assert(seen_nodes(nodes.remove(ino)) =~= seen_nodes(nodes).remove(ino));
    }
}

/// Gives frames back.
fn free_all(machine: &mut Machine, pages: &Vec<u64>, from: usize)
    requires
        old(machine).wf(),
        from <= pages.len(),
    ensures
        final(machine).wf(),
        final(machine).same_place(old(machine)),
        final(machine)@ == (MachineView {
            frames: all_freed(old(machine)@.frames, pages@.skip(from as int), 0),
            ..old(machine)@
        }),
{
    let mut i: usize = from;
    let ghost rest = pages@.skip(from as int);
    while i < pages.len()
        invariant
            from <= i <= pages.len(),
            rest == pages@.skip(from as int),
            machine.wf(),
            machine.same_place(old(machine)),
            machine@ == (MachineView { frames: machine@.frames, ..old(machine)@ }),
            all_freed(machine@.frames, rest, i - from) == all_freed(
                old(machine)@.frames,
                rest,
                0,
            ),
        decreases pages.len() - i,
    {
        proof {
            memory::lemma_freed_length(machine.memory@, PhysFrame(pages@[i as int]));
            assert(rest[i - from] == pages@[i as int]);
        }
        let _ = memory::free_frame(&mut machine.memory, PhysFrame(pages[i]));
        i += 1;
    }
}

pub open spec fn kind_ok(kind: TmpNodeKind) -> bool {
    match kind {
        TmpNodeKind::Directory { entries } => entries.wf(),
        _ => true,
    }
}

impl TmpFs {
    pub open spec fn wf(&self) -> bool {
        &&& self.nodes.wf()
        &&& forall|ino: u64| #[trigger]
            self.nodes@.dom().contains(ino) ==> ino < self.next_ino && kind_ok(
                self.nodes@[ino].kind,
            )
    }

    pub fn new() -> (r: Self)
        ensures
            r.wf(),
            r@ == (TmpFsView {
                next_ino: 2,
                nodes: Map::<u64, TmpNodeView>::empty().insert(
                    1,
                    new_node(
                        1,
                        0o040777,
                        2,
                        TmpKindView::Directory { entries: Map::<Seq<u8>, u64>::empty() },
                    ),
                ),
            }),
    {
        let mut nodes: OrdMap<TmpNode> = OrdMap::new();
        proof {
            lemma_nodes(nodes@);
            assert(seen_nodes(nodes@) =~= Map::<u64, TmpNodeView>::empty());
        }
        nodes.insert(
            1,
            make_node(1, 0o040777, 2, TmpNodeKind::Directory { entries: NameMap::new() }),
        );
        TmpFs { next_ino: 2, nodes }
    }

    pub fn root_inode(&self) -> (r: u64)
        ensures
            r == 1,
    {
        1
    }

    /// The entries of a directory.
    fn directory(&self, ino: u64) -> (r: Result<&NameMap<u64>, VfsError>)
        requires
            self.wf(),
        ensures
            match r {
                Ok(entries) => entries.wf() && self@.entries(ino) == Ok::<
                    Map<Seq<u8>, u64>,
                    VfsError,
                >(entries@),
                Err(e) => self@.entries(ino) == Err::<Map<Seq<u8>, u64>, VfsError>(e),
            },
    {
        match self.nodes.get(ino) {
            None => Err(VfsError::NotFound),
            Some(node) => match &node.kind {
                TmpNodeKind::Directory { entries } => Ok(entries),
                _ => Err(VfsError::NotDirectory),
            },
        }
    }

    /// Puts a name into a directory.
    fn link(&mut self, parent: u64, name: &[u8], ino: u64)
        requires
            old(self).wf(),
            old(self)@.entries(parent) is Ok,
        ensures
            final(self).wf(),
            final(self)@ == old(self)@.with_entries(
                parent,
                old(self)@.entries(parent)->Ok_0.insert(name@, ino),
            ),
    {
        proof {
            lemma_nodes(self.nodes@);
        }
        let node = self.nodes.at_mut(parent);
        if let TmpNodeKind::Directory { entries } = &mut node.kind {
            entries.insert(name, ino);
        }
    }

    /// Takes a name out of a directory.
    fn unlink_name(&mut self, parent: u64, name: &[u8]) -> (r: Option<u64>)
        requires
            old(self).wf(),
            old(self)@.entries(parent) is Ok,
        ensures
            final(self).wf(),
            final(self)@ == old(self)@.with_entries(
                parent,
                old(self)@.entries(parent)->Ok_0.remove(name@),
            ),
            r == if old(self)@.entries(parent)->Ok_0.dom().contains(name@) {
                Some(old(self)@.entries(parent)->Ok_0[name@])
            } else {
                None
            },
    {
        proof {
            lemma_nodes(self.nodes@);
        }
        let node = self.nodes.at_mut(parent);
        let mut found: Option<u64> = None;
        if let TmpNodeKind::Directory { entries } = &mut node.kind {
            found = entries.remove(name);
        }
        found
    }

    pub fn lookup(&self, parent: u64, name: &[u8]) -> (r: Result<u64, VfsError>)
        requires
            self.wf(),
        ensures
            r == looked_up(self@, parent, name@),
    {
        if is_text(name, ".") || name.len() == 0 {
            return Ok(parent);
        }
        match self.directory(parent) {
            Err(e) => Err(e),
            Ok(entries) => if is_text(name, "..") {
                Ok(parent)
            } else {
                match entries.get(name) {
                    None => Err(VfsError::NotFound),
                    Some(ino) => Ok(ino),
                }
            },
        }
    }

    pub fn read_inode(&self, ino: u64) -> (r: Result<InodeMetadata, VfsError>)
        requires
            self.wf(),
        ensures
            r == if self@.has(ino) {
                Ok(metadata(self@.nodes[ino]))
            } else {
                Err(VfsError::NotFound)
            },
    {
        match self.nodes.get(ino) {
            None => Err(VfsError::NotFound),
            Some(node) => {
                let size: u64 = match &node.kind {
                    TmpNodeKind::File { size, .. } => *size,
                    TmpNodeKind::Directory { entries } => {
                        proof {
                            crate::namemap::lemma_count(entries.order(), entries.values@);
                        }
                        (entries.len() as u128 * 64) as u64
                    },
                    TmpNodeKind::Symlink { target } => target.len() as u64,
                };
                Ok(
                    InodeMetadata {
                        ino: node.ino,
                        size,
                        mode: node.mode,
                        uid: node.uid,
                        gid: node.gid,
                        atime: node.atime,
                        mtime: node.mtime,
                        ctime: node.ctime,
                    },
                )
            },
        }
    }

    fn add_node(
        &mut self,
        parent: u64,
        name: &[u8],
        mode: u32,
        nlink: u32,
        kind: TmpNodeKind,
    ) -> (r: Result<u64, VfsError>)
        requires
            old(self).wf(),
            old(self).next_ino < u64::MAX,
            kind_ok(kind),
        ensures
            final(self).wf(),
            (final(self)@, r) == added(old(self)@, parent, name@, mode, nlink, kind@),
    {
        match self.directory(parent) {
            Err(e) => {
                return Err(e);
            },
            Ok(entries) => {
                if entries.get(name).is_some() {
                    return Err(VfsError::AlreadyExists);
                }
            },
        }
        let ino: u64 = self.next_ino;
        self.link(parent, name, ino);
        self.next_ino = ino + 1;
        proof {
            lemma_nodes(self.nodes@);
        }
        self.nodes.insert(ino, make_node(ino, mode, nlink, kind));
        Ok(ino)
    }

    pub fn create(&mut self, parent: u64, name: &[u8], mode: u32) -> (r: Result<u64, VfsError>)
        requires
            old(self).wf(),
            old(self).next_ino < u64::MAX,
        ensures
            final(self).wf(),
            (final(self)@, r) == added(
                old(self)@,
                parent,
                name@,
                0o100000 | (mode & 0o7777),
                1,
                TmpKindView::File { pages: Seq::empty(), size: 0 },
            ),
    {
        let kind = TmpNodeKind::File { pages: Vec::new(), size: 0 };
        assert(kind@ =~= TmpKindView::File { pages: Seq::empty(), size: 0 });
        self.add_node(parent, name, 0o100000 | (mode & 0o7777), 1, kind)
    }

    pub fn mkdir(&mut self, parent: u64, name: &[u8], mode: u32) -> (r: Result<u64, VfsError>)
        requires
            old(self).wf(),
            old(self).next_ino < u64::MAX,
        ensures
            final(self).wf(),
            (final(self)@, r) == added(
                old(self)@,
                parent,
                name@,
                0o040000 | (mode & 0o7777),
                2,
                TmpKindView::Directory { entries: Map::empty() },
            ),
    {
        let kind = TmpNodeKind::Directory { entries: NameMap::new() };
        self.add_node(parent, name, 0o040000 | (mode & 0o7777), 2, kind)
    }

    pub fn symlink(&mut self, parent: u64, name: &[u8], target: &[u8]) -> (r: Result<u64, VfsError>)
        requires
            old(self).wf(),
            old(self).next_ino < u64::MAX,
        ensures
            final(self).wf(),
            (final(self)@, r) == added(
                old(self)@,
                parent,
                name@,
                0o120777,
                1,
                TmpKindView::Symlink { target: target@ },
            ),
    {
        let kind = TmpNodeKind::Symlink { target: vstd::slice::slice_to_vec(target) };
        self.add_node(parent, name, 0o120777, 1, kind)
    }

    /// Takes a node away if neither a name nor a user is left.
    fn drop_if_last(&mut self, machine: &mut Machine, ino: u64)
        requires
            old(self).wf(),
            old(machine).wf(),
            old(self)@.has(ino),
        ensures
            final(self).wf(),
            final(machine).wf(),
            final(machine).same_place(old(machine)),
            (final(self)@, final(machine)@) == dropped_if_last(old(self)@, old(machine)@, ino),
    {
        let last: bool = match self.nodes.get(ino) {
            None => false,
            Some(node) => node.nlink == 0 && node.open_count == 0,
        };
        if last {
            proof {
                lemma_nodes(self.nodes@);
            }
            if let Some(node) = self.nodes.remove(ino) {
                if let TmpNodeKind::File { pages, .. } = &node.kind {
                    free_all(machine, pages, 0);
                    assert(pages@.skip(0) =~= pages@);
                }
            }
        }
    }

    fn detach(&mut self, machine: &mut Machine, parent: u64, name: &[u8], target: u64)
        requires
            old(self).wf(),
            old(machine).wf(),
            old(self)@.entries(parent) is Ok,
            old(self)@.has(target),
        ensures
            final(self).wf(),
            final(machine).wf(),
            final(machine).same_place(old(machine)),
            (final(self)@, final(machine)@) == detached(
                old(self)@,
                old(machine)@,
                parent,
                name@,
                target,
            ),
    {
        let _ = self.unlink_name(parent, name);
        proof {
            lemma_nodes(self.nodes@);
        }
        assert(self@.nodes.dom().contains(target));
        let node = self.nodes.at_mut(target);
        node.nlink = node.nlink.saturating_sub(1);
        self.drop_if_last(machine, target);
    }

    fn find_removal(&self, parent: u64, name: &[u8], directory: bool) -> (r: Result<u64, VfsError>)
        requires
            self.wf(),
        ensures
            r == removal(self@, parent, name@, directory),
    {
        let target: u64 = match self.directory(parent) {
            Err(e) => {
                return Err(e);
            },
            Ok(entries) => match entries.get(name) {
                None => {
                    return Err(VfsError::NotFound);
                },
                Some(target) => target,
            },
        };
        match self.nodes.get(target) {
            None => Err(VfsError::NotFound),
            Some(node) => match &node.kind {
                TmpNodeKind::Directory { entries } => if !directory {
                    Err(VfsError::IsDirectory)
                } else {
                    proof {
                        crate::namemap::lemma_count(entries.order(), entries.values@);
                        if entries@ == Map::<Seq<u8>, u64>::empty() {
                            assert(entries@.dom() =~= Set::<Seq<u8>>::empty());
                        } else if entries.order().len() == 0 {
                            assert(entries@ =~= Map::<Seq<u8>, u64>::empty());
                        }
                    }
                    if entries.len() == 0 {
                        Ok(target)
                    } else {
                        Err(VfsError::NotEmpty)
                    }
                },
                _ => if directory {
                    Err(VfsError::NotDirectory)
                } else {
                    Ok(target)
                },
            },
        }
    }

    pub fn unlink(&mut self, machine: &mut Machine, parent: u64, name: &[u8]) -> (r: Result<
        (),
        VfsError,
    >)
        requires
            old(self).wf(),
            old(machine).wf(),
        ensures
            final(self).wf(),
            final(machine).wf(),
            (final(self)@, final(machine)@, r) == removed(
                old(self)@,
                old(machine)@,
                parent,
                name@,
                false,
            ),
    {
        match self.find_removal(parent, name, false) {
            Err(e) => Err(e),
            Ok(target) => {
                self.detach(machine, parent, name, target);
                Ok(())
            },
        }
    }

    pub fn rmdir(&mut self, machine: &mut Machine, parent: u64, name: &[u8]) -> (r: Result<
        (),
        VfsError,
    >)
        requires
            old(self).wf(),
            old(machine).wf(),
        ensures
            final(self).wf(),
            final(machine).wf(),
            (final(self)@, final(machine)@, r) == removed(
                old(self)@,
                old(machine)@,
                parent,
                name@,
                true,
            ),
    {
        match self.find_removal(parent, name, true) {
            Err(e) => Err(e),
            Ok(target) => {
                self.detach(machine, parent, name, target);
                Ok(())
            },
        }
    }

    pub fn open_inode(&mut self, ino: u64)
        requires
            old(self).wf(),
        ensures
            final(self).wf(),
            final(self)@ == opened(old(self)@, ino),
    {
        if self.nodes.contains_key(ino) {
            proof {
                lemma_nodes(self.nodes@);
            }
            let node = self.nodes.at_mut(ino);
            node.open_count = node.open_count.saturating_add(1);
        }
    }

    pub fn close_inode(&mut self, machine: &mut Machine, ino: u64)
        requires
            old(self).wf(),
            old(machine).wf(),
        ensures
            final(self).wf(),
            final(machine).wf(),
            (final(self)@, final(machine)@) == let_go(old(self)@, old(machine)@, ino),
    {
        if self.nodes.contains_key(ino) {
            proof {
                lemma_nodes(self.nodes@);
            }
            let node = self.nodes.at_mut(ino);
            node.open_count = node.open_count.saturating_sub(1);
            self.drop_if_last(machine, ino);
        }
    }

    pub fn readlink(&self, ino: u64) -> (r: Result<Vec<u8>, VfsError>)
        requires
            self.wf(),
        ensures
            match r {
                Ok(target) => self@.has(ino) && self@.nodes[ino].kind == (TmpKindView::Symlink {
                    target: target@,
                }),
                Err(e) => e == if self@.has(ino) {
                    VfsError::InvalidPath
                } else {
                    VfsError::NotFound
                } && !(self@.has(ino) && self@.nodes[ino].kind is Symlink),
            },
    {
        match self.nodes.get(ino) {
            None => Err(VfsError::NotFound),
            Some(node) => match &node.kind {
                TmpNodeKind::Symlink { target } => Ok(
                    vstd::slice::slice_to_vec(target.as_slice()),
                ),
                _ => Err(VfsError::InvalidPath),
            },
        }
    }

    pub fn rename(&mut self, old_parent: u64, old_name: &[u8], new_parent: u64, new_name: &[u8]) -> (r:
        Result<(), VfsError>)
        requires
            old(self).wf(),
        ensures
            final(self).wf(),
            (final(self)@, r) == renamed(
                old(self)@,
                old_parent,
                old_name@,
                new_parent,
                new_name@,
            ),
    {
        match self.directory(old_parent) {
            Err(e) => {
                return Err(e);
            },
            Ok(entries) => {
                if entries.get(old_name).is_none() {
                    return Err(VfsError::NotFound);
                }
            },
        }
        match self.unlink_name(old_parent, old_name) {
            None => Err(VfsError::NotFound),
            Some(target) => {
                match self.directory(new_parent) {
                    Err(e) => {
                        return Err(e);
                    },
                    Ok(_) => {},
                }
                self.link(new_parent, new_name, target);
                Ok(())
            },
        }
    }

    pub fn sync(&self) -> (r: Result<(), VfsError>)
        ensures
            r == Ok::<(), VfsError>(()),
    {
        Ok(())
    }

    pub fn statfs(&self, machine: &Machine) -> (r: Result<StatFs, VfsError>)
        requires
            machine.wf(),
        ensures
            r == Ok::<StatFs, VfsError>(
                StatFs {
                    f_type: 0x01021994,
                    f_bsize: 4096,
                    f_blocks: machine.memory.stats.tracked_frames as u64,
                    f_bfree: machine@.frames.free_total() as u64,
                    f_bavail: machine@.frames.free_total() as u64,
                    f_files: 100000,
                    f_ffree: 100000,
                },
            ),
    {
        let free: u64 = memory::free_frames_count(&machine.memory) as u64;
        Ok(
            StatFs {
                f_type: 0x01021994,
                f_bsize: 4096,
                f_blocks: memory::stats(&machine.memory).tracked_frames as u64,
                f_bfree: free,
                f_bavail: free,
                f_files: 100000,
                f_ffree: 100000,
            },
        )
    }

    /// The names in a directory, in order.
    pub fn read_dir(&self, ino: u64) -> (r: Result<Vec<Vec<u8>>, VfsError>)
        requires
            self.wf(),
        ensures
            match r {
                Ok(names) => {
                    let order = crate::store::views(names@);
                    &&& self@.entries(ino) is Ok
                    &&& crate::namemap::in_order(order)
                    &&& forall|name: Seq<u8>| #[trigger]
                        order.contains(name) <==> self@.entries(ino)->Ok_0.dom().contains(name)
                },
                Err(e) => self@.entries(ino) == Err::<Map<Seq<u8>, u64>, VfsError>(e),
            },
    {
        match self.directory(ino) {
            Err(e) => Err(e),
            Ok(entries) => Ok(entries.names_in_order()),
        }
    }

    pub fn read(&self, machine: &Machine, ino: u64, offset: u64, buf: &mut [u8]) -> (r: Result<
        usize,
        VfsError,
    >)
        requires
            self.wf(),
            self@.fits(machine.ram@.len() as int),
            self@.file(ino) matches Ok((pages, size)) ==> pages_for(
                offset + bytes_left(size, offset, old(buf)@.len()),
            ) <= pages.len() || offset >= size,
        ensures
            (final(buf)@, r) == file_read(self@, machine@, ino, offset, old(buf)@),
    {
        match self.nodes.get(ino) {
            None => Err(VfsError::NotFound),
            Some(node) => match &node.kind {
                TmpNodeKind::File { pages, size } => {
                    if offset >= *size {
                        return Ok(0);
                    }
                    let left: u64 = *size - offset;
                    let total: usize = if (buf.len() as u64) <= left {
                        buf.len()
                    } else {
                        left as usize
                    };
                    assert(self@.nodes.dom().contains(ino));
                    if read_pages(machine, pages, offset, buf, total) {
                        Ok(total)
                    } else {
                        Err(VfsError::Storage(StorageError::IoFailed))
                    }
                },
                _ => Err(VfsError::IsDirectory),
            },
        }
    }

    pub fn write(&mut self, machine: &mut Machine, ino: u64, offset: u64, buf: &[u8]) -> (r: Result<
        usize,
        VfsError,
    >)
        requires
            old(self).wf(),
            old(machine).wf(),
            old(self)@.fits(old(machine).ram@.len() as int),
            offset + buf@.len() > u64::MAX || offset + buf@.len() <= u64::MAX - 4095,
        ensures
            final(self).wf(),
            final(machine).wf(),
            final(self)@.fits(final(machine).ram@.len() as int),
            (final(self)@, final(machine)@, r) == file_written(
                old(self)@,
                old(machine)@,
                ino,
                offset,
                buf@,
            ),
    {
        match self.nodes.get(ino) {
            None => {
                return Err(VfsError::NotFound);
            },
            Some(node) => match &node.kind {
                TmpNodeKind::File { .. } => {},
                _ => {
                    return Err(VfsError::IsDirectory);
                },
            },
        }
        let end: u64 = match offset.checked_add(buf.len() as u64) {
            None => {
                return Err(VfsError::FileTooLarge);
            },
            Some(end) => end,
        };
        let needed: u64 = (end + 4095) / 4096;
        proof {
            lemma_nodes(self.nodes@);
            assert(self@.nodes.dom().contains(ino));
        }
        let ghost before = self@;
        let node = self.nodes.at_mut(ino);
        let mut result: Result<usize, VfsError> = Err(VfsError::IsDirectory);
        if let TmpNodeKind::File { pages, size } = &mut node.kind {
            if !grow(machine, pages, needed) {
                result = Err(VfsError::NoSpace);
            } else if !write_pages(machine, pages, offset, buf) {
                result = Err(VfsError::Storage(StorageError::IoFailed));
            } else {
                if end > *size {
                    *size = end;
                }
                result = Ok(buf.len());
            }
        }
        result
    }

    pub fn truncate(&mut self, machine: &mut Machine, ino: u64, size: u64) -> (r: Result<
        (),
        VfsError,
    >)
        requires
            old(self).wf(),
            old(machine).wf(),
            size <= u64::MAX - 4095,
        ensures
            final(self).wf(),
            final(machine).wf(),
            (final(self)@, final(machine)@, r) == truncated(
                old(self)@,
                old(machine)@,
                ino,
                size,
            ),
    {
        match self.nodes.get(ino) {
            None => {
                return Err(VfsError::NotFound);
            },
            Some(node) => match &node.kind {
                TmpNodeKind::File { .. } => {},
                _ => {
                    return Err(VfsError::IsDirectory);
                },
            },
        }
        let needed: u64 = (size + 4095) / 4096;
        proof {
            lemma_nodes(self.nodes@);
        }
        let node = self.nodes.at_mut(ino);
        if let TmpNodeKind::File { pages, size: current } = &mut node.kind {
            if needed < pages.len() as u64 {
                free_all(machine, pages, needed as usize);
                pages.truncate(needed as usize);
            }
            *current = size;
        }
        Ok(())
    }
}

fn read_pages(machine: &Machine, pages: &Vec<u64>, offset: u64, buf: &mut [u8], total: usize) -> (r:
    bool)
    requires
        all_fit(pages@, machine.ram@.len() as int),
        offset + total <= u64::MAX,
        pages_for(offset + total) <= pages.len(),
        total <= old(buf)@.len(),
    ensures
        (final(buf)@, r) == pages_read(
            machine@,
            pages@,
            offset as int,
            old(buf)@,
            0,
            total as int,
        ),
{
    let mut done: usize = 0;
    let ghost goal = pages_read(machine@, pages@, offset as int, buf@, 0, total as int);
    while done < total
        invariant
            done <= total,
            total <= buf@.len(),
            all_fit(pages@, machine.ram@.len() as int),
            offset + total <= u64::MAX,
            pages_for(offset + total) <= pages.len(),
            goal == pages_read(machine@, pages@, offset as int, buf@, done as int, total as int),
            goal == pages_read(machine@, pages@, offset as int, old(buf)@, 0, total as int),
        decreases total - done,
    {
        let at: u64 = offset + done as u64;
        let index: usize = (at / 4096) as usize;
        let inside: usize = (at % 4096) as usize;
        let n: usize = if total - done < 4096 - inside {
            total - done
        } else {
            4096 - inside
        };
        assert(at / 4096 < pages.len());
        let page: u64 = pages[index];
        assert(page_fits(pages@[index as int], machine.ram@.len() as int));
        assert(machine.ram@.len() == machine.ram.len());
        if paging::phys_to_virt(machine, page).is_none() {
            return false;
        }
        let place: usize = page as usize + inside;
        let part: Vec<u8> = copy_range(machine.ram.as_slice(), place, place + n);
        put(buf, done, part.as_slice());
        done += n;
    }
    true
}

fn write_pages(machine: &mut Machine, pages: &Vec<u64>, offset: u64, data: &[u8]) -> (r: bool)
    requires
        old(machine).wf(),
        all_fit(pages@, old(machine).ram@.len() as int),
        offset + data@.len() <= u64::MAX,
        pages_for(offset + data@.len()) <= pages.len(),
    ensures
        final(machine).wf(),
        final(machine).same_place(old(machine)),
        (final(machine)@, r) == pages_written(
            old(machine)@,
            pages@,
            offset as int,
            data@,
            0,
        ),
{
    let mut done: usize = 0;
    let total: usize = data.len();
    let ghost goal = pages_written(machine@, pages@, offset as int, data@, 0);
    while done < total
        invariant
            done <= total,
            total == data@.len(),
            machine.wf(),
            machine.same_place(old(machine)),
            all_fit(pages@, machine.ram@.len() as int),
            offset + total <= u64::MAX,
            pages_for(offset + total) <= pages.len(),
            goal == pages_written(machine@, pages@, offset as int, data@, done as int),
            goal == pages_written(old(machine)@, pages@, offset as int, data@, 0),
        decreases total - done,
    {
        let at: u64 = offset + done as u64;
        let index: usize = (at / 4096) as usize;
        let inside: usize = (at % 4096) as usize;
        let n: usize = if total - done < 4096 - inside {
            total - done
        } else {
            4096 - inside
        };
        assert(at / 4096 < pages.len());
        let page: u64 = pages[index];
        assert(page_fits(pages@[index as int], machine.ram@.len() as int));
        assert(machine.ram@.len() == machine.ram.len());
        if paging::phys_to_virt(machine, page).is_none() {
            return false;
        }
        let place: usize = page as usize + inside;
        put_vec(&mut machine.ram, place, vstd::slice::slice_subrange(data, done, done + n));
        done += n;
    }
    true
}

fn grow(machine: &mut Machine, pages: &mut Vec<u64>, needed: u64) -> (r: bool)
    requires
        old(machine).wf(),
        all_fit(old(pages)@, old(machine).ram@.len() as int),
    ensures
        final(machine).wf(),
        final(machine).same_place(old(machine)),
        all_fit(final(pages)@, final(machine).ram@.len() as int),
        (final(machine)@, final(pages)@, r) == grown(old(machine)@, old(pages)@, needed as int),
        r ==> final(pages)@.len() >= needed,
{
    let ghost goal = grown(machine@, pages@, needed as int);
    while (pages.len() as u64) < needed
        invariant
            machine.wf(),
            machine.same_place(old(machine)),
            all_fit(pages@, machine.ram@.len() as int),
            goal == grown(machine@, pages@, needed as int),
            goal == grown(old(machine)@, old(pages)@, needed as int),
        decreases (if pages.len() < needed { needed - pages.len() } else { 0 }),
    {
        match paging::allocate_table(machine) {
            Err(_) => {
                return false;
            },
            Ok(page) => {
                pages.push(page);
            },
        }
    }
    true
}

// ---------------------------------------------------------------------------
// Laws
// ---------------------------------------------------------------------------
pub open spec fn all_reachable(m: MachineView, pages: Seq<u64>) -> bool {
    forall|i: int| 0 <= i < pages.len() ==> m.virt(#[trigger] pages[i]) is Some
}

pub open spec fn distinct(pages: Seq<u64>) -> bool {
    forall|i: int, j: int| 0 <= i < j < pages.len() ==> #[trigger] pages[i] != #[trigger] pages[j]
}

/// The byte of a file at `at`.
pub open spec fn content(m: MachineView, pages: Seq<u64>, at: int) -> u8 {
    m.ram[pages[at / 4096] + at % 4096]
}

pub(crate) proof fn lemma_read(
    m: MachineView,
    pages: Seq<u64>,
    offset: int,
    buffer: Seq<u8>,
    done: int,
    total: int,
)
    requires
        0 <= offset,
        0 <= done <= total <= buffer.len(),
        all_fit(pages, m.ram.len() as int),
        all_reachable(m, pages),
        pages_for(offset + total) <= pages.len(),
    ensures
        ({
            let (filled, ok) = pages_read(m, pages, offset, buffer, done, total);
            &&& ok
            &&& filled.len() == buffer.len()
            &&& forall|j: int|
                done <= j < total ==> #[trigger] filled[j] == content(m, pages, offset + j)
            &&& forall|j: int|
                0 <= j < done || total <= j < buffer.len() ==> #[trigger] filled[j] == buffer[j]
        }),
    decreases total - done,
{
    if done < total {
        let at = offset + done;
        let n = chunk(at, total - done);
        let page = pages[at / 4096];
        assert(0 <= at / 4096 < pages.len());
        assert(page_fits(page, m.ram.len() as int));
        let place = page + at % 4096;
        let next = bytes::splice(buffer, done, m.ram.subrange(place, place + n));
        lemma_read(m, pages, offset, next, done + n, total);
        let (filled, ok) = pages_read(m, pages, offset, next, done + n, total);
        assert forall|j: int| done <= j < total implies #[trigger] filled[j] == content(
            m,
            pages,
            offset + j,
        ) by {
            if j < done + n {
                assert(filled[j] == next[j]);
                assert((offset + j) / 4096 == at / 4096);
                assert((offset + j) % 4096 == at % 4096 + (j - done));
            }
        }
        assert forall|j: int| 0 <= j < done || total <= j < buffer.len() implies #[trigger] filled[j]
            == buffer[j] by {
            assert(filled[j] == next[j]);
        }
    }
}

pub(crate) proof fn lemma_written(m: MachineView, pages: Seq<u64>, offset: int, data: Seq<u8>, done: int)
    requires
        0 <= offset,
        0 <= done <= data.len(),
        all_fit(pages, m.ram.len() as int),
        all_reachable(m, pages),
        distinct(pages),
        pages_for(offset + data.len()) <= pages.len(),
    ensures
        ({
            let (after, ok) = pages_written(m, pages, offset, data, done);
            &&& ok
            &&& after == (MachineView { ram: after.ram, ..m })
            &&& after.ram.len() == m.ram.len()
            &&& forall|i: int|
                0 <= i < pages.len() * 4096 ==> #[trigger] content(after, pages, i) == if offset
                    + done <= i < offset + data.len() {
                    data[i - offset]
                } else {
                    content(m, pages, i)
                }
            &&& forall|a: int|
                0 <= a < m.ram.len() && outside(pages, a) ==> #[trigger] after.ram[a] == m.ram[a]
        }),
    decreases data.len() - done,
{
    if done < data.len() {
        let at = offset + done;
        let n = chunk(at, data.len() - done);
        let page = pages[at / 4096];
        assert(0 <= at / 4096 < pages.len());
        assert(page_fits(page, m.ram.len() as int));
        let place = page + at % 4096;
        let next = MachineView { ram: bytes::splice(m.ram, place, data.subrange(done, done + n)), ..m };
        assert forall|i: int| 0 <= i < pages.len() implies next.virt(#[trigger] pages[i]) is Some by {
            assert(m.virt(pages[i]) is Some);
        }
        lemma_written(next, pages, offset, data, done + n);
        let (after, ok) = pages_written(next, pages, offset, data, done + n);
        assert forall|i: int| 0 <= i < pages.len() * 4096 implies #[trigger] content(after, pages, i)
            == if offset + done <= i < offset + data.len() {
            data[i - offset]
        } else {
            content(m, pages, i)
        } by {
            let k = i / 4096;
            assert(0 <= k < pages.len());
            assert(page_fits(pages[k], m.ram.len() as int));
            if !(offset + done + n <= i < offset + data.len()) {
                assert(content(after, pages, i) == content(next, pages, i));
                if k < at / 4096 {
                    assert(pages[k] != pages[at / 4096]);
                } else if k > at / 4096 {
                    assert(pages[at / 4096] != pages[k]);
                }
                let spot = pages[k] + i % 4096;
                if k == at / 4096 {
                    assert(spot - place == i - at);
                } else {
                    assert(spot < place || spot >= place + n);
                }
            }
        }
        assert forall|a: int| 0 <= a < m.ram.len() && outside(pages, a) implies #[trigger] after.ram[a]
            == m.ram[a] by {
            assert(after.ram[a] == next.ram[a]);
            assert(!(pages[at / 4096] <= a < pages[at / 4096] + 4096));
        }
    }
}

/// Whether an address is in none of the pages.
pub open spec fn outside(pages: Seq<u64>, address: int) -> bool {
    forall|i: int|
        0 <= i < pages.len() ==> !((#[trigger] pages[i]) <= address < pages[i] + 4096)
}

/// What was written to a file is what a read of the same place gives back, and
/// the rest of memory is as it was.
pub proof fn law_write_then_read(m: MachineView, pages: Seq<u64>, offset: int, data: Seq<u8>, buffer: Seq<u8>)
    requires
        0 <= offset,
        all_fit(pages, m.ram.len() as int),
        all_reachable(m, pages),
        distinct(pages),
        pages_for(offset + data.len()) <= pages.len(),
        buffer.len() == data.len(),
    ensures
        ({
            let (after, ok) = pages_written(m, pages, offset, data, 0);
            &&& ok
            &&& pages_read(after, pages, offset, buffer, 0, data.len() as int) == (data, true)
            &&& forall|a: int|
                0 <= a < m.ram.len() && outside(pages, a) ==> #[trigger] after.ram[a] == m.ram[a]
        }),
{
    lemma_written(m, pages, offset, data, 0);
    let (after, ok) = pages_written(m, pages, offset, data, 0);
    assert forall|i: int| 0 <= i < pages.len() implies after.virt(#[trigger] pages[i]) is Some by {
        assert(m.virt(pages[i]) is Some);
    }
    lemma_read(after, pages, offset, buffer, 0, data.len() as int);
    let (filled, _) = pages_read(after, pages, offset, buffer, 0, data.len() as int);
    assert forall|j: int| 0 <= j < data.len() implies filled[j] == data[j] by {
        assert(filled[j] == content(after, pages, offset + j));
    }
    assert(filled =~= data);
}

/// Whether every page is the only use of a frame.
pub open spec fn all_held(v: BuddyView, pages: Seq<u64>) -> bool {
    forall|i: int|
        0 <= i < pages.len() ==> {
            &&& (#[trigger] pages[i]) % 4096 == 0
            &&& pages[i] / 4096 < v.frames.len()
            &&& v.frames[pages[i] as int / 4096].allocated
        }
}

/// A file that grows gets pages that are distinct from those it has, and from
/// those of every other file.
pub proof fn law_growth_takes_unused(m: MachineView, pages: Seq<u64>, others: Seq<u64>, needed: int)
    requires
        m.frames.valid(),
        m.frames.frames.len() * 4096 <= u64::MAX,
        all_held(m.frames, pages),
        all_held(m.frames, others),
        distinct(pages),
        forall|i: int, j: int|
            0 <= i < pages.len() && 0 <= j < others.len() ==> #[trigger] pages[i]
                != #[trigger] others[j],
    ensures
        ({
            let (after, more, _) = grown(m, pages, needed);
            &&& all_held(after.frames, more)
            &&& all_held(after.frames, others)
            &&& distinct(more)
            &&& forall|i: int, j: int|
                0 <= i < more.len() && 0 <= j < others.len() ==> #[trigger] more[i]
                    != #[trigger] others[j]
        }),
    decreases needed - pages.len(),
{
    if pages.len() < needed {
        let v = m.frames;
        let (m1, r) = m.table_taken();
        if v.candidate(0) is Some {
            memory::law_handed_out_was_unused(v, 0);
            memory::lemma_handed_out_length(v, 0);
            reveal_with_fuel(memory::span, 1);
            let p = v.candidate(0)->0;
            let w = v.handed_out(0);
            let page = (p * 4096) as u64;
            assert(page == p * 4096 && page / 4096 == p);
            assert forall|i: int| 0 <= i < pages.len() implies {
                &&& w.frames[(#[trigger] pages[i]) as int / 4096].allocated
                &&& pages[i] != page
            } by {
                let q = pages[i] as int / 4096;
                assert(v.frames[q].allocated);
                memory::lemma_span_positive(v.frames[q].order);
            }
            assert forall|i: int| 0 <= i < others.len() implies {
                &&& w.frames[(#[trigger] others[i]) as int / 4096].allocated
                &&& others[i] != page
            } by {
                let q = others[i] as int / 4096;
                assert(v.frames[q].allocated);
            }
            assert(m1.frames == w);
            if r is Ok {
                law_growth_takes_unused(m1, pages.push(page), others, needed);
            }
        }
    }
}

/// A node that was added is found under its name, and every other name of the
/// directory leads where it led.
pub proof fn law_added_is_found(
    fs: TmpFsView,
    parent: u64,
    name: Seq<u8>,
    mode: u32,
    nlink: u32,
    kind: TmpKindView,
)
    requires
        fs.next_ino < u64::MAX,
        parent != fs.next_ino,
        name.len() > 0,
        name != crate::text::utf8("."@),
        name != crate::text::utf8(".."@),
    ensures
        ({
            let (after, r) = added(fs, parent, name, mode, nlink, kind);
            &&& r is Ok ==> looked_up(after, parent, name) == r
            &&& r is Ok ==> forall|other: Seq<u8>|
                other != name ==> #[trigger] looked_up(after, parent, other) == looked_up(
                    fs,
                    parent,
                    other,
                )
            &&& r is Err ==> after == fs
        }),
{
}

} // verus!
