//! What holds of files and names in memory over several calls.
use vstd::prelude::*;

use crate::paging::MachineView;
use crate::tmpfs::{self, TmpFsView, TmpKindView, TmpNodeView};
use crate::vfs::VfsError;

verus! {

/// Whether the pages of a file are memory of its own.
pub open spec fn is_memory(m: MachineView, pages: Seq<u64>) -> bool {
    &&& tmpfs::all_fit(pages, m.ram.len() as int)
    &&& tmpfs::all_reachable(m, pages)
    &&& tmpfs::distinct(pages)
}

/// What was written to a file is read at the same place; what was elsewhere in
/// it stays; it is as long as it was, or up to the end of what was written. No
/// other node changes.
pub proof fn law_file_write_then_read(
    fs: TmpFsView,
    m: MachineView,
    ino: u64,
    offset: u64,
    data: Seq<u8>,
    buffer: Seq<u8>,
)
    requires
        fs.file(ino) is Ok,
        offset + data.len() <= u64::MAX,
        data.len() <= usize::MAX,
        buffer.len() == data.len(),
        ({
            let pages = fs.file(ino)->Ok_0.0;
            let (m1, more, enough) = tmpfs::grown(m, pages, (offset + data.len() + 4095) / 4096);
            enough && is_memory(m1, more)
        }),
    ensures
        ({
            let (pages, size) = fs.file(ino)->Ok_0;
            let (m1, more, _) = tmpfs::grown(m, pages, (offset + data.len() + 4095) / 4096);
            let (after, m2, r) = tmpfs::file_written(fs, m, ino, offset, data);
            &&& r == Ok::<usize, VfsError>(data.len() as usize)
            &&& tmpfs::file_read(after, m2, ino, offset, buffer) == (
                data,
                Ok::<usize, VfsError>(data.len() as usize),
            )
            &&& after.file(ino) == Ok::<(Seq<u64>, u64), VfsError>(
                (
                    more,
                    if offset + data.len() > size {
                        (offset + data.len()) as u64
                    } else {
                        size
                    },
                ),
            )
            &&& forall|at: int|
                0 <= at < more.len() * 4096 && !(offset <= at < offset + data.len())
                    ==> #[trigger] tmpfs::content(m2, more, at) == tmpfs::content(m1, more, at)
            &&& forall|other: u64|
                other != ino ==> #[trigger] after.nodes[other] == fs.nodes[other]
            &&& after.nodes.dom() == fs.nodes.dom()
        }),
{
    let (pages, size) = fs.file(ino)->Ok_0;
    let end = offset + data.len();
    let (m1, more, _) = tmpfs::grown(m, pages, tmpfs::pages_for(end));
    lemma_grown_enough(m, pages, tmpfs::pages_for(end));
    tmpfs::law_write_then_read(m1, more, offset as int, data, buffer);
    tmpfs::lemma_written(m1, more, offset as int, data, 0);
    let (after, m2, r) = tmpfs::file_written(fs, m, ino, offset, data);
    assert(after.nodes.dom() =~= fs.nodes.dom());
}

proof fn lemma_grown_enough(m: MachineView, pages: Seq<u64>, needed: int)
    ensures
        ({
            let (_, more, enough) = tmpfs::grown(m, pages, needed);
            &&& pages.is_prefix_of(more)
            &&& enough ==> more.len() >= needed
        }),
    decreases needed - pages.len(),
{
    assert(pages.is_prefix_of(pages)) by {
        assert(pages.subrange(0, pages.len() as int) =~= pages);
    }
    if pages.len() < needed {
        let (m1, r) = m.table_taken();
        if let Ok(page) = r {
            lemma_grown_enough(m1, pages.push(page), needed);
            let more = tmpfs::grown(m, pages, needed).1;
            assert(more.subrange(0, pages.len() as int) =~= pages) by {
                assert(pages.push(page) =~= more.subrange(0, pages.len() as int + 1));
                assert forall|i: int| 0 <= i < pages.len() implies #[trigger] more[i] == pages[i] by {
                    assert(more.subrange(0, pages.len() as int + 1)[i] == pages.push(page)[i]);
                }
            }
        }
    }
}

/// A read gives no more than is left of a file from its place on, and past its
/// end nothing.
pub proof fn law_read_up_to_end(
    fs: TmpFsView,
    m: MachineView,
    ino: u64,
    offset: u64,
    buffer: Seq<u8>,
)
    requires
        fs.file(ino) is Ok,
        is_memory(m, fs.file(ino)->Ok_0.0),
        fs.file(ino)->Ok_0.1 <= fs.file(ino)->Ok_0.0.len() * 4096,
        buffer.len() <= usize::MAX,
    ensures
        ({
            let (pages, size) = fs.file(ino)->Ok_0;
            let (filled, r) = tmpfs::file_read(fs, m, ino, offset, buffer);
            &&& r matches Ok(n)
            &&& n == (if offset >= size {
                0
            } else if size - offset <= buffer.len() {
                size - offset
            } else {
                buffer.len() as int
            })
            &&& filled.len() == buffer.len()
            &&& forall|j: int|
                0 <= j < n ==> #[trigger] filled[j] == tmpfs::content(m, pages, offset + j)
            &&& forall|j: int| n <= j < buffer.len() ==> #[trigger] filled[j] == buffer[j]
        }),
{
    let (pages, size) = fs.file(ino)->Ok_0;
    let total = tmpfs::bytes_left(size, offset, buffer.len());
    if total > 0 {
        tmpfs::lemma_read(m, pages, offset as int, buffer, 0, total);
    }
}

/// A file that was cut has the size that was asked for; what is before its new
/// end stays, and its pages behind that are given back.
pub proof fn law_cut_keeps_start(fs: TmpFsView, m: MachineView, ino: u64, size: u64, at: int)
    requires
        fs.file(ino) is Ok,
        0 <= at < size,
        at / 4096 < fs.file(ino)->Ok_0.0.len(),
    ensures
        ({
            let pages = fs.file(ino)->Ok_0.0;
            let (after, m1, r) = tmpfs::truncated(fs, m, ino, size);
            &&& r is Ok
            &&& after.file(ino) matches Ok((left, n))
            &&& n == size
            &&& left.len() <= pages.len()
            &&& left.len() <= (size + 4095) / 4096 || left.len() == pages.len()
            &&& tmpfs::content(m1, left, at) == tmpfs::content(m, pages, at)
            &&& forall|other: u64|
                other != ino ==> #[trigger] after.nodes[other] == fs.nodes[other]
        }),
{
}

/// Whether a name is one that stands for a node, not for the directory.
pub open spec fn is_proper(name: Seq<u8>) -> bool {
    &&& name.len() > 0
    &&& name != crate::text::utf8("."@)
    &&& name != crate::text::utf8(".."@)
}

/// A name that was removed leads nowhere; all other names lead where they led.
/// The node is gone if that was its last name and nobody uses it; otherwise it
/// is as it was, with one name less.
pub proof fn law_removed_is_gone(
    fs: TmpFsView,
    m: MachineView,
    parent: u64,
    name: Seq<u8>,
    directory: bool,
    target: u64,
)
    requires
        is_proper(name),
        tmpfs::looked_up(fs, parent, name) == Ok::<u64, VfsError>(target),
        target != parent,
        tmpfs::removed(fs, m, parent, name, directory).2 is Ok,
    ensures
        ({
            let after = tmpfs::removed(fs, m, parent, name, directory).0;
            let node = fs.nodes[target];
            &&& tmpfs::looked_up(after, parent, name) == Err::<u64, VfsError>(VfsError::NotFound)
            &&& forall|other: Seq<u8>|
                other != name ==> #[trigger] tmpfs::looked_up(after, parent, other)
                    == tmpfs::looked_up(fs, parent, other)
            &&& after.has(target) <==> node.nlink > 1 || node.open_count > 0
            &&& after.has(target) ==> after.nodes[target].kind == node.kind
                && after.nodes[target].open_count == node.open_count && (node.nlink > 0
                ==> after.nodes[target].nlink == node.nlink - 1)
            &&& forall|other: u64|
                other != parent && other != target ==> #[trigger] after.nodes[other]
                    == fs.nodes[other]
        }),
{
}

/// A directory is removed only as such, and only when nothing is in it; what is
/// not a directory, only as such. What cannot be removed stays.
pub proof fn law_removal_refused(
    fs: TmpFsView,
    m: MachineView,
    parent: u64,
    name: Seq<u8>,
    target: u64,
)
    requires
        is_proper(name),
        tmpfs::looked_up(fs, parent, name) == Ok::<u64, VfsError>(target),
        fs.has(target),
    ensures
        ({
            let (a, _, as_file) = tmpfs::removed(fs, m, parent, name, false);
            let (b, _, as_directory) = tmpfs::removed(fs, m, parent, name, true);
            match fs.nodes[target].kind {
                TmpKindView::Directory { entries } => {
                    &&& as_file == Err::<(), VfsError>(VfsError::IsDirectory)
                    &&& a == fs
                    &&& entries == Map::<Seq<u8>, u64>::empty() <==> as_directory is Ok
                    &&& as_directory is Err ==> b == fs
                },
                _ => {
                    &&& as_file is Ok
                    &&& as_directory == Err::<(), VfsError>(VfsError::NotDirectory)
                    &&& b == fs
                },
            }
        }),
{
}

/// A file that is in use when its last name is removed can still be read; it is
/// gone when it is let go.
pub proof fn law_used_until_let_go(
    fs: TmpFsView,
    m: MachineView,
    parent: u64,
    name: Seq<u8>,
    target: u64,
)
    requires
        is_proper(name),
        tmpfs::looked_up(fs, parent, name) == Ok::<u64, VfsError>(target),
        target != parent,
        fs.has(target),
        fs.file(target) is Ok,
        fs.nodes[target].nlink == 1,
        fs.nodes[target].open_count == 0,
    ensures
        ({
            let used = tmpfs::opened(fs, target);
            let (unnamed, m1, r) = tmpfs::removed(used, m, parent, name, false);
            let (after, _) = tmpfs::let_go(unnamed, m1, target);
            &&& r is Ok
            &&& unnamed.file(target) == fs.file(target)
            &&& m1 == m
            &&& tmpfs::looked_up(unnamed, parent, name) is Err
            &&& !after.has(target)
        }),
{
    let used = tmpfs::opened(fs, target);
    assert(used.entries(parent) == fs.entries(parent));
    law_removed_is_gone(used, m, parent, name, false, target);
}

/// A name that was moved leads to the same node from its new place, and no
/// longer from its old one; no other name changes where it leads.
pub proof fn law_renamed_is_found(
    fs: TmpFsView,
    old_parent: u64,
    old_name: Seq<u8>,
    new_parent: u64,
    new_name: Seq<u8>,
    target: u64,
)
    requires
        is_proper(old_name),
        is_proper(new_name),
        tmpfs::looked_up(fs, old_parent, old_name) == Ok::<u64, VfsError>(target),
        fs.entries(new_parent) is Ok,
    ensures
        ({
            let (after, r) = tmpfs::renamed(fs, old_parent, old_name, new_parent, new_name);
            &&& r is Ok
            &&& tmpfs::looked_up(after, new_parent, new_name) == Ok::<u64, VfsError>(target)
            &&& old_parent != new_parent || old_name != new_name ==> tmpfs::looked_up(
                after,
                old_parent,
                old_name,
            ) == Err::<u64, VfsError>(VfsError::NotFound)
            &&& forall|parent: u64, name: Seq<u8>|
                !(parent == old_parent && name == old_name) && !(parent == new_parent && name
                    == new_name) ==> #[trigger] tmpfs::looked_up(after, parent, name)
                    == tmpfs::looked_up(fs, parent, name)
            &&& target != old_parent && target != new_parent ==> after.nodes[target]
                == fs.nodes[target]
        }),
{
}

/// A node that is made is new: its number was not used, the next one gets
/// another, and it holds what it was made with. No other node changes but the
/// directory.
pub proof fn law_made_is_new(
    fs: TmpFsView,
    parent: u64,
    name: Seq<u8>,
    mode: u32,
    nlink: u32,
    kind: TmpKindView,
    ino: u64,
)
    requires
        fs.next_ino < u64::MAX,
        forall|i: u64| #[trigger] fs.has(i) ==> i < fs.next_ino,
        tmpfs::added(fs, parent, name, mode, nlink, kind).1 == Ok::<u64, VfsError>(ino),
    ensures
        ({
            let after = tmpfs::added(fs, parent, name, mode, nlink, kind).0;
            &&& !fs.has(ino)
            &&& after.has(ino)
            &&& after.nodes[ino].kind == kind
            &&& after.nodes[ino].mode == mode
            &&& after.nodes[ino].nlink == nlink
            &&& after.nodes[ino].open_count == 0
            &&& tmpfs::metadata(after.nodes[ino]).ino == ino
            &&& forall|i: u64| #[trigger] after.has(i) ==> i < after.next_ino
            &&& forall|i: u64|
                i != ino && i != parent && fs.has(i) ==> #[trigger] after.nodes[i] == fs.nodes[i]
        }),
{
    let after = tmpfs::added(fs, parent, name, mode, nlink, kind).0;
    assert(!fs.has(fs.next_ino));
    assert forall|i: u64| #[trigger] after.has(i) implies i < after.next_ino by {
        if i != ino {
            assert(fs.has(i));
        }
    }
}

/// What is told of a node is what it holds: the size of a file, the length of
/// the path that a link holds, and its access.
pub proof fn law_node_described(node: TmpNodeView)
    ensures
        ({
            let told = tmpfs::metadata(node);
            &&& told.mode == node.mode
            &&& told.uid == node.uid
            &&& told.gid == node.gid
            &&& match node.kind {
                TmpKindView::File { size, .. } => told.size == size,
                TmpKindView::Symlink { target } => target.len() <= u64::MAX ==> told.size
                    == target.len(),
                _ => true,
            }
        }),
{
}

} // verus!
