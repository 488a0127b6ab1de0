//! A cache of the pages of files in physical frames: reads and writes go
//! through it, and pages that were written go to disk later.
pub mod flushing;

use vstd::prelude::*;

use crate::bytes::{self, push_all, put_vec};
use crate::memory::{PAGE_SIZE, PhysFrame};
use crate::pagemap::{self, PageKey, PageMap};
use crate::paging::{self, Machine, MachineView};
use crate::vfs::VfsError;

verus! {

/// 64 MiB.
pub const PAGE_CACHE_MAX_PAGES: usize = 16_384;

#[derive(Clone, Copy, Debug, PartialEq, Eq, Structural)]
pub struct PageEntry {
    pub frame: PhysFrame,
    pub dirty: bool,
    pub valid_bytes: usize,
    pub lru_seq: u64,
}

pub struct PageCache {
    pub entries: PageMap<PageEntry>,
    pub file_sizes: PageMap<u64>,
    pub max_entries: usize,
    pub next_seq: u64,
    pub hits: u64,
    pub misses: u64,
}

#[verifier::ext_equal]
pub struct CacheView {
    pub entries: Map<PageKey, PageEntry>,
    pub file_sizes: Map<PageKey, u64>,
    pub max_entries: usize,
    pub next_seq: u64,
    pub hits: u64,
    pub misses: u64,
}

/// The key of a file as a whole.
pub open spec fn file_key(mount_id: usize, ino: u64) -> PageKey {
    PageKey { mount_id, ino, page_index: 0 }
}

impl PageCache {
    pub open spec fn view(&self) -> CacheView {
        CacheView {
            entries: self.entries@,
            file_sizes: self.file_sizes@,
            max_entries: self.max_entries,
            next_seq: self.next_seq,
            hits: self.hits,
            misses: self.misses,
        }
    }

    pub open spec fn wf(&self) -> bool {
        self.entries.wf() && self.file_sizes.wf()
    }

    pub fn new() -> (r: Self)
        ensures
            r.wf(),
            r@ == (CacheView {
                entries: Map::empty(),
                file_sizes: Map::empty(),
                max_entries: PAGE_CACHE_MAX_PAGES,
                next_seq: 1,
                hits: 0,
                misses: 0,
            }),
            r.entries.keys.len() == 0,
    {
        let r = PageCache {
            entries: PageMap::new(),
            file_sizes: PageMap::new(),
            max_entries: PAGE_CACHE_MAX_PAGES,
            next_seq: 1,
            hits: 0,
            misses: 0,
        };
        assert(r.entries.keys.len() == 0) by {
            if r.entries.keys.len() > 0 {
                pagemap::lemma_paired(r.entries.keys@, r.entries.values@, 0);
            }
        }
        r
    }

    /// Hits, misses, and pages held.
    pub fn stats(&self) -> (r: (u64, u64, usize))
        requires
            self.wf(),
        ensures
            r.0 == self.hits,
            r.1 == self.misses,
            r.2 == self.entries.keys.len(),
    {
        (self.hits, self.misses, self.entries.len())
    }

    pub fn get_file_size(&self, mount_id: usize, ino: u64) -> (r: Option<u64>)
        requires
            self.wf(),
        ensures
            r == self@.file_size(mount_id, ino),
    {
        match self.file_sizes.get(PageKey { mount_id, ino, page_index: 0 }) {
            Some(size) => Some(*size),
            None => None,
        }
    }

    pub fn set_file_size(&mut self, mount_id: usize, ino: u64, size: u64)
        requires
            old(self).wf(),
        ensures
            final(self).wf(),
            final(self)@ == old(self)@.with_size(mount_id, ino, size),
            final(self).entries == old(self).entries,
    {
        self.file_sizes.insert(PageKey { mount_id, ino, page_index: 0 }, size);
    }
}

impl CacheView {
    pub open spec fn file_size(self, mount_id: usize, ino: u64) -> Option<u64> {
        if self.file_sizes.dom().contains(file_key(mount_id, ino)) {
            Some(self.file_sizes[file_key(mount_id, ino)])
        } else {
            None
        }
    }

    pub open spec fn with_size(self, mount_id: usize, ino: u64, size: u64) -> CacheView {
        CacheView { file_sizes: self.file_sizes.insert(file_key(mount_id, ino), size), ..self }
    }

    /// The size of a file: as it is known here, else as it is on disk.
    pub open spec fn size_or(self, mount_id: usize, ino: u64, disk_size: u64) -> u64 {
        match self.file_size(mount_id, ino) {
            Some(size) => size,
            None => disk_size,
        }
    }

    pub open spec fn with_page(self, key: PageKey, entry: PageEntry) -> CacheView {
        CacheView { entries: self.entries.insert(key, entry), ..self }
    }
}

pub open spec fn one_later(n: u64) -> u64 {
    if n == u64::MAX {
        n
    } else {
        (n + 1) as u64
    }
}

/// A file on disk, as far as it is needed: its size, and what a read of its
/// pages gives, at most 4096 bytes each. A page that is not there cannot be
/// read.
pub struct DiskFile {
    pub size: u64,
    pub pages: crate::ordmap::OrdMap<Vec<u8>>,
}

impl DiskFile {
    pub open spec fn wf(&self) -> bool {
        &&& self.pages.wf()
        &&& forall|i: u64|
            #[trigger] self.pages@.dom().contains(i) ==> self.pages@[i].len() <= 4096
    }

    /// What a read of a page gives.
    pub open spec fn page(&self, index: u64) -> Seq<u8> {
        if self.pages@.dom().contains(index) {
            self.pages@[index]@
        } else {
            Seq::empty()
        }
    }
}

/// Bytes with zeros after them, to the length of a page.
pub open spec fn padded_page(bytes: Seq<u8>) -> Seq<u8> {
    bytes + bytes::zeros((4096 - bytes.len()) as nat)
}

/// A frame with the given contents; a frame outside the direct map is lost.
pub open spec fn frame_filled(m: MachineView, page: Seq<u8>) -> (
    MachineView,
    Result<u64, VfsError>,
) {
    match m.frame_taken() {
        None => (m, Err(VfsError::NoSpace)),
        Some((m1, phys)) => if m1.virt(phys) is None {
            (m1, Err(VfsError::RedoxFs))
        } else {
            (
                MachineView { ram: bytes::splice(m1.ram, phys as int, padded_page(page)), ..m1 },
                Ok(phys),
            )
        },
    }
}

fn fill_frame(machine: &mut Machine, page: &[u8]) -> (r: Result<u64, VfsError>)
    requires
        old(machine).wf(),
        page.len() <= 4096,
    ensures
        final(machine).wf(),
        final(machine).same_place(old(machine)),
        (final(machine)@, r) == frame_filled(old(machine)@, page@),
        r matches Ok(phys) ==> phys + 4096 <= final(machine).ram.len(),
{
    let phys: u64 = match paging::take_frame(machine) {
        None => {
            return Err(VfsError::NoSpace);
        },
        Some(p) => p,
    };
    if paging::phys_to_virt(machine, phys).is_none() {
        return Err(VfsError::RedoxFs);
    }
    let mut whole: Vec<u8> = Vec::new();
    push_all(&mut whole, page);
    crate::bytes::push_zeros(&mut whole, 4096 - page.len());
    assert(whole@ =~= padded_page(page@));
    put_vec(&mut machine.ram, phys as usize, whole.as_slice());
    Ok(phys)
}

/// How many bytes from a position on are in its page, at most `left`.
pub open spec fn chunk(position: int, left: int) -> int {
    if 4096 - position % 4096 < left {
        4096 - position % 4096
    } else {
        left
    }
}

/// The page of a key, looked up for reading. A page that is not held is
/// brought from disk.
#[verifier::opaque]
pub open spec fn looked_up(m: MachineView, c: CacheView, key: PageKey, disk_page: Seq<u8>) -> (
    MachineView,
    CacheView,
    Result<u64, VfsError>,
) {
    if c.entries.dom().contains(key) {
        let e = c.entries[key];
        (
            m,
            CacheView {
                hits: (c.hits + 1) as u64,
                ..c.with_page(key, PageEntry { lru_seq: one_later(e.lru_seq), ..e })
            },
            Ok(e.frame.0),
        )
    } else {
        let missed = CacheView { misses: (c.misses + 1) as u64, ..c };
        match frame_filled(m, disk_page) {
            (m1, Err(e)) => (m1, missed, Err(e)),
            (m1, Ok(phys)) => (
                m1,
                CacheView { next_seq: (c.next_seq + 1) as u64, ..missed }.with_page(
                    key,
                    PageEntry {
                        frame: PhysFrame(phys),
                        dirty: false,
                        valid_bytes: disk_page.len() as usize,
                        lru_seq: (c.next_seq + 1) as u64,
                    },
                ),
                Ok(phys),
            ),
        }
    }
}

/// The page of a key, looked up for writing `n` bytes at `offset` in it.
#[verifier::opaque]
pub open spec fn looked_up_to_write(
    m: MachineView,
    c: CacheView,
    key: PageKey,
    disk_page: Seq<u8>,
    end: int,
) -> (MachineView, CacheView, Result<u64, VfsError>) {
    if c.entries.dom().contains(key) {
        let e = c.entries[key];
        (
            m,
            CacheView {
                hits: (c.hits + 1) as u64,
                ..c.with_page(
                    key,
                    PageEntry {
                        dirty: true,
                        valid_bytes: if e.valid_bytes < end {
                            end as usize
                        } else {
                            e.valid_bytes
                        },
                        lru_seq: one_later(e.lru_seq),
                        ..e
                    },
                )
            },
            Ok(e.frame.0),
        )
    } else {
        let missed = CacheView { misses: (c.misses + 1) as u64, ..c };
        match frame_filled(m, disk_page) {
            (m1, Err(e)) => (m1, missed, Err(e)),
            (m1, Ok(phys)) => (
                m1,
                CacheView { next_seq: (c.next_seq + 1) as u64, ..missed }.with_page(
                    key,
                    PageEntry {
                        frame: PhysFrame(phys),
                        dirty: true,
                        valid_bytes: if disk_page.len() < end {
                            end as usize
                        } else {
                            disk_page.len() as usize
                        },
                        lru_seq: (c.next_seq + 1) as u64,
                    },
                ),
                Ok(phys),
            ),
        }
    }
}

/// The counters have room for `n` more.
pub open spec fn counters_fit(c: CacheView, n: int) -> bool {
    c.hits + n <= u64::MAX && c.misses + n <= u64::MAX && c.next_seq + n <= u64::MAX
}

fn look_up(machine: &mut Machine, cache: &mut PageCache, key: PageKey, disk_page: &[u8]) -> (r: Result<
    u64,
    VfsError,
>)
    requires
        old(machine).wf(),
        old(cache).wf(),
        counters_fit(old(cache)@, 1),
        disk_page.len() <= 4096,
    ensures
        final(machine).wf(),
        final(machine).same_place(old(machine)),
        final(cache).wf(),
        (final(machine)@, final(cache)@, r) == looked_up(
            old(machine)@,
            old(cache)@,
            key,
            disk_page@,
        ),
{
    proof {
        reveal(looked_up);
    }
    let found = match cache.entries.get(key) {
        Some(e) => Some(*e),
        None => None,
    };
    match found {
        Some(e) => {
            let lru_seq: u64 = if e.lru_seq == u64::MAX {
                e.lru_seq
            } else {
                e.lru_seq + 1
            };
            cache.entries.insert(key, PageEntry { lru_seq, ..e });
            cache.hits = cache.hits + 1;
            Ok(e.frame.0)
        },
        None => {
            cache.misses = cache.misses + 1;
            match fill_frame(machine, disk_page) {
                Err(e) => Err(e),
                Ok(phys) => {
                    cache.next_seq = cache.next_seq + 1;
                    let entry = PageEntry {
                        frame: PhysFrame(phys),
                        dirty: false,
                        valid_bytes: disk_page.len(),
                        lru_seq: cache.next_seq,
                    };
                    cache.entries.insert(key, entry);
                    Ok(phys)
                },
            }
        },
    }
}

fn look_up_to_write(
    machine: &mut Machine,
    cache: &mut PageCache,
    key: PageKey,
    disk_page: &[u8],
    end: usize,
) -> (r: Result<u64, VfsError>)
    requires
        old(machine).wf(),
        old(cache).wf(),
        counters_fit(old(cache)@, 1),
        disk_page.len() <= 4096,
    ensures
        final(machine).wf(),
        final(machine).same_place(old(machine)),
        final(cache).wf(),
        (final(machine)@, final(cache)@, r) == looked_up_to_write(
            old(machine)@,
            old(cache)@,
            key,
            disk_page@,
            end as int,
        ),
{
    proof {
        reveal(looked_up_to_write);
    }
    let found = match cache.entries.get(key) {
        Some(e) => Some(*e),
        None => None,
    };
    match found {
        Some(e) => {
            let lru_seq: u64 = if e.lru_seq == u64::MAX {
                e.lru_seq
            } else {
                e.lru_seq + 1
            };
            let valid_bytes: usize = if e.valid_bytes < end {
                end
            } else {
                e.valid_bytes
            };
            cache.entries.insert(key, PageEntry { dirty: true, valid_bytes, lru_seq, ..e });
            cache.hits = cache.hits + 1;
            Ok(e.frame.0)
        },
        None => {
            cache.misses = cache.misses + 1;
            match fill_frame(machine, disk_page) {
                Err(e) => Err(e),
                Ok(phys) => {
                    cache.next_seq = cache.next_seq + 1;
                    let valid_bytes: usize = if disk_page.len() < end {
                        end
                    } else {
                        disk_page.len()
                    };
                    let entry = PageEntry {
                        frame: PhysFrame(phys),
                        dirty: true,
                        valid_bytes,
                        lru_seq: cache.next_seq,
                    };
                    cache.entries.insert(key, entry);
                    Ok(phys)
                },
            }
        },
    }
}

proof fn lemma_look_up_counts(m: MachineView, c: CacheView, key: PageKey, page: Seq<u8>, n: int)
    requires
        counters_fit(c, n),
        n >= 1,
    ensures
        counters_fit(looked_up(m, c, key, page).1, n - 1),
        looked_up(m, c, key, page).1.file_sizes == c.file_sizes,
{
    reveal(looked_up);
}

proof fn lemma_look_up_to_write_counts(
    m: MachineView,
    c: CacheView,
    key: PageKey,
    page: Seq<u8>,
    end: int,
    n: int,
)
    requires
        counters_fit(c, n),
        n >= 1,
    ensures
        counters_fit(looked_up_to_write(m, c, key, page, end).1, n - 1),
        looked_up_to_write(m, c, key, page, end).1.file_sizes == c.file_sizes,
{
    reveal(looked_up_to_write);
}

/// A frame can be reached through the direct map.
pub open spec fn in_sight(m: MachineView, phys: u64) -> bool {
    m.virt(phys) is Some && phys + 4096 <= m.ram.len()
}

fn sees(machine: &Machine, phys: u64) -> (r: bool)
    ensures
        r == in_sight(machine@, phys),
{
    let length: u64 = machine.ram.len() as u64;
    paging::phys_to_virt(machine, phys).is_some() && length >= PAGE_SIZE && phys <= length
        - PAGE_SIZE
}

/// `left` bytes of a file from a position on, page by page, after those in
/// `got`.
pub open spec fn read_on(
    m: MachineView,
    c: CacheView,
    mount_id: usize,
    ino: u64,
    disk: &DiskFile,
    position: int,
    left: int,
    got: Seq<u8>,
) -> (MachineView, CacheView, Result<Seq<u8>, VfsError>)
    decreases left,
{
    if left <= 0 {
        (m, c, Ok(got))
    } else {
        let page_index = (position / 4096) as u64;
        let n = chunk(position, left);
        match looked_up(
            m,
            c,
            PageKey { mount_id, ino, page_index },
            disk.page(page_index),
        ) {
            (m1, c1, Err(e)) => (m1, c1, Err(e)),
            (m1, c1, Ok(phys)) => if !in_sight(m1, phys) {
                (m1, c1, Err(VfsError::RedoxFs))
            } else {
                let at = phys + position % 4096;
                read_on(
                    m1,
                    c1,
                    mount_id,
                    ino,
                    disk,
                    position + n,
                    left - n,
                    got + m1.ram.subrange(at, at + n),
                )
            },
        }
    }
}

/// How many of `len` bytes at `offset` a file of `size` bytes has.
pub open spec fn available(size: u64, offset: u64, len: int) -> int {
    if offset >= size {
        0
    } else if size - offset < len {
        size - offset
    } else {
        len
    }
}

fn disk_page<'a>(disk: &'a DiskFile, index: u64, none: &'a Vec<u8>) -> (r: &'a [u8])
    requires
        disk.wf(),
        none@.len() == 0,
    ensures
        r@ == disk.page(index),
        r.len() <= 4096,
{
    match disk.pages.get(index) {
        Some(page) => page.as_slice(),
        None => {
            assert(none@ =~= Seq::<u8>::empty());
            none.as_slice()
        },
    }
}

/// Reads from a file: at most `len` bytes at `offset`, up to its end.
pub fn read(
    machine: &mut Machine,
    cache: &mut PageCache,
    mount_id: usize,
    disk: &DiskFile,
    ino: u64,
    offset: u64,
    len: usize,
) -> (r: Result<Vec<u8>, VfsError>)
    requires
        old(machine).wf(),
        old(cache).wf(),
        disk.wf(),
        counters_fit(old(cache)@, len as int),
    ensures
        final(machine).wf(),
        final(machine).same_place(old(machine)),
        final(cache).wf(),
        ({
            let size = old(cache)@.size_or(mount_id, ino, disk.size);
            let (m, c, got) = read_on(
                old(machine)@,
                old(cache)@,
                mount_id,
                ino,
                disk,
                offset as int,
                available(size, offset, len as int),
                Seq::empty(),
            );
            &&& final(machine)@ == m
            &&& final(cache)@ == c
            &&& match r {
                Ok(bytes) => got == Ok::<Seq<u8>, VfsError>(bytes@),
                Err(e) => got == Err::<Seq<u8>, VfsError>(e),
            }
        }),
{
    let size: u64 = match cache.get_file_size(mount_id, ino) {
        Some(size) => size,
        None => disk.size,
    };
    let total: usize = if offset >= size {
        0
    } else if size - offset < len as u64 {
        (size - offset) as usize
    } else {
        len
    };
    let mut got: Vec<u8> = Vec::new();
    let none: Vec<u8> = Vec::new();
    let ghost goal = read_on(
        machine@,
        cache@,
        mount_id,
        ino,
        disk,
        offset as int,
        total as int,
        Seq::empty(),
    );
    assert(got@ =~= Seq::<u8>::empty());
    let mut copied: usize = 0;
    while copied < total
        invariant
            copied <= total <= len,
            total > 0 ==> offset + total <= size,
            machine.wf(),
            machine.same_place(old(machine)),
            cache.wf(),
            disk.wf(),
            none@.len() == 0,
            counters_fit(cache@, total - copied),
            total == available(
                old(cache)@.size_or(mount_id, ino, disk.size),
                offset,
                len as int,
            ),
            goal == read_on(
                old(machine)@,
                old(cache)@,
                mount_id,
                ino,
                disk,
                offset as int,
                total as int,
                Seq::empty(),
            ),
            goal == read_on(
                machine@,
                cache@,
                mount_id,
                ino,
                disk,
                offset + copied,
                total - copied,
                got@,
            ),
        decreases total - copied,
    {
        let position: u64 = offset + copied as u64;
        let page_index: u64 = position / PAGE_SIZE;
        let in_page: usize = (position % PAGE_SIZE) as usize;
        let left: usize = total - copied;
        let n: usize = if 4096 - in_page < left {
            4096 - in_page
        } else {
            left
        };
        assert(n == chunk(position as int, left as int));
        let key = PageKey { mount_id, ino, page_index };
        let page = disk_page(disk, page_index, &none);
        proof {
            lemma_look_up_counts(machine@, cache@, key, page@, left as int);
        }
        let phys: u64 = match look_up(machine, cache, key, page) {
            Err(e) => {
                return Err(e);
            },
            Ok(phys) => phys,
        };
        if !sees(machine, phys) {
            return Err(VfsError::RedoxFs);
        }
        let at: usize = phys as usize + in_page;
        let part = vstd::slice::slice_subrange(machine.ram.as_slice(), at, at + n);
        push_all(&mut got, part);
        copied += n;
    }
    Ok(got)
}

/// Bytes written to a file from a position on, page by page.
pub open spec fn write_on(
    m: MachineView,
    c: CacheView,
    mount_id: usize,
    ino: u64,
    disk: &DiskFile,
    initial_size: u64,
    position: int,
    bytes: Seq<u8>,
) -> (MachineView, CacheView, Result<(), VfsError>)
    decreases bytes.len(),
{
    if bytes.len() == 0 {
        (m, c, Ok(()))
    } else {
        let page_index = (position / 4096) as u64;
        let n = chunk(position, bytes.len() as int);
        let page = page_before_write(disk, initial_size, page_index, n);
        match looked_up_to_write(
            m,
            c,
            PageKey { mount_id, ino, page_index },
            page,
            position % 4096 + n,
        ) {
            (m1, c1, Err(e)) => (m1, c1, Err(e)),
            (m1, c1, Ok(phys)) => if !in_sight(m1, phys) {
                (m1, c1, Err(VfsError::RedoxFs))
            } else {
                write_on(
                    MachineView {
                        ram: bytes::splice(m1.ram, phys + position % 4096, bytes.take(n)),
                        ..m1
                    },
                    c1,
                    mount_id,
                    ino,
                    disk,
                    initial_size,
                    position + n,
                    bytes.skip(n),
                )
            },
        }
    }
}

/// What a page that is not held has before `n` bytes are written to it: what
/// is on disk, unless the page is written whole or lies past the end.
pub open spec fn page_before_write(disk: &DiskFile, initial_size: u64, index: u64, n: int) -> Seq<u8> {
    if n < 4096 && index * 4096 < initial_size {
        disk.page(index)
    } else {
        Seq::empty()
    }
}

/// Writes to a file at `offset`; its size grows as needed.
pub fn write(
    machine: &mut Machine,
    cache: &mut PageCache,
    mount_id: usize,
    disk: &DiskFile,
    ino: u64,
    offset: u64,
    buf: &[u8],
) -> (r: Result<usize, VfsError>)
    requires
        old(machine).wf(),
        old(cache).wf(),
        disk.wf(),
        counters_fit(old(cache)@, buf.len() as int),
        offset + buf.len() <= u64::MAX,
    ensures
        final(machine).wf(),
        final(machine).same_place(old(machine)),
        final(cache).wf(),
        ({
            let size = old(cache)@.size_or(mount_id, ino, disk.size);
            let (m, c, done) = write_on(
                old(machine)@,
                old(cache)@,
                mount_id,
                ino,
                disk,
                size,
                offset as int,
                buf@,
            );
            &&& final(machine)@ == m
            &&& match done {
                Err(e) => r == Err::<usize, VfsError>(e) && final(cache)@ == c,
                Ok(_) => r == Ok::<usize, VfsError>(buf.len()) && final(cache)@ == if buf.len()
                    == 0 {
                    c
                } else {
                    c.with_size(
                        mount_id,
                        ino,
                        if size < offset + buf.len() {
                            (offset + buf.len()) as u64
                        } else {
                            size
                        },
                    )
                },
            }
        }),
{
    if buf.len() == 0 {
        return Ok(0);
    }
    let size: u64 = match cache.get_file_size(mount_id, ino) {
        Some(size) => size,
        None => disk.size,
    };
    let end: u64 = offset + buf.len() as u64;
    let new_size: u64 = if size < end {
        end
    } else {
        size
    };
    let none: Vec<u8> = Vec::new();
    let ghost goal = write_on(
        machine@,
        cache@,
        mount_id,
        ino,
        disk,
        size,
        offset as int,
        buf@,
    );
    let mut written: usize = 0;
    assert(buf@.skip(0) =~= buf@);
    while written < buf.len()
        invariant
            written <= buf.len(),
            machine.wf(),
            machine.same_place(old(machine)),
            cache.wf(),
            disk.wf(),
            none@.len() == 0,
            counters_fit(cache@, buf.len() - written),
            offset + buf.len() <= u64::MAX,
            size == old(cache)@.size_or(mount_id, ino, disk.size),
            goal == write_on(
                old(machine)@,
                old(cache)@,
                mount_id,
                ino,
                disk,
                size,
                offset as int,
                buf@,
            ),
            goal == write_on(
                machine@,
                cache@,
                mount_id,
                ino,
                disk,
                size,
                offset + written,
                buf@.skip(written as int),
            ),
        decreases buf.len() - written,
    {
        let position: u64 = offset + written as u64;
        let page_index: u64 = position / PAGE_SIZE;
        let in_page: usize = (position % PAGE_SIZE) as usize;
        let left: usize = buf.len() - written;
        let n: usize = if 4096 - in_page < left {
            4096 - in_page
        } else {
            left
        };
        let ghost rest = buf@.skip(written as int);
        assert(n == chunk(position as int, rest.len() as int));
        let key = PageKey { mount_id, ino, page_index };
        let page: &[u8] = if n < 4096 && page_index * PAGE_SIZE < size {
            disk_page(disk, page_index, &none)
        } else {
            none.as_slice()
        };
        proof {
            assert(none@ =~= Seq::<u8>::empty());
            lemma_look_up_to_write_counts(
                machine@,
                cache@,
                key,
                page@,
                in_page + n,
                left as int,
            );
        }
        let phys: u64 = match look_up_to_write(machine, cache, key, page, in_page + n) {
            Err(e) => {
                return Err(e);
            },
            Ok(phys) => phys,
        };
        if !sees(machine, phys) {
            return Err(VfsError::RedoxFs);
        }
        let part = vstd::slice::slice_subrange(buf, written, written + n);
        proof {
            assert(part@ =~= rest.take(n as int));
            assert(rest.skip(n as int) =~= buf@.skip(written + n));
        }
        put_vec(&mut machine.ram, phys as usize + in_page, part);
        written += n;
    }
    cache.set_file_size(mount_id, ino, new_size);
    Ok(written)
}

/// The frame of a page of a file, for mapping it.
pub fn get_or_fetch_frame(
    machine: &mut Machine,
    cache: &mut PageCache,
    mount_id: usize,
    disk: &DiskFile,
    ino: u64,
    file_size: u64,
    page_index: u64,
) -> (r: Result<PhysFrame, ()>)
    requires
        old(machine).wf(),
        old(cache).wf(),
        disk.wf(),
        counters_fit(old(cache)@, 1),
        page_index * 4096 <= u64::MAX,
    ensures
        final(machine).wf(),
        final(machine).same_place(old(machine)),
        final(cache).wf(),
        ({
            let page = if page_index * 4096 < file_size {
                disk.page(page_index)
            } else {
                Seq::empty()
            };
            let (m, c, phys) = looked_up(
                old(machine)@,
                old(cache)@,
                PageKey { mount_id, ino, page_index },
                page,
            );
            &&& final(machine)@ == m
            &&& final(cache)@ == c
            &&& match phys {
                Ok(phys) => r == Ok::<PhysFrame, ()>(PhysFrame(phys)),
                Err(_) => r is Err,
            }
        }),
{
    let none: Vec<u8> = Vec::new();
    let page: &[u8] = if page_index * PAGE_SIZE < file_size {
        disk_page(disk, page_index, &none)
    } else {
        none.as_slice()
    };
    assert(none@ =~= Seq::<u8>::empty());
    match look_up(machine, cache, PageKey { mount_id, ino, page_index }, page) {
        Ok(phys) => Ok(PhysFrame(phys)),
        Err(_) => Err(()),
    }
}

impl CacheView {
    /// A page that is held marked as written, or as no longer so.
    pub open spec fn marked(self, key: PageKey, dirty: bool) -> CacheView {
        if self.entries.dom().contains(key) {
            self.with_page(key, PageEntry { dirty, ..self.entries[key] })
        } else {
            self
        }
    }
}

fn mark(cache: &mut PageCache, key: PageKey, dirty: bool)
    requires
        old(cache).wf(),
    ensures
        final(cache).wf(),
        final(cache)@ == old(cache)@.marked(key, dirty),
{
    let found = match cache.entries.get(key) {
        Some(e) => Some(*e),
        None => None,
    };
    if let Some(e) = found {
        cache.entries.insert(key, PageEntry { dirty, ..e });
    }
}

pub fn mark_dirty(cache: &mut PageCache, mount_id: usize, ino: u64, page_index: u64)
    requires
        old(cache).wf(),
    ensures
        final(cache).wf(),
        final(cache)@ == old(cache)@.marked(PageKey { mount_id, ino, page_index }, true),
{
    mark(cache, PageKey { mount_id, ino, page_index }, true);
}

// ---------------------------------------------------------------------------
// Writing back
// ---------------------------------------------------------------------------
/// The pages of a file that were written, in order, from place `i` on.
pub open spec fn dirty_from(
    keys: Seq<PageKey>,
    entries: Seq<PageEntry>,
    mount_id: usize,
    ino: u64,
    i: int,
) -> Seq<(u64, PhysFrame)>
    decreases keys.len() - i,
{
    if i < 0 || i >= keys.len() {
        Seq::empty()
    } else if keys[i].mount_id == mount_id && keys[i].ino == ino && entries[i].dirty {
        seq![(keys[i].page_index, entries[i].frame)] + dirty_from(
            keys,
            entries,
            mount_id,
            ino,
            i + 1,
        )
    } else {
        dirty_from(keys, entries, mount_id, ino, i + 1)
    }
}

/// The pages of a file that were written, in order.
pub fn dirty_pages(cache: &PageCache, mount_id: usize, ino: u64) -> (r: Vec<(u64, PhysFrame)>)
    requires
        cache.wf(),
    ensures
        r@ == dirty_from(cache.entries.keys@, cache.entries.values@, mount_id, ino, 0),
{
    let mut pages: Vec<(u64, PhysFrame)> = Vec::new();
    let mut i: usize = 0;
    let ghost keys = cache.entries.keys@;
    let ghost entries = cache.entries.values@;
    assert(pages@ + dirty_from(keys, entries, mount_id, ino, 0) =~= dirty_from(
        keys,
        entries,
        mount_id,
        ino,
        0,
    ));
    while i < cache.entries.keys.len()
        invariant
            cache.wf(),
            i <= cache.entries.keys.len(),
            keys == cache.entries.keys@,
            entries == cache.entries.values@,
            pages@ + dirty_from(keys, entries, mount_id, ino, i as int) == dirty_from(
                keys,
                entries,
                mount_id,
                ino,
                0,
            ),
        decreases cache.entries.keys.len() - i,
    {
        let key = cache.entries.keys[i];
        let entry = cache.entries.values[i];
        let ghost had = pages@;
        if key.mount_id == mount_id && key.ino == ino && entry.dirty {
            pages.push((key.page_index, entry.frame));
            assert(pages@ + dirty_from(keys, entries, mount_id, ino, i + 1) =~= had + dirty_from(
                keys,
                entries,
                mount_id,
                ino,
                i as int,
            ));
        }
        i += 1;
    }
    assert(pages@ + Seq::<(u64, PhysFrame)>::empty() =~= pages@);
    pages
}

/// How many pages from place `i` on follow one another, up to 16.
pub open spec fn run_length(pages: Seq<(u64, PhysFrame)>, i: int, n: int) -> int
    decreases 16 - n,
{
    if n >= 16 || i + n >= pages.len() || pages[i + n].0 != pages[i].0 + n {
        n
    } else {
        run_length(pages, i, n + 1)
    }
}

/// The contents of `n` pages from place `i` on, if all can be reached.
pub open spec fn run_bytes(m: MachineView, pages: Seq<(u64, PhysFrame)>, i: int, n: int) -> Option<
    Seq<u8>,
>
    decreases n,
{
    if n <= 0 {
        Some(Seq::empty())
    } else {
        let phys = pages[i + n - 1].1.0;
        match run_bytes(m, pages, i, n - 1) {
            None => None,
            Some(before) => if in_sight(m, phys) {
                Some(before + m.ram.subrange(phys as int, phys + 4096))
            } else {
                None
            },
        }
    }
}

/// Pages that follow one another, to be written in one go.
pub struct Batch {
    pub start_page: u64,
    pub count: usize,
    pub data: Vec<u8>,
}

/// The next pages to write, from place `index` on.
pub fn next_batch(machine: &Machine, pages: &Vec<(u64, PhysFrame)>, index: usize) -> (r: Result<
    Batch,
    VfsError,
>)
    requires
        index < pages.len(),
    ensures
        ({
            let n = run_length(pages@, index as int, 0);
            match r {
                Ok(batch) => batch.start_page == pages@[index as int].0 && batch.count == n && n >= 1
                    && run_bytes(machine@, pages@, index as int, n) == Some(batch.data@),
                Err(e) => e == VfsError::RedoxFs && run_bytes(
                    machine@,
                    pages@,
                    index as int,
                    n,
                ) is None,
            }
        }),
{
    let start_page: u64 = pages[index].0;
    let mut count: usize = 0;
    let mut data: Vec<u8> = Vec::new();
    let ghost n = run_length(pages@, index as int, 0);
    assert(data@ =~= Seq::<u8>::empty());
    while count < 16 && count < pages.len() - index && pages[index + count].0 >= start_page
        && pages[index + count].0 - start_page == count as u64
        invariant
            index < pages.len(),
            count <= 16,
            count <= pages.len() - index,
            start_page == pages@[index as int].0,
            n == run_length(pages@, index as int, 0),
            n == run_length(pages@, index as int, count as int),
            run_bytes(machine@, pages@, index as int, count as int) == Some(data@),
            data.len() == count * 4096,
        decreases 16 - count,
    {
        let phys: u64 = pages[index + count].1.0;
        if !sees(machine, phys) {
            proof {
                lemma_run_lost(machine@, pages@, index as int, count + 1, n);
            }
            return Err(VfsError::RedoxFs);
        }
        assert(machine@.ram.len() == machine.ram.len());
        let part = vstd::slice::slice_subrange(
            machine.ram.as_slice(),
            phys as usize,
            phys as usize + 4096,
        );
        push_all(&mut data, part);
        count += 1;
    }
    Ok(Batch { start_page, count, data })
}

proof fn lemma_run_grows(pages: Seq<(u64, PhysFrame)>, i: int, n: int)
    ensures
        run_length(pages, i, n) >= n,
    decreases 16 - n,
{
    if n >= 16 || i + n >= pages.len() || pages[i + n].0 != pages[i].0 + n {
    } else {
        lemma_run_grows(pages, i, n + 1);
    }
}

proof fn lemma_run_lost(m: MachineView, pages: Seq<(u64, PhysFrame)>, i: int, n: int, more: int)
    requires
        n >= 1,
        run_bytes(m, pages, i, n) is None,
        more == run_length(pages, i, n - 1),
        run_length(pages, i, n - 1) == run_length(pages, i, n),
    ensures
        run_bytes(m, pages, i, more) is None,
{
    lemma_run_grows(pages, i, n);
    lemma_still_lost(m, pages, i, n, more);
}

proof fn lemma_still_lost(m: MachineView, pages: Seq<(u64, PhysFrame)>, i: int, n: int, more: int)
    requires
        run_bytes(m, pages, i, n) is None,
        n <= more,
    ensures
        run_bytes(m, pages, i, more) is None,
    decreases more,
{
    if n < more {
        lemma_still_lost(m, pages, i, n, more - 1);
    }
}

impl CacheView {
    /// `n` pages from `start` on no longer marked as written.
    pub open spec fn cleaned(self, mount_id: usize, ino: u64, start: u64, n: int) -> CacheView
        decreases n,
    {
        if n <= 0 {
            self
        } else {
            self.cleaned(mount_id, ino, start, n - 1).marked(
                PageKey { mount_id, ino, page_index: (start + n - 1) as u64 },
                false,
            )
        }
    }
}

/// Notes that a batch is on disk.
pub fn batch_written(
    cache: &mut PageCache,
    mount_id: usize,
    ino: u64,
    start_page: u64,
    count: usize,
)
    requires
        old(cache).wf(),
        start_page + count <= u64::MAX,
    ensures
        final(cache).wf(),
        final(cache)@ == old(cache)@.cleaned(mount_id, ino, start_page, count as int),
{
    let mut i: usize = 0;
    while i < count
        invariant
            i <= count,
            cache.wf(),
            start_page + count <= u64::MAX,
            cache@ == old(cache)@.cleaned(mount_id, ino, start_page, i as int),
        decreases count - i,
    {
        mark(cache, PageKey { mount_id, ino, page_index: start_page + i as u64 }, false);
        i += 1;
    }
}

/// The files with pages among the first `n` keys, each once, in order.
pub open spec fn files_of(keys: Seq<PageKey>, n: int) -> Seq<(usize, u64)>
    decreases n,
{
    if n <= 0 {
        Seq::empty()
    } else {
        let before = files_of(keys, n - 1);
        let file = (keys[n - 1].mount_id, keys[n - 1].ino);
        if before.contains(file) {
            before
        } else {
            before.push(file)
        }
    }
}

/// The files that pages are held of, each once.
pub fn files_held(cache: &PageCache) -> (r: Vec<(usize, u64)>)
    requires
        cache.wf(),
    ensures
        r@ == files_of(cache.entries.keys@, cache.entries.keys.len() as int),
{
    let mut files: Vec<(usize, u64)> = Vec::new();
    let mut i: usize = 0;
    assert(files@ =~= Seq::<(usize, u64)>::empty());
    while i < cache.entries.keys.len()
        invariant
            i <= cache.entries.keys.len(),
            files@ == files_of(cache.entries.keys@, i as int),
        decreases cache.entries.keys.len() - i,
    {
        let key = cache.entries.keys[i];
        let mut known: bool = false;
        let mut j: usize = 0;
        while j < files.len()
            invariant
                j <= files.len(),
                known == (exists|x: int|
                    0 <= x < j && #[trigger] files@[x] == (key.mount_id, key.ino)),
            decreases files.len() - j,
        {
            if files[j].0 == key.mount_id && files[j].1 == key.ino {
                assert(files@[j as int] == (key.mount_id, key.ino));
                known = true;
            }
            j += 1;
        }
        if !known {
            files.push((key.mount_id, key.ino));
        }
        i += 1;
    }
    files
}

// ---------------------------------------------------------------------------
// Dropping pages
// ---------------------------------------------------------------------------
/// The keys of the pages of a file from page `first` on, from place `i` on.
pub open spec fn keys_from(keys: Seq<PageKey>, mount_id: usize, ino: u64, first: u64, i: int) -> Seq<
    PageKey,
>
    decreases keys.len() - i,
{
    if i < 0 || i >= keys.len() {
        Seq::empty()
    } else if keys[i].mount_id == mount_id && keys[i].ino == ino && keys[i].page_index >= first {
        seq![keys[i]] + keys_from(keys, mount_id, ino, first, i + 1)
    } else {
        keys_from(keys, mount_id, ino, first, i + 1)
    }
}

/// Pages given up, with their frames.
pub open spec fn dropped(m: MachineView, c: CacheView, keys: Seq<PageKey>) -> (
    MachineView,
    CacheView,
)
    decreases keys.len(),
{
    if keys.len() == 0 {
        (m, c)
    } else if c.entries.dom().contains(keys[0]) {
        dropped(
            m.frame_released(c.entries[keys[0]].frame.0),
            CacheView { entries: c.entries.remove(keys[0]), ..c },
            keys.skip(1),
        )
    } else {
        dropped(m, c, keys.skip(1))
    }
}

fn collect_keys(cache: &PageCache, mount_id: usize, ino: u64, first: u64) -> (r: Vec<PageKey>)
    requires
        cache.wf(),
    ensures
        r@ == keys_from(cache.entries.keys@, mount_id, ino, first, 0),
{
    let mut found: Vec<PageKey> = Vec::new();
    let mut i: usize = 0;
    let ghost keys = cache.entries.keys@;
    assert(found@ + keys_from(keys, mount_id, ino, first, 0) =~= keys_from(
        keys,
        mount_id,
        ino,
        first,
        0,
    ));
    while i < cache.entries.keys.len()
        invariant
            i <= cache.entries.keys.len(),
            keys == cache.entries.keys@,
            found@ + keys_from(keys, mount_id, ino, first, i as int) == keys_from(
                keys,
                mount_id,
                ino,
                first,
                0,
            ),
        decreases cache.entries.keys.len() - i,
    {
        let key = cache.entries.keys[i];
        let ghost had = found@;
        if key.mount_id == mount_id && key.ino == ino && key.page_index >= first {
            found.push(key);
            assert(found@ + keys_from(keys, mount_id, ino, first, i + 1) =~= had + keys_from(
                keys,
                mount_id,
                ino,
                first,
                i as int,
            ));
        }
        i += 1;
    }
    assert(found@ + Seq::<PageKey>::empty() =~= found@);
    found
}

fn drop_pages(machine: &mut Machine, cache: &mut PageCache, keys: &Vec<PageKey>) -> (r: usize)
    requires
        old(machine).wf(),
        old(cache).wf(),
    ensures
        final(machine).wf(),
        final(machine).same_place(old(machine)),
        final(cache).wf(),
        (final(machine)@, final(cache)@) == dropped(old(machine)@, old(cache)@, keys@),
        r == old(cache).entries.keys.len() - final(cache).entries.keys.len(),
{
    let ghost goal = dropped(machine@, cache@, keys@);
    let mut count: usize = 0;
    let mut i: usize = 0;
    assert(keys@.skip(0) =~= keys@);
    while i < keys.len()
        invariant
            i <= keys.len(),
            machine.wf(),
            machine.same_place(old(machine)),
            cache.wf(),
            goal == dropped(machine@, cache@, keys@.skip(i as int)),
            count == old(cache).entries.keys.len() - cache.entries.keys.len(),
        decreases keys.len() - i,
    {
        proof {
            assert(keys@.skip(i as int)[0] == keys@[i as int]);
            assert(keys@.skip(i as int).skip(1) =~= keys@.skip(i + 1));
        }
        let ghost length = cache.entries.keys.len();
        if let Some(entry) = cache.entries.remove(keys[i]) {
            let _ = paging::release_table(machine, entry.frame.0);
            count += 1;
        }
        i += 1;
    }
    count
}

/// A page that is held with zeros from `from` on.
pub open spec fn tail_cleared(m: MachineView, c: CacheView, key: PageKey, from: int) -> (
    MachineView,
    CacheView,
) {
    if c.entries.dom().contains(key) && in_sight(m, c.entries[key].frame.0) {
        let e = c.entries[key];
        (
            MachineView {
                ram: bytes::splice(m.ram, e.frame.0 + from, bytes::zeros((4096 - from) as nat)),
                ..m
            },
            c.with_page(key, PageEntry { valid_bytes: from as usize, dirty: true, ..e }),
        )
    } else {
        (m, c)
    }
}

/// Cuts a file: pages past its end are given up, and the rest of its last page
/// is zero.
pub fn truncate(
    machine: &mut Machine,
    cache: &mut PageCache,
    mount_id: usize,
    ino: u64,
    new_size: u64,
)
    requires
        old(machine).wf(),
        old(cache).wf(),
        new_size + 4095 <= u64::MAX,
    ensures
        final(machine).wf(),
        final(machine).same_place(old(machine)),
        final(cache).wf(),
        ({
            let keys = keys_from(
                old(cache).entries.keys@,
                mount_id,
                ino,
                ((new_size + 4095) / 4096) as u64,
                0,
            );
            let (m, c) = dropped(
                old(machine)@,
                old(cache)@.with_size(mount_id, ino, new_size),
                keys,
            );
            (final(machine)@, final(cache)@) == if new_size % 4096 > 0 {
                tail_cleared(
                    m,
                    c,
                    PageKey { mount_id, ino, page_index: new_size / 4096 },
                    (new_size % 4096) as int,
                )
            } else {
                (m, c)
            }
        }),
{
    cache.set_file_size(mount_id, ino, new_size);
    let keys = collect_keys(cache, mount_id, ino, (new_size + (PAGE_SIZE - 1)) / PAGE_SIZE);
    let _ = drop_pages(machine, cache, &keys);
    let offset: usize = (new_size % PAGE_SIZE) as usize;
    if offset > 0 {
        let key = PageKey { mount_id, ino, page_index: new_size / PAGE_SIZE };
        let found = match cache.entries.get(key) {
            Some(e) => Some(*e),
            None => None,
        };
        if let Some(e) = found {
            if sees(machine, e.frame.0) {
                let mut blank: Vec<u8> = Vec::new();
                crate::bytes::push_zeros(&mut blank, 4096 - offset);
                assert(blank@ =~= bytes::zeros((4096 - offset) as nat));
                put_vec(&mut machine.ram, e.frame.0 as usize + offset, blank.as_slice());
                cache.entries.insert(key, PageEntry { valid_bytes: offset, dirty: true, ..e });
            }
        }
    }
}

/// Gives up all pages of a file that is gone.
pub fn invalidate_inode(machine: &mut Machine, cache: &mut PageCache, mount_id: usize, ino: u64)
    requires
        old(machine).wf(),
        old(cache).wf(),
    ensures
        final(machine).wf(),
        final(machine).same_place(old(machine)),
        final(cache).wf(),
        (final(machine)@, final(cache)@) == dropped(
            old(machine)@,
            CacheView {
                file_sizes: old(cache)@.file_sizes.remove(file_key(mount_id, ino)),
                ..old(cache)@
            },
            keys_from(old(cache).entries.keys@, mount_id, ino, 0, 0),
        ),
{
    let _ = cache.file_sizes.remove(PageKey { mount_id, ino, page_index: 0 });
    let keys = collect_keys(cache, mount_id, ino, 0);
    let _ = drop_pages(machine, cache, &keys);
}

// ---------------------------------------------------------------------------
// Eviction
// ---------------------------------------------------------------------------
/// The pages that are as on disk, in order, from place `i` on, with when they
/// were used.
pub open spec fn clean_from(keys: Seq<PageKey>, entries: Seq<PageEntry>, i: int) -> Seq<(PageKey, u64)>
    decreases keys.len() - i,
{
    if i < 0 || i >= keys.len() {
        Seq::empty()
    } else if !entries[i].dirty {
        seq![(keys[i], entries[i].lru_seq)] + clean_from(keys, entries, i + 1)
    } else {
        clean_from(keys, entries, i + 1)
    }
}

/// Where a page goes in a list in the order of use, from place `i` on: behind
/// all that were not used later.
pub open spec fn lru_place(list: Seq<(PageKey, u64)>, seq: u64, i: int) -> int
    decreases list.len() - i,
{
    if i < 0 || i >= list.len() || list[i].1 > seq {
        i
    } else {
        lru_place(list, seq, i + 1)
    }
}

/// The first `n` pages of a list in the order of use; pages used at the same
/// time stay in their order.
pub open spec fn by_use(list: Seq<(PageKey, u64)>, n: int) -> Seq<(PageKey, u64)>
    decreases n,
{
    if n <= 0 {
        Seq::empty()
    } else {
        let before = by_use(list, n - 1);
        before.insert(lru_place(before, list[n - 1].1, 0), list[n - 1])
    }
}

pub open spec fn keys_of(list: Seq<(PageKey, u64)>) -> Seq<PageKey> {
    list.map_values(|p: (PageKey, u64)| p.0)
}

fn find_lru_place(list: &Vec<(PageKey, u64)>, seq: u64) -> (r: usize)
    ensures
        r == lru_place(list@, seq, 0),
        r <= list.len(),
{
    let mut i: usize = 0;
    while i < list.len() && list[i].1 <= seq
        invariant
            i <= list.len(),
            lru_place(list@, seq, 0) == lru_place(list@, seq, i as int),
        decreases list.len() - i,
    {
        i += 1;
    }
    i
}

fn clean_pages(cache: &PageCache) -> (r: Vec<(PageKey, u64)>)
    requires
        cache.wf(),
    ensures
        r@ == clean_from(cache.entries.keys@, cache.entries.values@, 0),
{
    let mut found: Vec<(PageKey, u64)> = Vec::new();
    let mut i: usize = 0;
    let ghost keys = cache.entries.keys@;
    let ghost entries = cache.entries.values@;
    assert(found@ + clean_from(keys, entries, 0) =~= clean_from(keys, entries, 0));
    while i < cache.entries.keys.len()
        invariant
            cache.wf(),
            i <= cache.entries.keys.len(),
            keys == cache.entries.keys@,
            entries == cache.entries.values@,
            found@ + clean_from(keys, entries, i as int) == clean_from(keys, entries, 0),
        decreases cache.entries.keys.len() - i,
    {
        let ghost had = found@;
        if !cache.entries.values[i].dirty {
            found.push((cache.entries.keys[i], cache.entries.values[i].lru_seq));
            assert(found@ + clean_from(keys, entries, i + 1) =~= had + clean_from(
                keys,
                entries,
                i as int,
            ));
        }
        i += 1;
    }
    assert(found@ + Seq::<(PageKey, u64)>::empty() =~= found@);
    found
}

/// Gives up at most `max_count` pages that are as on disk, those used longest
/// ago first; returns how many.
pub fn evict_clean_pages(machine: &mut Machine, cache: &mut PageCache, max_count: usize) -> (r: usize)
    requires
        old(machine).wf(),
        old(cache).wf(),
    ensures
        final(machine).wf(),
        final(machine).same_place(old(machine)),
        final(cache).wf(),
        ({
            let clean = clean_from(old(cache).entries.keys@, old(cache).entries.values@, 0);
            let n = if clean.len() < max_count {
                clean.len() as int
            } else {
                max_count as int
            };
            (final(machine)@, final(cache)@) == dropped(
                old(machine)@,
                old(cache)@,
                keys_of(by_use(clean, clean.len() as int)).take(n),
            )
        }),
        r == old(cache).entries.keys.len() - final(cache).entries.keys.len(),
{
    let clean = clean_pages(cache);
    let mut sorted: Vec<(PageKey, u64)> = Vec::new();
    let mut i: usize = 0;
    assert(sorted@ =~= Seq::<(PageKey, u64)>::empty());
    while i < clean.len()
        invariant
            i <= clean.len(),
            sorted@ == by_use(clean@, i as int),
            sorted.len() == i,
        decreases clean.len() - i,
    {
        let at: usize = find_lru_place(&sorted, clean[i].1);
        sorted.insert(at, clean[i]);
        i += 1;
    }
    let n: usize = if clean.len() < max_count {
        clean.len()
    } else {
        max_count
    };
    let mut keys: Vec<PageKey> = Vec::new();
    let mut j: usize = 0;
    while j < n
        invariant
            j <= n <= sorted.len(),
            keys@ == keys_of(sorted@).take(j as int),
        decreases n - j,
    {
        keys.push(sorted[j].0);
        j += 1;
        assert(keys@ =~= keys_of(sorted@).take(j as int));
    }
    drop_pages(machine, cache, &keys)
}

// ---------------------------------------------------------------------------
// What is evicted
// ---------------------------------------------------------------------------
/// Whether a page is held and as on disk.
pub open spec fn is_clean(c: CacheView, k: PageKey) -> bool {
    c.entries.dom().contains(k) && !c.entries[k].dirty
}

/// Whether a list is in the order of use.
pub open spec fn in_order_of_use(list: Seq<(PageKey, u64)>) -> bool {
    forall|i: int, j: int|
        0 <= i <= j < list.len() ==> (#[trigger] list[i]).1 <= (#[trigger] list[j]).1
}

/// Whether no page is twice in a list.
pub open spec fn keys_differ(list: Seq<(PageKey, u64)>) -> bool {
    forall|i: int, j: int|
        0 <= i < j < list.len() ==> (#[trigger] list[i]).0 != (#[trigger] list[j]).0
}

proof fn lemma_clean(keys: Seq<PageKey>, entries: Seq<PageEntry>, i: int)
    requires
        pagemap::ascending(keys),
        keys.len() == entries.len(),
        0 <= i <= keys.len(),
    ensures
        ({
            let clean = clean_from(keys, entries, i);
            &&& keys_differ(clean)
            &&& forall|x: int|
                0 <= x < clean.len() ==> exists|j: int|
                    i <= j < keys.len() && !(#[trigger] entries[j]).dirty && #[trigger] clean[x] == (
                        keys[j],
                        entries[j].lru_seq,
                    )
            &&& forall|j: int|
                i <= j < keys.len() && !(#[trigger] entries[j]).dirty ==> clean.contains(
                    (keys[j], entries[j].lru_seq),
                )
        }),
    decreases keys.len() - i,
{
    if i < keys.len() {
        lemma_clean(keys, entries, i + 1);
        let clean = clean_from(keys, entries, i);
        let more = clean_from(keys, entries, i + 1);
        if !entries[i].dirty {
            assert(clean[0] == (keys[i], entries[i].lru_seq));
            assert forall|x: int| 0 < x < clean.len() implies #[trigger] clean[x] == more[x - 1] by {}
            assert forall|x: int| 0 <= x < clean.len() implies exists|j: int|
                i <= j < keys.len() && !(#[trigger] entries[j]).dirty && #[trigger] clean[x] == (
                    keys[j],
                    entries[j].lru_seq,
                ) by {
                if x > 0 {
                    assert(clean[x] == more[x - 1]);
                }
            }
            assert forall|a: int, b: int| 0 <= a < b < clean.len() implies (#[trigger] clean[a]).0 != (
            #[trigger] clean[b]).0 by {
                assert(clean[b] == more[b - 1]);
                if a > 0 {
                    assert(clean[a] == more[a - 1]);
                } else {
                    let j = choose|j: int|
                        i + 1 <= j < keys.len() && !(#[trigger] entries[j]).dirty && more[b - 1] == (
                            keys[j],
                            entries[j].lru_seq,
                        );
                    assert(pagemap::before(keys[i], keys[j]));
                }
            }
            assert forall|j: int| i <= j < keys.len() && !(#[trigger] entries[j]).dirty implies clean.contains(
                (keys[j], entries[j].lru_seq),
            ) by {
                if j > i {
                    let e = (keys[j], entries[j].lru_seq);
                    let x = more.index_of(e);
                    assert(more.contains(e));
                    assert(clean[x + 1] == e);
                }
            }
        }
    }
}

proof fn lemma_lru_place(list: Seq<(PageKey, u64)>, seq: u64, i: int)
    requires
        0 <= i <= list.len(),
        in_order_of_use(list),
    ensures
        ({
            let at = lru_place(list, seq, i);
            &&& i <= at <= list.len()
            &&& forall|x: int| i <= x < at ==> (#[trigger] list[x]).1 <= seq
            &&& forall|x: int| at <= x < list.len() ==> (#[trigger] list[x]).1 > seq
        }),
    decreases list.len() - i,
{
    if i < list.len() && list[i].1 <= seq {
        lemma_lru_place(list, seq, i + 1);
    } else if i < list.len() {
        assert forall|x: int| i <= x < list.len() implies (#[trigger] list[x]).1 > seq by {
            assert(list[i].1 <= list[x].1);
        }
    }
}

proof fn lemma_by_use(list: Seq<(PageKey, u64)>, n: int)
    requires
        0 <= n <= list.len(),
        keys_differ(list),
    ensures
        by_use(list, n).len() == n,
        in_order_of_use(by_use(list, n)),
        keys_differ(by_use(list, n)),
        forall|e: (PageKey, u64)|
            by_use(list, n).contains(e) <==> #[trigger] list.take(n).contains(e),
    decreases n,
{
    if n <= 0 {
        assert(list.take(0) =~= Seq::<(PageKey, u64)>::empty());
    } else {
        lemma_by_use(list, n - 1);
        let before = by_use(list, n - 1);
        let e = list[n - 1];
        lemma_lru_place(before, e.1, 0);
        let at = lru_place(before, e.1, 0);
        let after = by_use(list, n);
        assert(after == before.insert(at, e));
        assert forall|x: int| 0 <= x < after.len() implies #[trigger] after[x] == (if x < at {
            before[x]
        } else if x == at {
            e
        } else {
            before[x - 1]
        }) by {}
        assert forall|x: int| 0 <= x < before.len() implies (#[trigger] before[x]).0 != e.0 by {
            assert(before.contains(before[x]));
            assert(list.take(n - 1).contains(before[x]));
            let y = list.take(n - 1).index_of(before[x]);
            assert(list[y] == before[x]);
        }
        assert forall|a: (PageKey, u64)|
            after.contains(a) <==> #[trigger] list.take(n).contains(a) by {
            assert(list.take(n) =~= list.take(n - 1).push(e));
            if after.contains(a) {
                let x = after.index_of(a);
                if x < at {
                    assert(before.contains(before[x]));
                } else if x > at {
                    assert(before.contains(before[x - 1]));
                }
                if x != at {
                    assert(list.take(n - 1).contains(a));
                    let y = list.take(n - 1).index_of(a);
                    assert(list.take(n)[y] == a);
                } else {
                    assert(list.take(n)[n - 1] == a);
                }
            }
            if list.take(n).contains(a) {
                let y = list.take(n).index_of(a);
                if y == n - 1 {
                    assert(after[at] == a);
                } else {
                    assert(list.take(n - 1)[y] == a);
                    assert(list.take(n - 1).contains(a));
                    let x = before.index_of(a);
                    if x < at {
                        assert(after[x] == a);
                    } else {
                        assert(after[x + 1] == a);
                    }
                }
            }
        }
    }
}

proof fn lemma_dropped_keys(m: MachineView, c: CacheView, keys: Seq<PageKey>, k: PageKey)
    ensures
        ({
            let w = dropped(m, c, keys).1;
            &&& w.entries.dom().contains(k) <==> c.entries.dom().contains(k) && !keys.contains(k)
            &&& w.entries.dom().contains(k) ==> w.entries[k] == c.entries[k]
        }),
    decreases keys.len(),
{
    if keys.len() > 0 {
        let rest = keys.skip(1);
        if c.entries.dom().contains(keys[0]) {
            lemma_dropped_keys(
                m.frame_released(c.entries[keys[0]].frame.0),
                CacheView { entries: c.entries.remove(keys[0]), ..c },
                rest,
                k,
            );
        } else {
            lemma_dropped_keys(m, c, rest, k);
        }
        if keys.contains(k) && k != keys[0] {
            let x = keys.index_of(k);
            assert(rest[x - 1] == k);
        }
        if rest.contains(k) {
            let x = rest.index_of(k);
            assert(keys[x + 1] == k);
        }
    }
}

/// What eviction gives up are pages that are as on disk, as many as are asked
/// for or there are, and no such page that stays has an earlier use noted than
/// one that goes. All other pages stay as they are.
pub proof fn law_evicts_least_used(
    m: MachineView,
    c: CacheView,
    keys: Seq<PageKey>,
    entries: Seq<PageEntry>,
    max: int,
    k: PageKey,
    other: PageKey,
)
    requires
        pagemap::ascending(keys),
        keys.len() == entries.len(),
        c.entries == pagemap::paired(keys, entries),
        0 <= max,
    ensures
        ({
            let clean = clean_from(keys, entries, 0);
            let n = if clean.len() < max {
                clean.len() as int
            } else {
                max
            };
            let gone = keys_of(by_use(clean, clean.len() as int)).take(n);
            let w = dropped(m, c, gone).1;
            &&& gone.len() == n
            &&& gone.no_duplicates()
            &&& is_clean(c, k) <==> keys_of(clean).contains(k)
            &&& gone.contains(k) ==> is_clean(c, k)
            &&& gone.contains(k) && is_clean(c, other) && !gone.contains(other)
                ==> c.entries[k].lru_seq <= c.entries[other].lru_seq
            &&& w.entries.dom().contains(k) <==> c.entries.dom().contains(k) && !gone.contains(k)
            &&& w.entries.dom().contains(k) ==> w.entries[k] == c.entries[k]
        }),
{
    let clean = clean_from(keys, entries, 0);
    let all = by_use(clean, clean.len() as int);
    let n = if clean.len() < max {
        clean.len() as int
    } else {
        max
    };
    let gone = keys_of(all).take(n);
    lemma_clean(keys, entries, 0);
    lemma_by_use(clean, clean.len() as int);
    assert(clean.take(clean.len() as int) =~= clean);
    lemma_dropped_keys(m, c, gone, k);
    assert forall|a: int, b: int| 0 <= a < b < gone.len() implies gone[a] != gone[b] by {
        assert(all[a].0 != all[b].0);
    }
    lemma_entry_of(keys, entries, c, k);
    lemma_entry_of(keys, entries, c, other);
    if gone.contains(k) {
        let x = gone.index_of(k);
        assert(all[x].0 == k);
        assert(all.contains(all[x]));
        assert(clean.contains(all[x]));
        let y = clean.index_of(all[x]);
        assert(clean[y].0 == k);
        assert(keys_of(clean)[y] == k);
        assert(clean[y].1 == c.entries[k].lru_seq);
        if is_clean(c, other) && !gone.contains(other) {
            let e = (other, c.entries[other].lru_seq);
            assert(clean.contains(e));
            assert(all.contains(e));
            let z = all.index_of(e);
            if z < n {
                assert(gone[z] == other);
            }
            assert(all[x].1 <= all[z].1);
        }
    }
}

/// The pages in the list of clean ones, each with when it was used.
proof fn lemma_entry_of(
    keys: Seq<PageKey>,
    entries: Seq<PageEntry>,
    c: CacheView,
    k: PageKey,
)
    requires
        pagemap::ascending(keys),
        keys.len() == entries.len(),
        c.entries == pagemap::paired(keys, entries),
    ensures
        ({
            let clean = clean_from(keys, entries, 0);
            &&& is_clean(c, k) <==> keys_of(clean).contains(k)
            &&& is_clean(c, k) ==> clean.contains((k, c.entries[k].lru_seq))
            &&& forall|y: int|
                0 <= y < clean.len() && (#[trigger] clean[y]).0 == k ==> clean[y].1
                    == c.entries[k].lru_seq
        }),
{
    let clean = clean_from(keys, entries, 0);
    lemma_clean(keys, entries, 0);
    if is_clean(c, k) {
        let j = keys.index_of(k);
        assert(keys.contains(k));
        assert(keys[j] == k);
        pagemap::lemma_paired(keys, entries, j);
        assert(!entries[j].dirty);
        let y = clean.index_of((k, entries[j].lru_seq));
        assert(keys_of(clean)[y] == k);
    }
    assert forall|y: int| 0 <= y < clean.len() && (#[trigger] clean[y]).0 == k implies clean[y].1
        == c.entries[k].lru_seq && is_clean(c, k) by {
        let j = choose|j: int|
            0 <= j < keys.len() && !(#[trigger] entries[j]).dirty && clean[y] == (
                keys[j],
                entries[j].lru_seq,
            );
        pagemap::lemma_paired(keys, entries, j);
    }
    if keys_of(clean).contains(k) {
        let y = keys_of(clean).index_of(k);
        assert(clean[y].0 == k);
    }
}

/// How many of the first `n` entries were written.
pub open spec fn dirty_among(entries: Seq<PageEntry>, n: int) -> int
    decreases n,
{
    if n <= 0 {
        0
    } else {
        dirty_among(entries, n - 1) + (if entries[n - 1].dirty {
            1int
        } else {
            0
        })
    }
}

/// How many pages were written and are not on disk yet.
pub fn dirty_count(cache: &PageCache) -> (r: usize)
    requires
        cache.wf(),
    ensures
        r == dirty_among(cache.entries.values@, cache.entries.values.len() as int),
{
    let mut count: usize = 0;
    let mut i: usize = 0;
    while i < cache.entries.values.len()
        invariant
            i <= cache.entries.values.len(),
            count <= i,
            count == dirty_among(cache.entries.values@, i as int),
        decreases cache.entries.values.len() - i,
    {
        if cache.entries.values[i].dirty {
            count += 1;
        }
        i += 1;
    }
    count
}

pub fn cached_pages_count(cache: &PageCache) -> (r: usize)
    requires
        cache.wf(),
    ensures
        r == cache.entries.keys.len(),
{
    cache.entries.len()
}

// ---------------------------------------------------------------------------
// The background flusher
// ---------------------------------------------------------------------------
#[derive(Clone, Copy, Debug, PartialEq, Eq, Structural)]
pub struct Flusher {
    pub ticks: u64,
    pub run_count: u64,
    pub pending: bool,
}

impl Flusher {
    pub fn new() -> (r: Self)
        ensures
            r == (Flusher { ticks: 0, run_count: 0, pending: false }),
    {
        Flusher { ticks: 0, run_count: 0, pending: false }
    }
}

/// One tick: every 500th asks for a flush.
pub fn flusher_tick(flusher: &mut Flusher)
    ensures
        *final(flusher) == (Flusher {
            ticks: old(flusher).ticks.wrapping_add(1),
            pending: old(flusher).pending || (old(flusher).ticks > 0 && old(flusher).ticks % 500
                == 0),
            ..*old(flusher)
        }),
{
    let ticks: u64 = flusher.ticks;
    flusher.ticks = ticks.wrapping_add(1);
    if ticks > 0 && ticks % 500 == 0 {
        flusher.pending = true;
    }
}

pub fn is_flusher_pending(flusher: &Flusher) -> (r: bool)
    ensures
        r == flusher.pending,
{
    flusher.pending
}

/// Takes a request to flush; whether there was one.
pub fn run_flusher(flusher: &mut Flusher) -> (r: bool)
    ensures
        r == old(flusher).pending,
        *final(flusher) == (Flusher {
            pending: false,
            run_count: if old(flusher).pending {
                old(flusher).run_count.wrapping_add(1)
            } else {
                old(flusher).run_count
            },
            ..*old(flusher)
        }),
{
    if !flusher.pending {
        return false;
    }
    flusher.pending = false;
    flusher.run_count = flusher.run_count.wrapping_add(1);
    true
}

pub fn flusher_run_count(flusher: &Flusher) -> (r: u64)
    ensures
        r == flusher.run_count,
{
    flusher.run_count
}

/// What was written to a page of a file is read back from it.
pub proof fn law_page_write_then_read(
    m: MachineView,
    c: CacheView,
    mount_id: usize,
    ino: u64,
    disk: &DiskFile,
    size: u64,
    position: u64,
    bytes: Seq<u8>,
)
    requires
        0 < bytes.len(),
        position % 4096 + bytes.len() <= 4096,
        counters_fit(c, 2),
        write_on(m, c, mount_id, ino, disk, size, position as int, bytes).2 is Ok,
    ensures
        ({
            let (m1, c1, _) = write_on(m, c, mount_id, ino, disk, size, position as int, bytes);
            read_on(
                m1,
                c1,
                mount_id,
                ino,
                disk,
                position as int,
                bytes.len() as int,
                Seq::empty(),
            ).2 == Ok::<Seq<u8>, VfsError>(bytes)
        }),
{
    reveal(looked_up);
    reveal(looked_up_to_write);
    reveal_with_fuel(read_on, 2);
    reveal_with_fuel(write_on, 2);
    let n = bytes.len() as int;
    let page_index = position / 4096;
    let key = PageKey { mount_id, ino, page_index };
    let page = page_before_write(disk, size, page_index, n);
    let (m1, c1, r) = looked_up_to_write(m, c, key, page, position % 4096 + n);
    let phys = r->Ok_0;
    let at = phys + position % 4096;
    assert(bytes.take(n) =~= bytes);
    assert(bytes.skip(n).len() == 0);
    let ram = bytes::splice(m1.ram, at, bytes);
    assert(ram.subrange(at, at + n) =~= bytes);
    assert(Seq::<u8>::empty() + bytes =~= bytes);
}

/// The byte at a place of a file, as it is held here.
pub open spec fn held_byte(m: MachineView, c: CacheView, mount_id: usize, ino: u64, x: int) -> u8 {
    let page_index = (x / 4096) as u64;
    m.ram[c.entries[PageKey { mount_id, ino, page_index }].frame.0 + x % 4096]
}

/// A page of a file is held, where it can be reached.
pub open spec fn page_held(
    m: MachineView,
    c: CacheView,
    mount_id: usize,
    ino: u64,
    page_index: u64,
) -> bool {
    let key = PageKey { mount_id, ino, page_index };
    c.entries.dom().contains(key) && in_sight(m, c.entries[key].frame.0)
}

/// All pages up to a place in a file are held.
pub open spec fn all_held(m: MachineView, c: CacheView, mount_id: usize, ino: u64, end: int) -> bool {
    forall|p: u64| p * 4096 < end ==> #[trigger] page_held(m, c, mount_id, ino, p)
}

/// No two of those pages share memory.
pub open spec fn frames_apart(c: CacheView, mount_id: usize, ino: u64, end: int) -> bool {
    forall|p: u64, q: u64|
        p != q && p * 4096 < end && q * 4096 < end ==> {
            let a = #[trigger] c.entries[PageKey { mount_id, ino, page_index: p }];
            let b = #[trigger] c.entries[PageKey { mount_id, ino, page_index: q }];
            a.frame.0 + 4096 <= b.frame.0 || b.frame.0 + 4096 <= a.frame.0
        }
}

#[verifier::spinoff_prover]
#[verifier::rlimit(60)]
proof fn lemma_held_read(
    m: MachineView,
    c: CacheView,
    mount_id: usize,
    ino: u64,
    disk: &DiskFile,
    position: int,
    left: int,
    got: Seq<u8>,
)
    requires
        0 <= position,
        0 <= left,
        position + left <= u64::MAX,
        all_held(m, c, mount_id, ino, position + left),
    ensures
        read_on(m, c, mount_id, ino, disk, position, left, got).0 == m,
        read_on(m, c, mount_id, ino, disk, position, left, got).2 == Ok::<Seq<u8>, VfsError>(
            got + Seq::new(left as nat, |i: int| held_byte(m, c, mount_id, ino, position + i)),
        ),
    decreases left,
{
    let rest = Seq::new(left as nat, |i: int| held_byte(m, c, mount_id, ino, position + i));
    if left == 0 {
        assert(got + rest =~= got);
    } else {
        reveal(looked_up);
        let page_index = (position / 4096) as u64;
        let key = PageKey { mount_id, ino, page_index };
        let n = chunk(position, left);
        assert(page_held(m, c, mount_id, ino, page_index));
        let (m1, c1, r) = looked_up(m, c, key, disk.page(page_index));
        let at = c.entries[key].frame.0 + position % 4096;
        let part = m.ram.subrange(at, at + n);
        assert forall|p: u64| p * 4096 < position + left implies #[trigger] page_held(
            m,
            c1,
            mount_id,
            ino,
            p,
        ) by {
            assert(page_held(m, c, mount_id, ino, p));
        }
        lemma_held_read(m, c1, mount_id, ino, disk, position + n, left - n, got + part);
        let last = Seq::new(
            (left - n) as nat,
            |i: int| held_byte(m, c1, mount_id, ino, position + n + i),
        );
        assert forall|i: int| 0 <= i < left implies #[trigger] rest[i] == (part + last)[i] by {
            if i < n {
                assert((position + i) / 4096 == position / 4096);
                assert((position + i) % 4096 == position % 4096 + i);
            } else {
                assert(last[i - n] == held_byte(m, c1, mount_id, ino, position + i));
            }
        }
        assert(rest =~= part + last);
        assert((got + part) + last =~= got + rest);
    }
}

/// A read of a file whose pages are held gives its bytes, one by one, from where
/// it starts, over as many pages as it takes; no memory changes.
pub proof fn law_held_file_is_read(
    m: MachineView,
    c: CacheView,
    mount_id: usize,
    ino: u64,
    disk: &DiskFile,
    position: u64,
    length: int,
)
    requires
        0 <= length,
        position + length <= u64::MAX,
        all_held(m, c, mount_id, ino, position + length),
    ensures
        ({
            let (after, _, r) = read_on(
                m,
                c,
                mount_id,
                ino,
                disk,
                position as int,
                length,
                Seq::empty(),
            );
            &&& after == m
            &&& r matches Ok(read)
            &&& read.len() == length
            &&& forall|i: int|
                0 <= i < length ==> #[trigger] read[i] == held_byte(
                    m,
                    c,
                    mount_id,
                    ino,
                    position + i,
                )
        }),
{
    lemma_held_read(m, c, mount_id, ino, disk, position as int, length, Seq::empty());
}

#[verifier::spinoff_prover]
#[verifier::rlimit(60)]
proof fn lemma_held_write(
    m: MachineView,
    c: CacheView,
    mount_id: usize,
    ino: u64,
    disk: &DiskFile,
    size: u64,
    position: int,
    bytes: Seq<u8>,
    end: int,
)
    requires
        0 <= position,
        position + bytes.len() <= end <= u64::MAX,
        all_held(m, c, mount_id, ino, end),
        frames_apart(c, mount_id, ino, end),
    ensures
        ({
            let (m1, c1, r) = write_on(m, c, mount_id, ino, disk, size, position, bytes);
            &&& r is Ok
            &&& all_held(m1, c1, mount_id, ino, end)
            &&& forall|x: int|
                0 <= x < end ==> #[trigger] held_byte(m1, c1, mount_id, ino, x) == (if position <= x
                    < position + bytes.len() {
                    bytes[x - position]
                } else {
                    held_byte(m, c, mount_id, ino, x)
                })
        }),
    decreases bytes.len(),
{
    if bytes.len() > 0 {
        reveal(looked_up_to_write);
        let page_index = (position / 4096) as u64;
        let key = PageKey { mount_id, ino, page_index };
        let n = chunk(position, bytes.len() as int);
        assert(page_held(m, c, mount_id, ino, page_index));
        let page = page_before_write(disk, size, page_index, n);
        let (m0, c1, r) = looked_up_to_write(m, c, key, page, position % 4096 + n);
        let at = c.entries[key].frame.0 + position % 4096;
        let m1 = MachineView { ram: bytes::splice(m.ram, at, bytes.take(n)), ..m };
        assert forall|p: u64| p * 4096 < end implies #[trigger] page_held(m1, c1, mount_id, ino, p) by {
            assert(page_held(m, c, mount_id, ino, p));
        }
        assert(forall|p: u64|
            (#[trigger] c1.entries[PageKey { mount_id, ino, page_index: p }]).frame
                == c.entries[PageKey { mount_id, ino, page_index: p }].frame);
        lemma_held_write(m1, c1, mount_id, ino, disk, size, position + n, bytes.skip(n), end);
        let (m2, c2, _) = write_on(m, c, mount_id, ino, disk, size, position, bytes);
        assert forall|x: int| 0 <= x < end implies #[trigger] held_byte(m2, c2, mount_id, ino, x)
            == (if position <= x < position + bytes.len() {
            bytes[x - position]
        } else {
            held_byte(m, c, mount_id, ino, x)
        }) by {
            let p = (x / 4096) as u64;
            assert(page_held(m, c, mount_id, ino, p));
            let other = c.entries[PageKey { mount_id, ino, page_index: p }];
            assert(c1.entries[PageKey { mount_id, ino, page_index: p }].frame == other.frame);
            if p == page_index {
                assert(x % 4096 - position % 4096 == x - position);
            } else {
                assert(other.frame.0 + 4096 <= c.entries[key].frame.0 || c.entries[key].frame.0
                    + 4096 <= other.frame.0);
            }
        }
    }
}

/// A write to a file whose pages are held changes just the bytes that it is of,
/// over as many pages as it takes: each of them is as written, every other byte
/// of the file is as before.
pub proof fn law_held_file_is_written(
    m: MachineView,
    c: CacheView,
    mount_id: usize,
    ino: u64,
    disk: &DiskFile,
    size: u64,
    position: u64,
    bytes: Seq<u8>,
    end: int,
    x: int,
)
    requires
        position + bytes.len() <= end <= u64::MAX,
        all_held(m, c, mount_id, ino, end),
        frames_apart(c, mount_id, ino, end),
        0 <= x < end,
    ensures
        ({
            let (m1, c1, r) = write_on(m, c, mount_id, ino, disk, size, position as int, bytes);
            &&& r is Ok
            &&& held_byte(m1, c1, mount_id, ino, x) == (if position <= x < position + bytes.len() {
                bytes[x - position]
            } else {
                held_byte(m, c, mount_id, ino, x)
            })
        }),
{
    lemma_held_write(m, c, mount_id, ino, disk, size, position as int, bytes, end);
}

/// A page that is not held is read as it is on disk, with zeros behind what the
/// disk has of it.
pub proof fn law_page_read_from_disk(
    m: MachineView,
    c: CacheView,
    mount_id: usize,
    ino: u64,
    disk: &DiskFile,
    page_index: u64,
    from: int,
    to: int,
)
    requires
        0 <= from < to <= 4096,
        page_index * 4096 + 4096 <= u64::MAX,
        disk.page(page_index).len() <= 4096,
        !c.entries.dom().contains(PageKey { mount_id, ino, page_index }),
        read_on(
            m,
            c,
            mount_id,
            ino,
            disk,
            page_index * 4096 + from,
            to - from,
            Seq::empty(),
        ).2 is Ok,
    ensures
        ({
            let read = read_on(
                m,
                c,
                mount_id,
                ino,
                disk,
                page_index * 4096 + from,
                to - from,
                Seq::empty(),
            ).2->Ok_0;
            let on_disk = disk.page(page_index);
            &&& read.len() == to - from
            &&& forall|i: int|
                from <= i < to ==> #[trigger] read[i - from] == (if i < on_disk.len() {
                    on_disk[i]
                } else {
                    0u8
                })
        }),
{
    reveal(looked_up);
    reveal_with_fuel(read_on, 2);
    let position = page_index * 4096 + from;
    assert(position / 4096 == page_index);
    assert(position % 4096 == from);
    let key = PageKey { mount_id, ino, page_index };
    let (m1, c1, r) = looked_up(m, c, key, disk.page(page_index));
    let at = r->Ok_0 + from;
    let part = m1.ram.subrange(at, at + (to - from));
    assert(Seq::<u8>::empty() + part =~= part);
    assert forall|i: int| from <= i < to implies #[trigger] part[i - from] == (if i < disk.page(
        page_index,
    ).len() {
        disk.page(page_index)[i]
    } else {
        0u8
    }) by {
        assert(m1.ram[r->Ok_0 + i] == padded_page(disk.page(page_index))[i]);
    }
}

/// A file that is cut within a page reads as zeros from there to the end of that
/// page, and as before up to there.
pub proof fn law_cut_page_is_clear(
    m: MachineView,
    c: CacheView,
    mount_id: usize,
    ino: u64,
    page_index: u64,
    from: int,
    i: int,
)
    requires
        page_held(m, c, mount_id, ino, page_index),
        page_index * 4096 + 4096 <= u64::MAX,
        0 <= from <= 4096,
        0 <= i < 4096,
    ensures
        ({
            let key = PageKey { mount_id, ino, page_index };
            let (m1, c1) = tail_cleared(m, c, key, from);
            let x = page_index * 4096 + i;
            &&& held_byte(m1, c1, mount_id, ino, x) == (if i < from {
                held_byte(m, c, mount_id, ino, x)
            } else {
                0u8
            })
            &&& c1.entries[key].dirty
        }),
{
    let x = page_index * 4096 + i;
    assert(x / 4096 == page_index);
    assert(x % 4096 == i);
}

} // verus!
