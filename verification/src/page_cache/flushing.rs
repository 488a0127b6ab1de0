//! Writing the pages of files back to disk, one request after the other. A
//! flush says what to ask of the file system, and goes on with the answer.
use vstd::prelude::*;

use crate::memory::PhysFrame;
use crate::page_cache::{
    self, batch_written, dirty_pages, files_held, next_batch, CacheView, PageCache, PageEntry,
};
use crate::pagemap::{self, PageKey};
use crate::paging::{Machine, MachineView};
use crate::vfs::VfsError;

verus! {

/// What a flush waits for.
#[derive(Clone, Copy, Debug, PartialEq, Eq, Structural)]
pub enum FlushStage {
    /// The file to have its size.
    Truncating,
    /// Pages that follow one another to be on disk.
    Writing { start_page: u64, count: usize },
    /// The file system to have written all.
    Syncing,
    /// Nothing more.
    Ended,
}

/// What to ask of the file system, or how the flush ended.
pub enum FlushRequest {
    Truncate { size: u64 },
    Write { offset: u64, data: Vec<u8> },
    Sync,
    End(Result<(), VfsError>),
}

pub enum FlushRequestView {
    Truncate { size: u64 },
    Write { offset: int, data: Seq<u8> },
    Sync,
    End(Result<(), VfsError>),
}

impl View for FlushRequest {
    type V = FlushRequestView;

    open spec fn view(&self) -> FlushRequestView {
        match self {
            FlushRequest::Truncate { size } => FlushRequestView::Truncate { size: *size },
            FlushRequest::Write { offset, data } => FlushRequestView::Write {
                offset: *offset as int,
                data: data@,
            },
            FlushRequest::Sync => FlushRequestView::Sync,
            FlushRequest::End(r) => FlushRequestView::End(*r),
        }
    }
}

/// A flush of one file: its pages that were written, and the first of them that
/// is not on disk yet.
pub struct Flush {
    pub mount_id: usize,
    pub ino: u64,
    pub pages: Vec<(u64, PhysFrame)>,
    pub index: usize,
    pub stage: FlushStage,
}

#[verifier::ext_equal]
pub struct FlushView {
    pub mount_id: usize,
    pub ino: u64,
    pub pages: Seq<(u64, PhysFrame)>,
    pub index: int,
    pub stage: FlushStage,
}

impl View for Flush {
    type V = FlushView;

    open spec fn view(&self) -> FlushView {
        FlushView {
            mount_id: self.mount_id,
            ino: self.ino,
            pages: self.pages@,
            index: self.index as int,
            stage: self.stage,
        }
    }
}

/// Whether pages begin at offsets that a file can have.
pub open spec fn offsets_fit(pages: Seq<(u64, PhysFrame)>) -> bool {
    forall|i: int| 0 <= i < pages.len() ==> (#[trigger] pages[i]).0 * 4096 <= u64::MAX
}

/// The pages of a file that were written, in order.
pub open spec fn written_pages(cache: &PageCache, mount_id: usize, ino: u64) -> Seq<
    (u64, PhysFrame),
> {
    page_cache::dirty_from(cache.entries.keys@, cache.entries.values@, mount_id, ino, 0)
}

impl FlushView {
    pub open spec fn valid(self) -> bool {
        &&& offsets_fit(self.pages)
        &&& 0 <= self.index <= self.pages.len()
        &&& self.stage matches FlushStage::Writing { start_page, count } ==> self.index
            < self.pages.len() && start_page == self.pages[self.index].0 && count
            == page_cache::run_length(self.pages, self.index, 0)
    }

    /// The next request: the pages that follow one another, or, when all are on
    /// disk, that the file system writes what it has.
    pub open spec fn asked(self, m: MachineView) -> (FlushView, FlushRequestView) {
        if self.index >= self.pages.len() {
            (FlushView { stage: FlushStage::Syncing, ..self }, FlushRequestView::Sync)
        } else {
            let n = page_cache::run_length(self.pages, self.index, 0);
            let start_page = self.pages[self.index].0;
            match page_cache::run_bytes(m, self.pages, self.index, n) {
                None => (
                    FlushView { stage: FlushStage::Ended, ..self },
                    FlushRequestView::End(Err(VfsError::RedoxFs)),
                ),
                Some(data) => (
                    FlushView {
                        stage: FlushStage::Writing { start_page, count: n as usize },
                        ..self
                    },
                    FlushRequestView::Write { offset: start_page * 4096, data },
                ),
            }
        }
    }

    /// The flush when its file has its size: it starts with the first page.
    pub open spec fn collected(self, pages: Seq<(u64, PhysFrame)>) -> FlushView {
        FlushView { pages, index: 0, ..self }
    }

    /// How a flush goes on with an answer, and what becomes of the cache. The
    /// size is set as well as it can be; the first other failure ends it.
    pub open spec fn answered(
        self,
        m: MachineView,
        c: CacheView,
        pages: Seq<(u64, PhysFrame)>,
        answer: Result<(), VfsError>,
    ) -> (FlushView, CacheView, FlushRequestView) {
        let over = FlushView { stage: FlushStage::Ended, ..self };
        match self.stage {
            FlushStage::Truncating => {
                let (after, request) = self.collected(pages).asked(m);
                (after, c, request)
            },
            FlushStage::Writing { start_page, count } => match answer {
                Err(e) => (over, c, FlushRequestView::End(Err(e))),
                Ok(_) => {
                    let (after, request) = FlushView { index: self.index + count, ..self }.asked(m);
                    (
                        after,
                        c.cleaned(self.mount_id, self.ino, start_page, count as int),
                        request,
                    )
                },
            },
            FlushStage::Syncing => (over, c, FlushRequestView::End(answer)),
            FlushStage::Ended => (self, c, FlushRequestView::End(answer)),
        }
    }
}

/// A flush of a file that has not begun.
pub open spec fn waiting(mount_id: usize, ino: u64) -> FlushView {
    FlushView { mount_id, ino, pages: Seq::empty(), index: 0, stage: FlushStage::Truncating }
}

proof fn lemma_run_inside(pages: Seq<(u64, PhysFrame)>, i: int, n: int)
    requires
        0 <= i < pages.len(),
        0 <= n <= 16,
        i + n <= pages.len(),
        forall|x: int| 0 <= x < n ==> (#[trigger] pages[i + x]).0 == pages[i].0 + x,
    ensures
        ({
            let r = page_cache::run_length(pages, i, n);
            &&& n <= r <= 16
            &&& i + r <= pages.len()
            &&& n == 0 ==> r >= 1
            &&& forall|x: int| 0 <= x < r ==> (#[trigger] pages[i + x]).0 == pages[i].0 + x
        }),
    decreases 16 - n,
{
    if n >= 16 || i + n >= pages.len() || pages[i + n].0 != pages[i].0 + n {
    } else {
        lemma_run_inside(pages, i, n + 1);
    }
}

impl Flush {
    /// Asks for what is next.
    fn ask(&mut self, machine: &Machine) -> (r: FlushRequest)
        requires
            offsets_fit(old(self).pages@),
            old(self).index <= old(self).pages.len(),
        ensures
            (final(self)@, r@) == old(self)@.asked(machine@),
            final(self)@.valid(),
    {
        if self.index >= self.pages.len() {
            self.stage = FlushStage::Syncing;
            return FlushRequest::Sync;
        }
        match next_batch(machine, &self.pages, self.index) {
            Err(e) => {
                self.stage = FlushStage::Ended;
                FlushRequest::End(Err(e))
            },
            Ok(batch) => {
                self.stage = FlushStage::Writing {
                    start_page: batch.start_page,
                    count: batch.count,
                };
                assert(self.pages@[self.index as int].0 * 4096 <= u64::MAX);
                FlushRequest::Write { offset: batch.start_page * 4096, data: batch.data }
            },
        }
    }
}

/// Begins to write the pages of a file back: first the file gets the size that
/// it has here, if one is known.
pub fn flush_inode(machine: &Machine, cache: &PageCache, mount_id: usize, ino: u64) -> (r: (
    Flush,
    FlushRequest,
))
    requires
        cache.wf(),
        offsets_fit(written_pages(cache, mount_id, ino)),
    ensures
        r.0@.valid(),
        (r.0@, r.1@) == match cache@.file_size(mount_id, ino) {
            Some(size) => (waiting(mount_id, ino), FlushRequestView::Truncate { size }),
            None => waiting(mount_id, ino).collected(written_pages(cache, mount_id, ino)).asked(
                machine@,
            ),
        },
{
    let mut flush = Flush {
        mount_id,
        ino,
        pages: Vec::new(),
        index: 0,
        stage: FlushStage::Truncating,
    };
    assert(flush@ =~= waiting(mount_id, ino));
    match cache.get_file_size(mount_id, ino) {
        Some(size) => (flush, FlushRequest::Truncate { size }),
        None => {
            flush.pages = dirty_pages(cache, mount_id, ino);
            let request = flush.ask(machine);
            (flush, request)
        },
    }
}

/// Goes on with a flush when the file system has answered.
pub fn flush_answered(
    machine: &Machine,
    cache: &mut PageCache,
    flush: &mut Flush,
    answer: Result<(), VfsError>,
) -> (r: FlushRequest)
    requires
        old(cache).wf(),
        old(flush)@.valid(),
        offsets_fit(written_pages(old(cache), old(flush).mount_id, old(flush).ino)),
    ensures
        final(cache).wf(),
        final(flush)@.valid(),
        (final(flush)@, final(cache)@, r@) == old(flush)@.answered(
            machine@,
            old(cache)@,
            written_pages(old(cache), old(flush).mount_id, old(flush).ino),
            answer,
        ),
{
    match flush.stage {
        FlushStage::Truncating => {
            flush.pages = dirty_pages(cache, flush.mount_id, flush.ino);
            flush.index = 0;
            flush.ask(machine)
        },
        FlushStage::Writing { start_page, count } => match answer {
            Err(e) => {
                flush.stage = FlushStage::Ended;
                FlushRequest::End(Err(e))
            },
            Ok(_) => {
                proof {
                    lemma_run_inside(flush.pages@, flush.index as int, 0);
                    assert(flush.pages@[flush.index as int].0 * 4096 <= u64::MAX);
                    assert(flush.pages@.len() == flush.pages.len());
                }
                batch_written(cache, flush.mount_id, flush.ino, start_page, count);
                flush.index = flush.index + count;
                flush.ask(machine)
            },
        },
        FlushStage::Syncing => {
            flush.stage = FlushStage::Ended;
            FlushRequest::End(answer)
        },
        FlushStage::Ended => FlushRequest::End(answer),
    }
}

/// A flush of all files: those that are still to be flushed. What comes of one
/// does not stop the others.
pub struct FlushAll {
    pub files: Vec<(usize, u64)>,
    pub index: usize,
}

/// Begins to write all pages back: each file that pages are held of is flushed
/// once, in order.
pub fn flush_all(cache: &PageCache) -> (r: FlushAll)
    requires
        cache.wf(),
    ensures
        r.index == 0,
        r.files@ == page_cache::files_of(
            cache.entries.keys@,
            cache.entries.keys.len() as int,
        ),
{
    FlushAll { files: files_held(cache), index: 0 }
}

/// The next file to flush; none when all were.
pub fn next_file(all: &mut FlushAll) -> (r: Option<(usize, u64)>)
    ensures
        final(all).files@ == old(all).files@,
        if old(all).index < old(all).files.len() {
            r == Some(old(all).files@[old(all).index as int]) && final(all).index == old(all).index
                + 1
        } else {
            r is None && final(all).index == old(all).index
        },
{
    if all.index < all.files.len() {
        let file = all.files[all.index];
        all.index = all.index + 1;
        Some(file)
    } else {
        None
    }
}

// ---------------------------------------------------------------------------
// Laws
// ---------------------------------------------------------------------------
/// The cache when the pages from `index` on are on disk.
pub open spec fn flushed(
    c: CacheView,
    mount_id: usize,
    ino: u64,
    pages: Seq<(u64, PhysFrame)>,
    index: int,
) -> CacheView
    decreases pages.len() - index,
{
    let n = page_cache::run_length(pages, index, 0);
    if index >= pages.len() || n <= 0 || index + n > pages.len() {
        c
    } else {
        flushed(c.cleaned(mount_id, ino, pages[index].0, n), mount_id, ino, pages, index + n)
    }
}

proof fn lemma_cleaned(c: CacheView, mount_id: usize, ino: u64, start: u64, n: int, k: PageKey)
    requires
        0 <= n,
        start + n <= u64::MAX + 1,
    ensures
        ({
            let w = c.cleaned(mount_id, ino, start, n);
            let hit = k.mount_id == mount_id && k.ino == ino && start <= k.page_index < start + n;
            &&& w.entries.dom() == c.entries.dom()
            &&& c.entries.dom().contains(k) ==> w.entries[k] == (if hit {
                PageEntry { dirty: false, ..c.entries[k] }
            } else {
                c.entries[k]
            })
        }),
    decreases n,
{
    if n > 0 {
        lemma_cleaned(c, mount_id, ino, start, n - 1, k);
        let w = c.cleaned(mount_id, ino, start, n);
        assert(w.entries.dom() =~= c.entries.dom());
    }
}

/// Whether page `p` is among the pages from `i` on.
pub open spec fn is_among(pages: Seq<(u64, PhysFrame)>, i: int, p: u64) -> bool {
    exists|x: int| i <= x < pages.len() && (#[trigger] pages[x]).0 == p
}

proof fn lemma_flushed(
    c: CacheView,
    mount_id: usize,
    ino: u64,
    pages: Seq<(u64, PhysFrame)>,
    index: int,
    k: PageKey,
)
    requires
        0 <= index,
        offsets_fit(pages),
    ensures
        ({
            let w = flushed(c, mount_id, ino, pages, index);
            let hit = k.mount_id == mount_id && k.ino == ino && is_among(
                pages,
                index,
                k.page_index,
            );
            &&& w.entries.dom() == c.entries.dom()
            &&& c.entries.dom().contains(k) ==> w.entries[k] == (if hit {
                PageEntry { dirty: false, ..c.entries[k] }
            } else {
                c.entries[k]
            })
        }),
    decreases pages.len() - index,
{
    if index < pages.len() {
        lemma_run_inside(pages, index, 0);
        let n = page_cache::run_length(pages, index, 0);
        let start = pages[index].0;
        assert(start * 4096 <= u64::MAX);
        let next = c.cleaned(mount_id, ino, start, n);
        lemma_cleaned(c, mount_id, ino, start, n, k);
        lemma_flushed(next, mount_id, ino, pages, index + n, k);
        if start <= k.page_index < start + n {
            let x = k.page_index - start;
            assert(pages[index + x].0 == start + x);
            assert(is_among(pages, index, k.page_index));
        } else if is_among(pages, index, k.page_index) {
            let x = choose|x: int|
                index <= x < pages.len() && (#[trigger] pages[x]).0 == k.page_index;
            if x < index + n {
                assert(pages[index + (x - index)].0 == start + (x - index));
            }
            assert(is_among(pages, index + n, k.page_index));
        }
    }
}

proof fn lemma_dirty_is_among(
    keys: Seq<PageKey>,
    entries: Seq<PageEntry>,
    mount_id: usize,
    ino: u64,
    i: int,
    j: int,
)
    requires
        0 <= i <= j < keys.len(),
        keys[j].mount_id == mount_id,
        keys[j].ino == ino,
        entries[j].dirty,
    ensures
        is_among(
            page_cache::dirty_from(keys, entries, mount_id, ino, i),
            0,
            keys[j].page_index,
        ),
    decreases keys.len() - i,
{
    let all = page_cache::dirty_from(keys, entries, mount_id, ino, i);
    let more = page_cache::dirty_from(keys, entries, mount_id, ino, i + 1);
    if i == j {
        assert(all[0].0 == keys[j].page_index);
    } else {
        lemma_dirty_is_among(keys, entries, mount_id, ino, i + 1, j);
        let x = choose|x: int| 0 <= x < more.len() && (#[trigger] more[x]).0 == keys[j].page_index;
        if all.len() == more.len() + 1 {
            assert(all[x + 1] == more[x]);
        } else {
            assert(all[x] == more[x]);
        }
    }
}

/// A flush whose requests all succeed leaves no page of its file marked as
/// written, and nothing else of any page changed.
pub proof fn law_flushed_is_clean(
    keys: Seq<PageKey>,
    entries: Seq<PageEntry>,
    c: CacheView,
    mount_id: usize,
    ino: u64,
    k: PageKey,
)
    requires
        pagemap::ascending(keys),
        keys.len() == entries.len(),
        c.entries == pagemap::paired(keys, entries),
        offsets_fit(page_cache::dirty_from(keys, entries, mount_id, ino, 0)),
        c.entries.dom().contains(k),
    ensures
        ({
            let pages = page_cache::dirty_from(keys, entries, mount_id, ino, 0);
            let w = flushed(c, mount_id, ino, pages, 0);
            &&& w.entries.dom() == c.entries.dom()
            &&& k.mount_id == mount_id && k.ino == ino ==> w.entries[k] == (PageEntry {
                dirty: false,
                ..c.entries[k]
            })
            &&& k.mount_id != mount_id || k.ino != ino ==> w.entries[k] == c.entries[k]
        }),
{
    let pages = page_cache::dirty_from(keys, entries, mount_id, ino, 0);
    lemma_flushed(c, mount_id, ino, pages, 0, k);
    let j = keys.index_of(k);
    assert(keys.contains(k));
    assert(keys[j] == k);
    pagemap::lemma_paired(keys, entries, j);
    if k.mount_id == mount_id && k.ino == ino && c.entries[k].dirty {
        lemma_dirty_is_among(keys, entries, mount_id, ino, 0, j);
    }
}

/// Each answer that pages are on disk brings a flush on: what is left to do
/// leads to the same cache, and when the file system is asked to write what it
/// has, the cache is that one.
pub proof fn law_flush_goes_on(
    m: MachineView,
    c: CacheView,
    f: FlushView,
    pages: Seq<(u64, PhysFrame)>,
)
    requires
        f.valid(),
        f.stage is Writing,
    ensures
        ({
            let (after, w, request) = f.answered(m, c, pages, Ok(()));
            let goal = flushed(c, f.mount_id, f.ino, f.pages, f.index);
            &&& after.index > f.index
            &&& flushed(w, f.mount_id, f.ino, after.pages, after.index) == goal
            &&& after.pages == f.pages && after.mount_id == f.mount_id && after.ino == f.ino
            &&& request is Sync ==> w == goal
        }),
{
    lemma_run_inside(f.pages, f.index, 0);
}

} // verus!
