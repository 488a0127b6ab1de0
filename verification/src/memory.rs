//! Physical frames: a binary buddy allocator with reference counts, for blocks
//! of 4 KiB to 4 MiB.
use vstd::prelude::*;

verus! {

pub const PAGE_SIZE: u64 = 4096;

/// Orders 0 to 10.
pub const MAX_ORDER: usize = 11;

/// 64 GiB of physical addresses.
pub const MAX_SUPPORTED_FRAMES: usize = 16_777_216;

pub const MAX_TRACKED_FRAMES: usize = MAX_SUPPORTED_FRAMES;

/// Bytes of bookkeeping for each frame: two links, a status byte and a count.
const FRAME_METADATA: u64 = 11;

#[derive(Clone, Copy, Debug, PartialEq, Eq, Structural)]
pub struct PhysFrame(pub u64);

impl PhysFrame {
    pub fn start_address(self) -> (r: u64)
        ensures
            r == self.0,
    {
        self.0
    }
}

#[derive(Clone, Copy, Debug, PartialEq, Eq, Structural)]
pub struct MemoryStats {
    pub usable_bytes: u64,
    pub usable_frames: usize,
    pub tracked_frames: usize,
    pub map_entries: usize,
}

impl MemoryStats {
    pub fn empty() -> (r: Self)
        ensures
            r == (MemoryStats {
                usable_bytes: 0,
                usable_frames: 0,
                tracked_frames: 0,
                map_entries: 0,
            }),
    {
        MemoryStats { usable_bytes: 0, usable_frames: 0, tracked_frames: 0, map_entries: 0 }
    }
}

// ---------------------------------------------------------------------------
// Blocks
// ---------------------------------------------------------------------------
/// The number of frames in a block of the given order.
pub open spec fn span(order: int) -> int
    decreases order,
{
    if order <= 0 {
        1
    } else {
        2 * span(order - 1)
    }
}

/// The block that together with this one makes a block of the next order.
pub open spec fn buddy(p: int, order: int) -> int {
    if p / span(order) % 2 == 0 {
        p + span(order)
    } else {
        p - span(order)
    }
}

pub open spec fn lesser(a: int, b: int) -> int {
    if a <= b {
        a
    } else {
        b
    }
}

proof fn lemma_span(k: int)
    requires
        0 <= k <= 10,
    ensures
        1 <= span(k) <= 1024,
        k > 0 ==> span(k) == 2 * span(k - 1),
{
    reveal_with_fuel(span, 12);
}

#[verifier::spinoff_prover]
#[verifier::rlimit(60)]
proof fn lemma_buddy(p: int, k: int)
    requires
        0 <= p,
        0 <= k < 10,
        p % span(k) == 0,
    ensures
        buddy(p, k) >= 0,
        buddy(p, k) % span(k) == 0,
        lesser(p, buddy(p, k)) % span(k + 1) == 0,
        buddy(p, k) == p + span(k) || buddy(p, k) == p - span(k),
{
    reveal_with_fuel(span, 12);
    let s = span(k);
    assert(s == 1 || s == 2 || s == 4 || s == 8 || s == 16 || s == 32 || s == 64 || s == 128 || s
        == 256 || s == 512);
    let b = buddy(p, k);
    if s == 1 {
        assert(b % 1 == 0 && lesser(p, b) % 2 == 0);
    } else if s == 2 {
        assert(b % 2 == 0 && lesser(p, b) % 4 == 0);
    } else if s == 4 {
        assert(b % 4 == 0 && lesser(p, b) % 8 == 0);
    } else if s == 8 {
        assert(b % 8 == 0 && lesser(p, b) % 16 == 0);
    } else if s == 16 {
        assert(b % 16 == 0 && lesser(p, b) % 32 == 0);
    } else if s == 32 {
        assert(b % 32 == 0 && lesser(p, b) % 64 == 0);
    } else if s == 64 {
        assert(b % 64 == 0 && lesser(p, b) % 128 == 0);
    } else if s == 128 {
        assert(b % 128 == 0 && lesser(p, b) % 256 == 0);
    } else if s == 256 {
        assert(b % 256 == 0 && lesser(p, b) % 512 == 0);
    } else {
        assert(b % 512 == 0 && lesser(p, b) % 1024 == 0);
    }
}

/// Halving a block gives two blocks.
proof fn lemma_halves(p: int, k: int)
    requires
        0 <= p,
        0 < k <= 10,
        p % span(k) == 0,
    ensures
        p % span(k - 1) == 0,
        (p + span(k - 1)) % span(k - 1) == 0,
{
    reveal_with_fuel(span, 12);
    let s = span(k - 1);
    assert(span(k) == 2 * s);
    assert(p % (2 * s) == 0);
    assert(s == 1 || s == 2 || s == 4 || s == 8 || s == 16 || s == 32 || s == 64 || s == 128 || s
        == 256 || s == 512);
    if s == 1 {
    } else if s == 2 {
        assert(p % 2 == 0 && (p + 2) % 2 == 0);
    } else if s == 4 {
        assert(p % 4 == 0 && (p + 4) % 4 == 0);
    } else if s == 8 {
        assert(p % 8 == 0 && (p + 8) % 8 == 0);
    } else if s == 16 {
        assert(p % 16 == 0 && (p + 16) % 16 == 0);
    } else if s == 32 {
        assert(p % 32 == 0 && (p + 32) % 32 == 0);
    } else if s == 64 {
        assert(p % 64 == 0 && (p + 64) % 64 == 0);
    } else if s == 128 {
        assert(p % 128 == 0 && (p + 128) % 128 == 0);
    } else if s == 256 {
        assert(p % 256 == 0 && (p + 256) % 256 == 0);
    } else {
        assert(s == 512 && p % 1024 == 0);
        assert(p % 512 == 0 && (p + 512) % 512 == 0);
    }
}

fn block_size(order: usize) -> (r: usize)
    requires
        order <= 10,
    ensures
        r == span(order as int),
        1 <= r <= 1024,
{
    proof {
        reveal_with_fuel(span, 12);
    }
    match order {
        0 => 1,
        1 => 2,
        2 => 4,
        3 => 8,
        4 => 16,
        5 => 32,
        6 => 64,
        7 => 128,
        8 => 256,
        9 => 512,
        _ => 1024,
    }
}

// ---------------------------------------------------------------------------
// The allocator
// ---------------------------------------------------------------------------
/// What is kept of one frame: its links in a free list, the order of the block
/// that it heads, its marks, and how many users it has.
#[derive(Clone, Copy, Debug)]
pub struct Frame {
    pub next: Option<usize>,
    pub prev: Option<usize>,
    pub order: usize,
    pub free: bool,
    pub allocated: bool,
    pub reserved: bool,
    pub refcount: u16,
}

/// A frame without its links.
pub struct FrameView {
    pub order: int,
    pub free: bool,
    pub allocated: bool,
    pub reserved: bool,
    pub refcount: u16,
}

/// The allocator's model: the free blocks of each order, first to be handed
/// out first, and the state of every frame.
#[verifier::ext_equal]
pub struct BuddyView {
    pub lists: Seq<Seq<int>>,
    pub frames: Seq<FrameView>,
}

impl BuddyView {
    /// A block starts here: a free one, or one that was handed out.
    pub open spec fn head(self, p: int) -> bool {
        self.frames[p].free || self.frames[p].allocated
    }

    /// The free blocks are those in the lists, each in the list of its order,
    /// once; blocks are aligned, lie in memory and do not overlap; only blocks
    /// that were handed out have users. Frame 0 is never free.
    pub open spec fn valid(self) -> bool {
        &&& self.lists.len() == 11
        &&& self.frames.len() <= MAX_SUPPORTED_FRAMES
        &&& self.frames.len() > 0 ==> !self.frames[0].free
        &&& forall|k: int, i: int|
            #![trigger self.lists[k][i]]
            0 <= k < 11 && 0 <= i < self.lists[k].len() ==> {
                &&& 0 <= self.lists[k][i] < self.frames.len()
                &&& self.frames[self.lists[k][i]].free
                &&& self.frames[self.lists[k][i]].order == k
            }
        &&& forall|k: int| 0 <= k < 11 ==> (#[trigger] self.lists[k]).no_duplicates()
        &&& forall|p: int|
            0 <= p < self.frames.len() && (#[trigger] self.frames[p]).free
                ==> self.lists[self.frames[p].order].contains(p)
        &&& forall|p: int|
            0 <= p < self.frames.len() && #[trigger] self.head(p) ==> self.block_inside(
                p,
                self.frames[p].order,
            )
        &&& forall|p: int, q: int|
            #![trigger self.head(p), self.head(q)]
            0 <= p < q < self.frames.len() && self.head(p) && self.head(q) ==> p + span(
                self.frames[p].order,
            ) <= q
        &&& forall|p: int|
            0 <= p < self.frames.len() ==> {
                &&& (#[trigger] self.frames[p]).free ==> !self.frames[p].allocated
                &&& self.frames[p].refcount > 0 ==> self.frames[p].allocated
            }
    }

    pub open spec fn block_inside(self, p: int, order: int) -> bool {
        &&& 0 <= order < 11
        &&& 0 <= p
        &&& p % span(order) == 0
        &&& p + span(order) <= self.frames.len()
    }

    /// No block lies in, or reaches into, the frames from `p` to `q`.
    pub open spec fn hole(self, p: int, q: int) -> bool {
        &&& forall|h: int|
            0 <= h < self.frames.len() && #[trigger] self.head(h) ==> h >= q || h + span(
                self.frames[h].order,
            ) <= p
    }

    /// The number of frames in free blocks.
    pub open spec fn free_total(self) -> int {
        total_from(self.lists, 0)
    }

    /// Block `p` put first in the list of its order.
    pub open spec fn push(self, order: int, p: int) -> BuddyView {
        BuddyView {
            lists: self.lists.update(order, seq![p] + self.lists[order]),
            frames: self.frames.update(
                p,
                FrameView {
                    order,
                    free: true,
                    allocated: false,
                    reserved: false,
                    refcount: self.frames[p].refcount,
                },
            ),
        }
    }

    /// Free block `p` taken out of its list.
    pub open spec fn take(self, order: int, p: int) -> BuddyView {
        BuddyView {
            lists: self.lists.update(order, self.lists[order].remove(self.lists[order].index_of(p))),
            frames: self.frames.update(p, FrameView { free: false, ..self.frames[p] }),
        }
    }
}

pub open spec fn total_from(lists: Seq<Seq<int>>, k: int) -> int
    decreases 11 - k,
{
    if k >= 11 {
        0
    } else {
        lists[k].len() * span(k) + total_from(lists, k + 1)
    }
}

/// Whether the users of a frame are counted in order: it was handed out, or it
/// is none of the frames.
pub open spec fn counts_right(v: BuddyView, p: int) -> bool {
    p < v.frames.len() ==> v.frames[p].allocated
}

pub struct BuddyAllocator {
    pub free_lists: Vec<Option<usize>>,
    pub frames: Vec<Frame>,
    pub total_usable_frames: usize,
    pub free_frames: usize,
    pub lists: Ghost<Seq<Seq<int>>>,
    /// The frames that are counted as usable.
    pub usable: Ghost<Set<int>>,
}

pub open spec fn link(list: Seq<int>, i: int) -> Option<usize> {
    if 0 <= i < list.len() {
        Some(list[i] as usize)
    } else {
        None
    }
}

impl BuddyAllocator {
    pub open spec fn view(&self) -> BuddyView {
        BuddyView {
            lists: self.lists@,
            frames: self.frames@.map_values(
                |f: Frame|
                    FrameView {
                        order: f.order as int,
                        free: f.free,
                        allocated: f.allocated,
                        reserved: f.reserved,
                        refcount: f.refcount,
                    },
            ),
        }
    }

    /// The links spell out the lists.
    pub open spec fn linked(&self) -> bool {
        &&& self.free_lists.len() == 11
        &&& self.lists@.len() == 11
        &&& forall|k: int| 0 <= k < 11 ==> #[trigger] self.free_lists@[k] == link(self.lists@[k], 0)
        &&& forall|k: int, i: int|
            #![trigger self.lists@[k][i]]
            0 <= k < 11 && 0 <= i < self.lists@[k].len() ==> {
                &&& self.frames@[self.lists@[k][i]].prev == link(self.lists@[k], i - 1)
                &&& self.frames@[self.lists@[k][i]].next == link(self.lists@[k], i + 1)
            }
    }

    /// The usable frames are counted, and each is in a block.
    #[verifier::opaque]
    pub open spec fn usable_counted(&self) -> bool {
        &&& self.usable@.finite()
        &&& self.usable@.len() == self.total_usable_frames
        &&& forall|q: int| #[trigger]
            self.usable@.contains(q) ==> 0 <= q < self@.frames.len() && self@.covers(q)
    }

    pub open spec fn wf(&self) -> bool {
        &&& self@.valid()
        &&& self.linked()
        &&& self.free_frames == self@.free_total()
        &&& self.usable_counted()
    }

    /// All is in order but for the frames that are counted as usable.
    spec fn settled(&self) -> bool {
        self.in_order() && self.free_frames == self@.free_total()
    }

    /// The lists and links are in order; the count may be behind.
    spec fn in_order(&self) -> bool {
        self@.valid() && self.linked()
    }

    fn list_push(&mut self, order: usize, pfn: usize)
        requires
            old(self).in_order(),
            order < 11,
            pfn > 0,
            !old(self)@.head(pfn as int),
            old(self)@.frames[pfn as int].refcount == 0,
            old(self)@.block_inside(pfn as int, order as int),
            old(self)@.hole(pfn as int, pfn + span(order as int)),
        ensures
            final(self).in_order(),
            final(self)@ == old(self)@.push(order as int, pfn as int),
            final(self).total_usable_frames == old(self).total_usable_frames,
            final(self).free_frames == old(self).free_frames,
            final(self).usable == old(self).usable,
            final(self)@.free_total() == old(self)@.free_total() + span(order as int),
            final(self).frames.len() == old(self).frames.len(),
    {
        proof {
            lemma_span(order as int);
        }
        let ghost before = *self;
        let head = self.free_lists[order];
        let was = self.frames[pfn];
        if let Some(h) = head {
            assert(before.lists@[order as int][0] == h);
            let other = self.frames[h];
            self.frames[h] = Frame { prev: Some(pfn), ..other };
        }
        self.frames[pfn] = Frame {
            next: head,
            prev: None,
            order,
            free: true,
            allocated: false,
            reserved: false,
            refcount: was.refcount,
        };
        self.free_lists[order] = Some(pfn);
        self.lists = Ghost(
            self.lists@.update(order as int, seq![pfn as int] + self.lists@[order as int]),
        );
        proof {
            let k = order as int;
            let p = pfn as int;
            let l = before.lists@[k];
            let m = self.lists@[k];
            assert(m == seq![p] + l);
            assert(self@ =~= before@.push(k, p)) by {
                assert(self@.frames =~= before@.push(k, p).frames);
                assert(self@.lists =~= before@.push(k, p).lists);
            }
            lemma_push_valid(before@, k, p);
            assert forall|j: int, i: int|
                #![trigger self.lists@[j][i]]
                0 <= j < 11 && 0 <= i < self.lists@[j].len() implies {
                &&& self.frames@[self.lists@[j][i]].prev == link(self.lists@[j], i - 1)
                &&& self.frames@[self.lists@[j][i]].next == link(self.lists@[j], i + 1)
            } by {
                let x = self.lists@[j][i];
                if j == k {
                    if i == 0 {
                        assert(l.len() > 0 ==> m[1] == l[0]);
                    } else {
                        assert(x == l[i - 1]);
                        assert(before.lists@[j][i - 1] == x);
                        assert(before@.lists[j][i - 1] == x);
                        assert(before@.frames[x].free);
                        assert(i > 1 ==> m[i - 1] == l[i - 2]);
                        assert(i < l.len() ==> m[i + 1] == l[i]);
                        if i > 1 {
                            assert(l.no_duplicates());
                            assert(l[0] != x);
                        }
                    }
                } else {
                    assert(before.lists@[j][i] == x);
                    assert(before@.lists[j][i] == x);
                    assert(before@.frames[x].free && before@.frames[x].order == j);
                    if head.is_some() {
                        assert(before@.lists[k][0] == l[0]);
                        assert(before@.frames[l[0]].order == k);
                    }
                }
            }
        }
    }

    #[verifier::rlimit(60)]
    fn list_remove(&mut self, order: usize, pfn: usize)
        requires
            old(self).in_order(),
            pfn < old(self).frames.len(),
            old(self).frames@[pfn as int].free,
            old(self).frames@[pfn as int].order == order,
        ensures
            final(self).in_order(),
            final(self)@ == old(self)@.take(order as int, pfn as int),
            final(self).usable == old(self).usable,
            final(self).total_usable_frames == old(self).total_usable_frames,
            final(self).free_frames == old(self).free_frames,
            final(self)@.free_total() == old(self)@.free_total() - span(order as int),
            final(self)@.hole(pfn as int, pfn + span(order as int)),
            final(self).frames.len() == old(self).frames.len(),
    {
        let ghost before = *self;
        let ghost k = order as int;
        let ghost p = pfn as int;
        let ghost l = self.lists@[k];
        let ghost at = l.index_of(p);
        proof {
            assert(before@.frames[p].free);
            assert(before@.head(p));
            assert(l.contains(p));
            assert(0 <= at < l.len() && l[at] == p);
            assert(before.lists@[k][at] == p);
            assert(before@.lists[k].no_duplicates());
        }
        let was = self.frames[pfn];
        let prev = was.prev;
        let next = was.next;
        match prev {
            Some(q) => {
                assert(before.lists@[k][at - 1] == q && before@.lists[k][at - 1] == q);
                let other = self.frames[q];
                self.frames[q] = Frame { next, ..other };
            },
            None => {
                self.free_lists[order] = next;
            },
        }
        if let Some(q) = next {
            assert(before.lists@[k][at + 1] == q && before@.lists[k][at + 1] == q);
            let other = self.frames[q];
            self.frames[q] = Frame { prev, ..other };
        }
        self.frames[pfn] = Frame { prev: None, next: None, free: false, ..was };
        self.lists = Ghost(self.lists@.update(k, l.remove(at)));
        proof {
            let m = self.lists@[k];
            assert(m == l.remove(at));
            if at > 0 {
                assert(l[at - 1] != p);
            }
            if at + 1 < l.len() {
                assert(l[at + 1] != p);
                if at > 0 {
                    assert(l[at + 1] != l[at - 1]);
                }
            }
            assert(self@ =~= before@.take(k, p)) by {
                assert(self@.frames =~= before@.take(k, p).frames);
                assert(self@.lists =~= before@.take(k, p).lists);
            }
            lemma_take_valid(before@, k, p);
            assert forall|j: int, i: int|
                #![trigger self.lists@[j][i]]
                0 <= j < 11 && 0 <= i < self.lists@[j].len() implies {
                &&& self.frames@[self.lists@[j][i]].prev == link(self.lists@[j], i - 1)
                &&& self.frames@[self.lists@[j][i]].next == link(self.lists@[j], i + 1)
            } by {
                let x = self.lists@[j][i];
                if j == k {
                    let o = if i < at {
                        i
                    } else {
                        i + 1
                    };
                    assert(x == l[o] && o != at);
                    assert(before.lists@[k][o] == x && before@.lists[k][o] == x);
                    assert(x != p);
                    assert(at > 0 && o != at - 1 ==> x != l[at - 1]);
                    assert(at + 1 < l.len() && o != at + 1 ==> x != l[at + 1]);
                    assert(i - 1 >= 0 ==> m[i - 1] == l[if i - 1 < at {
                        i - 1
                    } else {
                        i
                    }]);
                    assert(i + 1 < m.len() ==> m[i + 1] == l[if i + 1 < at {
                        i + 1
                    } else {
                        i + 2
                    }]);
                } else {
                    assert(before.lists@[j][i] == x && before@.lists[j][i] == x);
                    assert(before@.frames[x].order == j);
                }
            }
        }
    }
}

proof fn lemma_total_update(lists: Seq<Seq<int>>, other: Seq<Seq<int>>, from: int, k: int)
    requires
        lists.len() == 11,
        other.len() == 11,
        0 <= k < 11,
        0 <= from,
        forall|j: int| 0 <= j < 11 && j != k ==> lists[j] == other[j],
    ensures
        total_from(other, from) == total_from(lists, from) + (if from <= k {
            (other[k].len() - lists[k].len()) * span(k)
        } else {
            0
        }),
    decreases 11 - from,
{
    if from < 11 {
        lemma_total_update(lists, other, from + 1, k);
        if from == k {
            let a = lists[k].len() as int;
            let b = other[k].len() as int;
            let s = span(k);
            assert(b * s == a * s + (b - a) * s) by (nonlinear_arith);
        }
    }
}

proof fn lemma_push_valid(v: BuddyView, k: int, p: int)
    requires
        v.valid(),
        0 <= k < 11,
        p > 0,
        !v.head(p),
        v.frames[p].refcount == 0,
        v.block_inside(p, k),
        v.hole(p, p + span(k)),
    ensures
        v.push(k, p).valid(),
        v.push(k, p).free_total() == v.free_total() + span(k),
{
    let w = v.push(k, p);
    lemma_span(k);
    lemma_total_update(v.lists, w.lists, 0, k);
    assert(w.lists[k].len() - v.lists[k].len() == 1);
    assert(1 * span(k) == span(k));
    assert forall|j: int, i: int|
        #![trigger w.lists[j][i]]
        0 <= j < 11 && 0 <= i < w.lists[j].len() implies {
        &&& 0 <= w.lists[j][i] < w.frames.len()
        &&& w.frames[w.lists[j][i]].free
        &&& w.frames[w.lists[j][i]].order == j
    } by {
        if j == k && i > 0 {
            assert(w.lists[j][i] == v.lists[k][i - 1]);
        } else if j != k {
            assert(w.lists[j][i] == v.lists[j][i]);
        }
    }
    assert forall|j: int| 0 <= j < 11 implies (#[trigger] w.lists[j]).no_duplicates() by {
        assert(v.lists[j].no_duplicates());
        if j == k {
            assert forall|a: int, b: int|
                0 <= a < b < w.lists[k].len() implies w.lists[k][a] != w.lists[k][b] by {
                assert(w.lists[k][b] == v.lists[k][b - 1]);
                assert(v.frames[v.lists[k][b - 1]].free);
                if a > 0 {
                    assert(w.lists[k][a] == v.lists[k][a - 1]);
                }
            }
        }
    }
    assert forall|q: int| 0 <= q < w.frames.len() && (#[trigger] w.frames[q]).free implies w.lists[
    w.frames[q].order].contains(q) by {
        if q == p {
            assert(w.lists[k][0] == p);
        } else {
            assert(v.frames[q].free);
            let j = v.frames[q].order;
            assert(v.head(q));
            let i = v.lists[j].index_of(q);
            assert(v.lists[j].contains(q));
            assert(v.lists[j][i] == q);
            if j == k {
                assert(w.lists[k][i + 1] == q);
            } else {
                assert(w.lists[j][i] == q);
            }
        }
    }
    assert forall|q: int| 0 <= q < w.frames.len() && #[trigger] w.head(q) implies w.block_inside(
        q,
        w.frames[q].order,
    ) by {
        if q != p {
            assert(v.head(q));
        }
    }
    assert forall|a: int, b: int|
        #![trigger w.head(a), w.head(b)]
        0 <= a < b < w.frames.len() && w.head(a) && w.head(b) implies a + span(w.frames[a].order)
        <= b by {
        if a != p {
            assert(v.head(a));
            lemma_span(v.frames[a].order);
        }
        if b != p {
            assert(v.head(b));
            lemma_span(v.frames[b].order);
        }
    }
}

proof fn lemma_take_valid(v: BuddyView, k: int, p: int)
    requires
        v.valid(),
        0 <= p < v.frames.len(),
        v.frames[p].free,
        v.frames[p].order == k,
    ensures
        v.take(k, p).valid(),
        v.take(k, p).free_total() == v.free_total() - span(k),
        v.take(k, p).hole(p, p + span(k)),
        v.lists[k].contains(p),
{
    let w = v.take(k, p);
    let l = v.lists[k];
    let at = l.index_of(p);
    assert(v.head(p));
    lemma_span(k);
    assert(l.contains(p));
    assert(l.no_duplicates());
    lemma_total_update(v.lists, w.lists, 0, k);
    assert(w.lists[k].len() - v.lists[k].len() == -1);
    assert(-1 * span(k) == -span(k));
    assert forall|j: int, i: int|
        #![trigger w.lists[j][i]]
        0 <= j < 11 && 0 <= i < w.lists[j].len() implies {
        &&& 0 <= w.lists[j][i] < w.frames.len()
        &&& w.frames[w.lists[j][i]].free
        &&& w.frames[w.lists[j][i]].order == j
    } by {
        if j == k {
            let o = if i < at {
                i
            } else {
                i + 1
            };
            assert(w.lists[j][i] == v.lists[k][o]);
            assert(l[o] != l[at]);
        } else {
            assert(w.lists[j][i] == v.lists[j][i]);
        }
    }
    assert forall|j: int| 0 <= j < 11 implies (#[trigger] w.lists[j]).no_duplicates() by {
        assert(v.lists[j].no_duplicates());
    }
    assert forall|q: int| 0 <= q < w.frames.len() && (#[trigger] w.frames[q]).free implies w.lists[
    w.frames[q].order].contains(q) by {
        assert(q != p);
        assert(v.frames[q].free);
        let j = v.frames[q].order;
        assert(v.head(q));
        let i = v.lists[j].index_of(q);
        assert(v.lists[j].contains(q));
        assert(v.lists[j][i] == q);
        if j == k {
            if i < at {
                assert(w.lists[k][i] == q);
            } else {
                assert(i != at);
                assert(w.lists[k][i - 1] == q);
            }
        } else {
            assert(w.lists[j][i] == q);
        }
    }
    assert forall|q: int| 0 <= q < w.frames.len() && #[trigger] w.head(q) implies w.block_inside(
        q,
        w.frames[q].order,
    ) by {
        assert(v.head(q));
    }
    assert forall|a: int, b: int|
        #![trigger w.head(a), w.head(b)]
        0 <= a < b < w.frames.len() && w.head(a) && w.head(b) implies a + span(w.frames[a].order)
        <= b by {
        assert(v.head(a) && v.head(b));
    }
    assert forall|h: int| 0 <= h < w.frames.len() && #[trigger] w.head(h) implies h >= p + span(k)
        || h + span(w.frames[h].order) <= p by {
        assert(v.head(h));
        assert(h != p);
        if h < p {
            assert(v.head(h) && v.head(p));
        } else {
            assert(v.head(p) && v.head(h));
        }
    }
}

proof fn lemma_distinct_below(s: Seq<int>, m: int)
    requires
        s.no_duplicates(),
        0 <= m,
        forall|i: int| 0 <= i < s.len() ==> 0 <= #[trigger] s[i] < m,
    ensures
        s.len() <= m,
{
    s.unique_seq_to_set();
    vstd::set_lib::lemma_int_range(0, m);
    assert(s.to_set().subset_of(vstd::set_lib::set_int_range(0, m)));
    vstd::set_lib::lemma_len_subset(s.to_set(), vstd::set_lib::set_int_range(0, m));
}

proof fn lemma_list_fits(v: BuddyView, k: int)
    requires
        v.valid(),
        0 <= k < 11,
    ensures
        v.lists[k].len() * span(k) <= v.frames.len(),
{
    lemma_span(k);
    let s = span(k);
    let l = v.lists[k];
    let n = v.frames.len() as int;
    let m = n / s;
    let q = Seq::new(l.len(), |i: int| l[i] / s);
    assert(l.no_duplicates());
    assert forall|i: int| 0 <= i < l.len() implies 0 <= #[trigger] l[i] && l[i] == (l[i] / s) * s
        && l[i] / s < m by {
        let p = v.lists[k][i];
        assert(v.head(p));
        assert(p % s == 0 && p + s <= n);
        vstd::arithmetic::div_mod::lemma_fundamental_div_mod(p, s);
        assert(p == (p / s) * s) by (nonlinear_arith)
            requires
                p == s * (p / s) + p % s,
                p % s == 0,
        ;
        vstd::arithmetic::div_mod::lemma_fundamental_div_mod(n, s);
        assert(p / s < n / s) by (nonlinear_arith)
            requires
                p == (p / s) * s,
                n == s * (n / s) + n % s,
                0 <= n % s < s,
                p + s <= n,
                s > 0,
        ;
    }
    assert forall|i: int| 0 <= i < q.len() implies 0 <= #[trigger] q[i] < m by {
        assert(l[i] == (l[i] / s) * s);
        assert(0 <= l[i] / s) by (nonlinear_arith)
            requires
                0 <= l[i],
                s > 0,
        ;
    }
    assert(q.no_duplicates()) by {
        assert forall|i: int, j: int| 0 <= i < j < q.len() implies q[i] != q[j] by {
            assert(l[i] == (l[i] / s) * s && l[j] == (l[j] / s) * s);
            assert(l[i] != l[j]);
        }
    }
    assert(0 <= m) by (nonlinear_arith)
        requires
            m == n / s,
            n >= 0,
            s > 0,
    ;
    lemma_distinct_below(q, m);
    vstd::arithmetic::div_mod::lemma_fundamental_div_mod(n, s);
    assert(l.len() * s <= n) by (nonlinear_arith)
        requires
            l.len() <= m,
            m == n / s,
            n == s * (n / s) + n % s,
            0 <= n % s,
            s > 0,
    ;
}

proof fn lemma_total_bound(v: BuddyView, k: int)
    requires
        v.valid(),
        0 <= k <= 11,
    ensures
        0 <= total_from(v.lists, k) <= (11 - k) * v.frames.len(),
    decreases 11 - k,
{
    if k < 11 {
        lemma_list_fits(v, k);
        lemma_total_bound(v, k + 1);
        lemma_span(k);
        let n = v.frames.len() as int;
        let c = v.lists[k].len() as int;
        assert(0 <= c * span(k)) by (nonlinear_arith)
            requires
                c >= 0,
                span(k) > 0,
        ;
        assert((11 - k) * n == n + (11 - (k + 1)) * n) by (nonlinear_arith);
    }
}

// ---------------------------------------------------------------------------
// Handing out and taking back
// ---------------------------------------------------------------------------
/// The first order from `k` on that has a free block; 11 if there is none.
pub open spec fn first_order(lists: Seq<Seq<int>>, k: int) -> int
    decreases 11 - k,
{
    if k >= 11 {
        11
    } else if lists[k].len() > 0 {
        k
    } else {
        first_order(lists, k + 1)
    }
}

impl BuddyView {
    /// The block at `p` halved from order `from` down to order `to`; the upper
    /// halves are free.
    pub open spec fn halved(self, p: int, from: int, to: int) -> BuddyView
        decreases from,
    {
        if from <= to || from <= 0 {
            self
        } else {
            self.push(from - 1, p + span(from - 1)).halved(p, from - 1, to)
        }
    }

    pub open spec fn marked(self, p: int, order: int, reserved: bool) -> BuddyView {
        BuddyView {
            frames: self.frames.update(
                p,
                FrameView { order, free: false, allocated: true, reserved, refcount: 1 },
            ),
            ..self
        }
    }

    /// The frame that a request for a block is given.
    pub open spec fn candidate(self, order: int) -> Option<int> {
        let k = first_order(self.lists, order);
        if order < 11 && k < 11 {
            Some(self.lists[k][0])
        } else {
            None
        }
    }

    /// The allocator after a block was handed out.
    pub open spec fn handed_out(self, order: int) -> BuddyView {
        let k = first_order(self.lists, order);
        let p = self.lists[k][0];
        self.take(k, p).halved(p, k, order).marked(p, order, false)
    }

    /// Whether the buddy of a block is free and whole.
    pub open spec fn buddy_free(self, p: int, order: int) -> bool {
        let b = buddy(p, order);
        b < self.frames.len() && self.frames[b].free && self.frames[b].order == order
    }

    /// A block that is no longer used, joined with its buddies as far as they
    /// are free, and put in its list.
    pub open spec fn released(self, p: int, order: int) -> BuddyView
        decreases 10 - order,
    {
        if order < 10 && self.buddy_free(p, order) {
            self.take(order, buddy(p, order)).released(lesser(p, buddy(p, order)), order + 1)
        } else {
            self.push(order, p)
        }
    }

    /// The order of the free block, at least `k`, that holds frame `p`.
    pub open spec fn holder(self, p: int, k: int) -> Option<int>
        decreases 11 - k,
    {
        if k >= 11 {
            None
        } else if self.frames[p - p % span(k)].free && self.frames[p - p % span(k)].order == k {
            Some(k)
        } else {
            self.holder(p, k + 1)
        }
    }

    /// The block at `head` halved down to the single frame `p`; the halves
    /// without it are free.
    pub open spec fn carved(self, p: int, head: int, k: int) -> BuddyView
        decreases k,
    {
        if k <= 0 {
            self
        } else if p < head + span(k - 1) {
            self.push(k - 1, head + span(k - 1)).carved(p, head, k - 1)
        } else {
            self.push(k - 1, head).carved(p, head + span(k - 1), k - 1)
        }
    }

    /// The allocator after frame `p` was set aside.
    pub open spec fn set_aside(self, p: int) -> BuddyView {
        if self.frames[p].allocated || self.frames[p].reserved {
            self
        } else {
            match self.holder(p, 0) {
                Some(k) => self.take(k, p - p % span(k)).carved(
                    p,
                    p - p % span(k),
                    k,
                ).marked(p, 0, true),
                None => BuddyView {
                    frames: self.frames.update(
                        p,
                        FrameView { reserved: true, ..self.frames[p] },
                    ),
                    ..self
                },
            }
        }
    }

    pub open spec fn counted(self, p: int, refcount: u16) -> BuddyView {
        BuddyView {
            frames: self.frames.update(p, FrameView { refcount, ..self.frames[p] }),
            ..self
        }
    }
}

/// A frame may be marked used in a hole that its block fills.
proof fn lemma_mark_valid(v: BuddyView, p: int, order: int, reserved: bool)
    requires
        v.valid(),
        0 <= p < v.frames.len(),
        !v.head(p),
        v.block_inside(p, order),
        v.hole(p, p + span(order)),
    ensures
        v.marked(p, order, reserved).valid(),
        v.marked(p, order, reserved).free_total() == v.free_total(),
{
    let w = v.marked(p, order, reserved);
    lemma_span(order);
    assert forall|j: int, i: int|
        #![trigger w.lists[j][i]]
        0 <= j < 11 && 0 <= i < w.lists[j].len() implies {
        &&& 0 <= w.lists[j][i] < w.frames.len()
        &&& w.frames[w.lists[j][i]].free
        &&& w.frames[w.lists[j][i]].order == j
    } by {
        assert(v.lists[j][i] == w.lists[j][i]);
    }
    assert forall|q: int| 0 <= q < w.frames.len() && #[trigger] w.head(q) implies w.block_inside(
        q,
        w.frames[q].order,
    ) by {
        if q != p {
            assert(v.head(q));
        }
    }
    assert forall|a: int, b: int|
        #![trigger w.head(a), w.head(b)]
        0 <= a < b < w.frames.len() && w.head(a) && w.head(b) implies a + span(w.frames[a].order)
        <= b by {
        if a != p {
            assert(v.head(a));
            lemma_span(v.frames[a].order);
        }
        if b != p {
            assert(v.head(b));
            lemma_span(v.frames[b].order);
        }
    }
}

/// A frame that no block holds any more leaves a hole.
proof fn lemma_unmark_valid(v: BuddyView, p: int)
    requires
        v.valid(),
        0 <= p < v.frames.len(),
        v.frames[p].allocated,
    ensures
        ({
            let w = BuddyView {
                frames: v.frames.update(
                    p,
                    FrameView { allocated: false, refcount: 0, ..v.frames[p] },
                ),
                ..v
            };
            &&& w.valid()
            &&& w.hole(p, p + span(v.frames[p].order))
            &&& w.free_total() == v.free_total()
            &&& !w.head(p)
            &&& w.block_inside(p, v.frames[p].order)
        }),
{
    let w = BuddyView {
        frames: v.frames.update(p, FrameView { allocated: false, refcount: 0, ..v.frames[p] }),
        ..v
    };
    assert(v.head(p));
    assert forall|j: int, i: int|
        #![trigger w.lists[j][i]]
        0 <= j < 11 && 0 <= i < w.lists[j].len() implies {
        &&& 0 <= w.lists[j][i] < w.frames.len()
        &&& w.frames[w.lists[j][i]].free
        &&& w.frames[w.lists[j][i]].order == j
    } by {
        assert(v.lists[j][i] == w.lists[j][i]);
    }
    assert forall|q: int| 0 <= q < w.frames.len() && #[trigger] w.head(q) implies w.block_inside(
        q,
        w.frames[q].order,
    ) by {
        assert(v.head(q));
    }
    assert forall|a: int, b: int|
        #![trigger w.head(a), w.head(b)]
        0 <= a < b < w.frames.len() && w.head(a) && w.head(b) implies a + span(w.frames[a].order)
        <= b by {
        assert(v.head(a) && v.head(b));
    }
    assert forall|h: int| 0 <= h < w.frames.len() && #[trigger] w.head(h) implies h >= p + span(
        v.frames[p].order,
    ) || h + span(w.frames[h].order) <= p by {
        assert(v.head(h));
        assert(h != p);
        if h < p {
            assert(v.head(h) && v.head(p));
        } else {
            assert(v.head(p) && v.head(h));
        }
    }
}

impl BuddyAllocator {
    /// A state of frame `p` that leaves its links alone.
    fn set_frame(&mut self, pfn: usize, frame: Frame)
        requires
            pfn < old(self).frames.len(),
            old(self).in_order(),
            frame.next == old(self).frames@[pfn as int].next,
            frame.prev == old(self).frames@[pfn as int].prev,
        ensures
            final(self).linked(),
            final(self).frames.len() == old(self).frames.len(),
            final(self)@.lists == old(self)@.lists,
            final(self)@.frames == old(self)@.frames.update(
                pfn as int,
                FrameView {
                    order: frame.order as int,
                    free: frame.free,
                    allocated: frame.allocated,
                    reserved: frame.reserved,
                    refcount: frame.refcount,
                },
            ),
            final(self).usable == old(self).usable,
            final(self).total_usable_frames == old(self).total_usable_frames,
            final(self).free_frames == old(self).free_frames,
    {
        self.frames[pfn] = frame;
        assert forall|k: int, i: int|
            #![trigger self.lists@[k][i]]
            0 <= k < 11 && 0 <= i < self.lists@[k].len() implies {
            &&& self.frames@[self.lists@[k][i]].prev == link(self.lists@[k], i - 1)
            &&& self.frames@[self.lists@[k][i]].next == link(self.lists@[k], i + 1)
        } by {
            assert(old(self)@.lists[k][i] == old(self).lists@[k][i]);
        }
        assert(self@.frames =~= old(self)@.frames.update(
            pfn as int,
            FrameView {
                order: frame.order as int,
                free: frame.free,
                allocated: frame.allocated,
                reserved: frame.reserved,
                refcount: frame.refcount,
            },
        ));
    }

    /// Takes a block of `order` frames out of the smallest free block that
    /// holds one.
    pub fn alloc_order(&mut self, order: usize) -> (r: Option<usize>)
        requires
            old(self).wf(),
        ensures
            final(self).wf(),
            final(self).total_usable_frames == old(self).total_usable_frames,
            match r {
                None => old(self)@.candidate(order as int) is None && *final(self) == *old(self),
                Some(p) => {
                    &&& old(self)@.candidate(order as int) == Some(p as int)
                    &&& final(self)@ == old(self)@.handed_out(order as int)
                },
            },
    {
        proof {
            reveal(BuddyAllocator::usable_counted);
        }
        if order >= MAX_ORDER {
            return None;
        }
        let mut current: usize = order;
        while current < MAX_ORDER && self.free_lists[current].is_none()
            invariant
                *self == *old(self),
                self.wf(),
                order <= current <= 11,
                first_order(self@.lists, order as int) == first_order(self@.lists, current as int),
            decreases 11 - current,
        {
            assert(self.free_lists@[current as int] == link(self.lists@[current as int], 0));
            current += 1;
        }
        if current >= MAX_ORDER {
            return None;
        }
        let ghost k = current as int;
        assert(self.free_lists@[k] == link(self.lists@[k], 0));
        assert(self@.lists[k][0] == self.lists@[k][0]);
        let pfn: usize = match self.free_lists[current] {
            Some(p) => p,
            None => {
                return None;
            },
        };
        let ghost before = *self;
        let ghost p = pfn as int;
        proof {
            lemma_take_valid(self@, k, p);
            assert(self@.head(p));
        }
        self.list_remove(current, pfn);
        assert forall|q: int| p < q < p + span(k) implies !self@.head(q) && (
        #[trigger] self@.frames[q]).refcount == 0 by {
            assert(before@.head(p));
            assert(self@.frames[q] == before@.frames[q]);
            if before@.head(q) {
                assert(before@.head(p) && before@.head(q));
            }
        }
        while current > order
            invariant
                order <= current <= k,
                k < 11,
                0 <= p == pfn,
                self.in_order(),
                self@.hole(p, p + span(current as int)),
                self@.block_inside(p, current as int),
                !self@.head(p),
                p < self@.frames.len(),
                self@.frames[p].refcount == 0,
                forall|q: int|
                    p < q < p + span(current as int) ==> !self@.head(q) && (
                    #[trigger] self@.frames[q]).refcount == 0,
                self.usable == before.usable,
                self.total_usable_frames == before.total_usable_frames,
                self.free_frames == before.free_frames,
                self@.halved(p, current as int, order as int) == before@.take(k, p).halved(
                    p,
                    k,
                    order as int,
                ),
                self@.free_total() + span(current as int) == before@.free_total(),
            decreases current,
        {
            let ghost c = current as int;
            let ghost w = self@;
            current -= 1;
            let half: usize = block_size(current);
            proof {
                lemma_span(c);
                lemma_halves(p, c);
                assert(span(c) == 2 * half);
                assert(w.frames[p + half].refcount == 0);
                assert(!w.head(p + half));
            }
            self.list_push(current, pfn + half);
            proof {
                let v = self@;
                assert(v.hole(p, p + half)) by {
                    assert forall|h: int| 0 <= h < v.frames.len() && #[trigger] v.head(h) implies h
                        >= p + half || h + span(v.frames[h].order) <= p by {
                        if h != p + half {
                            assert(w.head(h));
                        }
                    }
                }
                assert(!v.head(p));
                assert forall|q: int| p < q < p + half implies !v.head(q) && (
                #[trigger] v.frames[q]).refcount == 0 by {
                    assert(w.frames[q].refcount == 0 && !w.head(q));
                }
            }
        }
        let was = self.frames[pfn];
        proof {
            lemma_mark_valid(self@, p, order as int, false);
            lemma_span(order as int);
            lemma_total_bound(self@, 0);
        }
        let ghost w = self@;
        self.set_frame(
            pfn,
            Frame { order, free: false, allocated: true, reserved: false, refcount: 1, ..was },
        );
        assert(self@ =~= w.marked(p, order as int, false));
        self.free_frames = self.free_frames - block_size(order);
        assert(self@ == before@.handed_out(order as int));
        assert forall|q: int| #[trigger] self.usable@.contains(q) implies self@.covers(q) by {
            assert(before.usable@.contains(q));
            lemma_covers_handed_out(before@, order as int, q);
        }
        Some(pfn)
    }
}

impl BuddyAllocator {
    /// Gives back a block that nobody uses.
    fn free_order(&mut self, pfn: usize, order: usize)
        requires
            old(self).in_order(),
            old(self).free_frames == old(self)@.free_total(),
            0 < pfn < old(self)@.frames.len(),
            !old(self)@.head(pfn as int),
            old(self)@.frames[pfn as int].refcount == 0,
            old(self)@.block_inside(pfn as int, order as int),
            old(self)@.hole(pfn as int, pfn + span(order as int)),
        ensures
            final(self).settled(),
            final(self).usable == old(self).usable,
            final(self)@ == old(self)@.released(pfn as int, order as int),
            final(self).total_usable_frames == old(self).total_usable_frames,
            final(self).free_frames == old(self).free_frames + span(order as int),
    {
        let ghost before = *self;
        let size: usize = block_size(order);
        let mut p: usize = pfn;
        let mut k: usize = order;
        while k < MAX_ORDER - 1
            invariant
                k <= 10,
                self.in_order(),
                0 < p < self@.frames.len(),
                !self@.head(p as int),
                self@.frames[p as int].refcount == 0,
                self@.block_inside(p as int, k as int),
                self@.hole(p as int, p + span(k as int)),
                self@.released(p as int, k as int) == before@.released(pfn as int, order as int),
                self.usable == before.usable,
                self.total_usable_frames == before.total_usable_frames,
                self.free_frames == before.free_frames,
                self@.free_total() + span(k as int) == before@.free_total() + size,
            ensures
                self@.released(p as int, k as int) == self@.push(k as int, p as int),
            decreases 10 - k,
        {
            let half: usize = block_size(k);
            let ghost v = self@;
            proof {
                lemma_buddy(p as int, k as int);
                lemma_span(k + 1);
            }
            let b: usize = if p / half % 2 == 0 {
                p + half
            } else {
                p - half
            };
            assert(b == buddy(p as int, k as int));
            if b >= self.frames.len() {
                break ;
            }
            let other = self.frames[b];
            if other.free && other.order == k {
                proof {
                    assert(v.frames[b as int].free);
                    assert(v.head(b as int));
                    lemma_take_valid(v, k as int, b as int);
                }
                self.list_remove(k, b);
                proof {
                    let w = self@;
                    let low = lesser(p as int, b as int);
                    assert(w.hole(low, low + span(k + 1))) by {
                        assert forall|h: int| 0 <= h < w.frames.len() && #[trigger] w.head(h) implies h
                            >= low + span(k + 1) || h + span(w.frames[h].order) <= low by {
                            assert(v.head(h));
                            assert(h != p && h != b);
                            lemma_span(v.frames[h].order);
                        }
                    }
                }
                if b < p {
                    p = b;
                }
                k += 1;
            } else {
                break ;
            }
        }
        self.list_push(k, p);
        proof {
            lemma_total_bound(self@, 0);
        }
        self.free_frames = self.free_frames + size;
    }

    pub fn alloc_one(&mut self) -> (r: Option<PhysFrame>)
        requires
            old(self).wf(),
        ensures
            final(self).wf(),
            final(self).total_usable_frames == old(self).total_usable_frames,
            match r {
                None => old(self)@.candidate(0) is None && *final(self) == *old(self),
                Some(f) => {
                    &&& old(self)@.candidate(0) is Some
                    &&& f.0 == old(self)@.candidate(0)->0 * PAGE_SIZE
                    &&& final(self)@ == old(self)@.handed_out(0)
                },
            },
    {
        match self.alloc_order(0) {
            None => None,
            Some(pfn) => {
                proof {
                    let v = old(self)@;
                    lemma_candidate(v, 0);
                }
                Some(PhysFrame(pfn as u64 * PAGE_SIZE))
            },
        }
    }

    /// The number of the frame at an address that can be a frame's.
    fn frame_at(&self, frame: PhysFrame) -> (r: Option<usize>)
        ensures
            match frame_of(self@, frame) {
                Some(p) => r == Some(p as usize) && p == p as usize && p < self.frames.len(),
                None => r is None,
            },
    {
        if frame.0 == 0 || frame.0 % PAGE_SIZE != 0 {
            return None;
        }
        let pfn: u64 = frame.0 / PAGE_SIZE;
        if pfn >= self.frames.len() as u64 {
            return None;
        }
        Some(pfn as usize)
    }

    /// One user less; the last one gives the block back.
    pub fn free(&mut self, frame: PhysFrame) -> (r: bool)
        requires
            old(self).wf(),
        ensures
            final(self).wf(),
            final(self).total_usable_frames == old(self).total_usable_frames,
            r == is_used(old(self)@, frame),
            final(self)@ == freed(old(self)@, frame),
    {
        proof {
            reveal(BuddyAllocator::usable_counted);
        }
        let pfn: usize = match self.frame_at(frame) {
            None => {
                return false;
            },
            Some(p) => p,
        };
        let was = self.frames[pfn];
        let ghost v = self@;
        let ghost p = pfn as int;
        assert(v.frames[p].refcount == was.refcount);
        if was.refcount > 1 {
            proof {
                lemma_count_valid(v, p, (was.refcount - 1) as u16);
            }
            self.set_frame(pfn, Frame { refcount: was.refcount - 1, ..was });
            assert(self@ =~= v.counted(p, (was.refcount - 1) as u16));
            assert forall|q: int| #[trigger] self.usable@.contains(q) implies self@.covers(q) by {
                assert(old(self).usable@.contains(q));
                lemma_covers_freed(v, frame, q);
            }
            return true;
        }
        if was.refcount == 1 {
            proof {
                lemma_unmark_valid(v, p);
            }
            self.set_frame(pfn, Frame { refcount: 0, allocated: false, ..was });
            assert(self@ =~= v.unused(p));
            self.free_order(pfn, was.order);
            assert forall|q: int| #[trigger] self.usable@.contains(q) implies self@.covers(q) by {
                assert(old(self).usable@.contains(q));
                lemma_covers_freed(v, frame, q);
            }
            return true;
        }
        false
    }

    /// Sets a frame aside: it is never handed out.
    pub fn reserve(&mut self, frame: PhysFrame) -> (r: bool)
        requires
            old(self).wf(),
        ensures
            final(self).wf(),
            final(self).total_usable_frames == old(self).total_usable_frames,
            r == (frame_of(old(self)@, frame) is Some),
            final(self).frames.len() == old(self).frames.len(),
            final(self)@ == match frame_of(old(self)@, frame) {
                Some(p) => old(self)@.set_aside(p),
                None => old(self)@,
            },
    {
        proof {
            reveal(BuddyAllocator::usable_counted);
        }
        let pfn: usize = match self.frame_at(frame) {
            None => {
                return false;
            },
            Some(p) => p,
        };
        let was = self.frames[pfn];
        let ghost v = self@;
        let ghost p = pfn as int;
        assert(v.frames[p].allocated == was.allocated && v.frames[p].reserved == was.reserved);
        if was.allocated || was.reserved {
            return true;
        }
        let mut order: usize = 0;
        while order < MAX_ORDER
            invariant
                *self == *old(self),
                self.wf(),
                self@ == v,
                0 <= p == pfn < self.frames.len(),
                order <= 11,
                v.holder(p, 0) == v.holder(p, order as int),
                !v.frames[p].allocated && !v.frames[p].reserved,
                frame_of(v, frame) == Some(p),
            decreases 11 - order,
        {
            let size: usize = block_size(order);
            proof {
                reveal(BuddyAllocator::usable_counted);
                vstd::arithmetic::div_mod::lemma_mod_decreases(pfn as nat, size as nat);
                vstd::arithmetic::div_mod::lemma_mod_bound(pfn as int, size as int);
            }
            let head: usize = pfn - pfn % size;
            let first = self.frames[head];
            assert(v.frames[head as int].free == first.free);
            assert(head == p - p % span(order as int));
            if first.free && first.order == order {
                self.carve(pfn, head, order);
                assert forall|q: int| #[trigger] self.usable@.contains(q) implies self@.covers(
                    q,
                ) by {
                    assert(old(self).usable@.contains(q));
                    lemma_covers_set_aside(v, p, q);
                }
                return true;
            }
            order += 1;
        }
        proof {
            lemma_reserve_valid(v, p);
        }
        self.set_frame(pfn, Frame { reserved: true, ..was });
        assert(self@ =~= v.set_aside(p));
        assert forall|q: int| #[trigger] self.usable@.contains(q) implies self@.covers(q) by {
            assert(old(self).usable@.contains(q));
            lemma_covers_set_aside(v, p, q);
        }
        true
    }

    fn carve(&mut self, pfn: usize, head: usize, order: usize)
        requires
            old(self).wf(),
            order < 11,
            pfn < old(self).frames.len(),
            head <= pfn < head + span(order as int),
            old(self)@.frames[head as int].free,
            old(self)@.frames[head as int].order == order,
        ensures
            final(self).settled(),
            final(self).usable == old(self).usable,
            final(self).total_usable_frames == old(self).total_usable_frames,
            final(self).frames.len() == old(self).frames.len(),
            final(self)@ == old(self)@.take(order as int, head as int).carved(
                pfn as int,
                head as int,
                order as int,
            ).marked(pfn as int, 0, true),
    {
        let ghost v = self@;
        let ghost p = pfn as int;
        let ghost goal = v.take(order as int, head as int).carved(p, head as int, order as int);
        let ghost before = *self;
        proof {
            assert(v.head(head as int));
            lemma_take_valid(v, order as int, head as int);
        }
        self.list_remove(order, head);
        let mut h: usize = head;
        let mut k: usize = order;
        assert forall|q: int| h <= q < h + span(k as int) implies !self@.head(q) && (
        #[trigger] self@.frames[q]).refcount == 0 by {
            assert(v.head(head as int));
            if q != head {
                assert(self@.frames[q] == v.frames[q]);
                if v.head(q) {
                    assert(v.head(head as int) && v.head(q));
                }
            }
        }
        while k > 0
            invariant
                k < 11,
                0 <= p == pfn,
                0 < h <= pfn < h + span(k as int),
                self@.frames.len() == before@.frames.len(),
                self.in_order(),
                self@.block_inside(h as int, k as int),
                self@.hole(h as int, h + span(k as int)),
                forall|q: int|
                    h <= q < h + span(k as int) ==> !self@.head(q) && (
                    #[trigger] self@.frames[q]).refcount == 0,
                self.usable == before.usable,
                self.total_usable_frames == before.total_usable_frames,
                self.free_frames == before.free_frames,
                self@.carved(p, h as int, k as int) == goal,
                self@.free_total() + span(k as int) == before@.free_total(),
            decreases k,
        {
            let ghost w = self@;
            let ghost c = k as int;
            k -= 1;
            let half: usize = block_size(k);
            proof {
                lemma_span(c);
                lemma_halves(h as int, c);
            }
            let upper: usize = h + half;
            assert(w.frames[h as int].refcount == 0 && w.frames[upper as int].refcount == 0);
            if pfn < upper {
                self.list_push(k, upper);
                proof {
                    lemma_hole_kept(w, self@, upper as int, h as int, h + half);
                }
            } else {
                self.list_push(k, h);
                proof {
                    lemma_hole_kept(w, self@, h as int, upper as int, upper + half);
                }
                h = upper;
            }
            assert forall|q: int| h <= q < h + half implies !self@.head(q) && (
            #[trigger] self@.frames[q]).refcount == 0 by {
                assert(w.frames[q].refcount == 0 && !w.head(q));
            }
        }
        let was = self.frames[pfn];
        let ghost w = self@;
        assert(w.frames[p].refcount == 0);
        proof {
            lemma_mark_valid(w, p, 0, true);
            lemma_total_bound(w, 0);
        }
        self.set_frame(
            pfn,
            Frame {
                order: 0,
                free: false,
                allocated: true,
                reserved: true,
                refcount: 1,
                ..was
            },
        );
        assert(self@ =~= w.marked(p, 0, true));
        self.free_frames = self.free_frames - 1;
    }

    pub fn refcount(&self, pfn: usize) -> (r: u16)
        ensures
            r == users(self@, pfn as int),
    {
        if pfn < self.frames.len() {
            self.frames[pfn].refcount
        } else {
            0
        }
    }

    /// One user more of a frame. Only a frame that was handed out can be given
    /// back, so that the users of another leave the allocator out of order.
    pub fn ref_inc(&mut self, pfn: usize)
        requires
            old(self).wf(),
        ensures
            counts_right(old(self)@, pfn as int) ==> final(self).wf(),
            final(self).linked(),
            final(self).free_frames == old(self).free_frames,
            final(self).total_usable_frames == old(self).total_usable_frames,
            final(self)@ == if pfn < old(self)@.frames.len() {
                old(self)@.counted(pfn as int, one_more(users(old(self)@, pfn as int)))
            } else {
                old(self)@
            },
    {
        proof {
            reveal(BuddyAllocator::usable_counted);
        }
        if pfn < self.frames.len() {
            let was = self.frames[pfn];
            let more: u16 = if was.refcount == u16::MAX {
                was.refcount
            } else {
                was.refcount + 1
            };
            let ghost v = self@;
            self.set_frame(pfn, Frame { refcount: more, ..was });
            proof {
                assert(self@ =~= v.counted(pfn as int, more));
                assert forall|q: int| #[trigger] self.usable@.contains(q) implies self@.covers(q) by {
                    assert(old(self).usable@.contains(q));
                    lemma_covers_same(v, self@, q);
                }
                if counts_right(v, pfn as int) {
                    lemma_count_valid(v, pfn as int, more);
                }
            }
        }
    }

    /// One user less, without giving the frame back.
    pub fn ref_dec(&mut self, pfn: usize) -> (r: u16)
        requires
            old(self).wf(),
        ensures
            final(self).wf(),
            final(self).total_usable_frames == old(self).total_usable_frames,
            r == one_less(users(old(self)@, pfn as int)),
            final(self)@ == if pfn < old(self)@.frames.len() {
                old(self)@.counted(pfn as int, r)
            } else {
                old(self)@
            },
    {
        proof {
            reveal(BuddyAllocator::usable_counted);
        }
        if pfn < self.frames.len() {
            let was = self.frames[pfn];
            let less: u16 = if was.refcount == 0 {
                0
            } else {
                was.refcount - 1
            };
            proof {
                lemma_count_valid(self@, pfn as int, less);
            }
            let ghost v = self@;
            self.set_frame(pfn, Frame { refcount: less, ..was });
            assert(self@ =~= v.counted(pfn as int, less));
            assert forall|q: int| #[trigger] self.usable@.contains(q) implies self@.covers(q) by {
                assert(old(self).usable@.contains(q));
                lemma_covers_same(v, self@, q);
            }
            less
        } else {
            0
        }
    }
}

/// The number of the frame at an address, for the addresses of frames that are
/// managed.
pub open spec fn frame_of(v: BuddyView, frame: PhysFrame) -> Option<int> {
    if frame.0 == 0 || frame.0 % PAGE_SIZE != 0 || frame.0 / PAGE_SIZE >= v.frames.len() {
        None
    } else {
        Some((frame.0 / PAGE_SIZE) as int)
    }
}

pub open spec fn users(v: BuddyView, p: int) -> u16 {
    if p < v.frames.len() {
        v.frames[p].refcount
    } else {
        0
    }
}

pub open spec fn one_more(count: u16) -> u16 {
    if count == u16::MAX {
        count
    } else {
        (count + 1) as u16
    }
}

pub open spec fn one_less(count: u16) -> u16 {
    if count == 0 {
        0
    } else {
        (count - 1) as u16
    }
}

pub open spec fn is_used(v: BuddyView, frame: PhysFrame) -> bool {
    frame_of(v, frame) matches Some(p) && v.frames[p].refcount > 0
}

/// The allocator after one user of a frame is gone.
pub open spec fn freed(v: BuddyView, frame: PhysFrame) -> BuddyView {
    match frame_of(v, frame) {
        None => v,
        Some(p) => if v.frames[p].refcount > 1 {
            v.counted(p, (v.frames[p].refcount - 1) as u16)
        } else if v.frames[p].refcount == 1 {
            v.unused(p).released(p, v.frames[p].order)
        } else {
            v
        },
    }
}

impl BuddyView {
    /// Frame `p` without users.
    pub open spec fn unused(self, p: int) -> BuddyView {
        BuddyView {
            frames: self.frames.update(
                p,
                FrameView { allocated: false, refcount: 0, ..self.frames[p] },
            ),
            ..self
        }
    }
}

/// A request is given the first block of a list.
proof fn lemma_candidate(v: BuddyView, order: int)
    requires
        v.valid(),
        0 <= order,
        v.candidate(order) is Some,
    ensures
        ({
            let k = first_order(v.lists, order);
            let p = v.candidate(order)->0;
            &&& order <= k < 11
            &&& v.lists[k].len() > 0
            &&& 0 <= p < v.frames.len()
            &&& v.frames[p].free
            &&& v.frames[p].order == k
        }),
{
    lemma_first_order(v.lists, order);
    let k = first_order(v.lists, order);
    assert(v.lists[k][0] == v.candidate(order)->0);
}

proof fn lemma_first_order(lists: Seq<Seq<int>>, k: int)
    requires
        0 <= k,
    ensures
        first_order(lists, k) >= k || k > 11,
        first_order(lists, k) <= 11,
        first_order(lists, k) < 11 ==> k <= first_order(lists, k) && lists[first_order(
            lists,
            k,
        )].len() > 0,
        forall|j: int| k <= j < first_order(lists, k) ==> (#[trigger] lists[j]).len() == 0,
    decreases 11 - k,
{
    if k < 11 && lists[k].len() == 0 {
        lemma_first_order(lists, k + 1);
    }
}

/// A count may change on a frame that is in use.
proof fn lemma_count_valid(v: BuddyView, p: int, count: u16)
    requires
        v.valid(),
        0 <= p < v.frames.len(),
        v.frames[p].allocated || count == 0 || count <= v.frames[p].refcount,
    ensures
        v.counted(p, count).valid(),
        v.counted(p, count).free_total() == v.free_total(),
{
    let w = v.counted(p, count);
    lemma_same_blocks(v, w);
}

proof fn lemma_reserve_valid(v: BuddyView, p: int)
    requires
        v.valid(),
        0 <= p < v.frames.len(),
    ensures
        ({
            let w = BuddyView {
                frames: v.frames.update(p, FrameView { reserved: true, ..v.frames[p] }),
                ..v
            };
            w.valid() && w.free_total() == v.free_total()
        }),
{
    let w = BuddyView {
        frames: v.frames.update(p, FrameView { reserved: true, ..v.frames[p] }),
        ..v
    };
    lemma_same_blocks(v, w);
}

proof fn lemma_same_blocks(v: BuddyView, w: BuddyView)
    requires
        v.valid(),
        w.lists == v.lists,
        w.frames.len() == v.frames.len(),
        forall|p: int|
            0 <= p < v.frames.len() ==> {
                &&& (#[trigger] w.frames[p]).free == v.frames[p].free
                &&& w.frames[p].allocated == v.frames[p].allocated
                &&& w.frames[p].order == v.frames[p].order
                &&& w.frames[p].refcount > 0 ==> w.frames[p].allocated
            },
    ensures
        w.valid(),
{
    assert forall|j: int, i: int|
        #![trigger w.lists[j][i]]
        0 <= j < 11 && 0 <= i < w.lists[j].len() implies {
        &&& 0 <= w.lists[j][i] < w.frames.len()
        &&& w.frames[w.lists[j][i]].free
        &&& w.frames[w.lists[j][i]].order == j
    } by {
        assert(v.lists[j][i] == w.lists[j][i]);
    }
    assert forall|q: int| 0 <= q < w.frames.len() && (#[trigger] w.frames[q]).free implies w.lists[
    w.frames[q].order].contains(q) by {
        assert(v.frames[q].free);
    }
    assert forall|q: int| 0 <= q < w.frames.len() && #[trigger] w.head(q) implies w.block_inside(
        q,
        w.frames[q].order,
    ) by {
        assert(w.frames[q].free == v.frames[q].free);
        assert(v.head(q));
    }
    assert forall|a: int, b: int|
        #![trigger w.head(a), w.head(b)]
        0 <= a < b < w.frames.len() && w.head(a) && w.head(b) implies a + span(w.frames[a].order)
        <= b by {
        assert(w.frames[a].free == v.frames[a].free && w.frames[b].free == v.frames[b].free);
        assert(v.head(a) && v.head(b));
    }
    assert forall|p: int| 0 <= p < w.frames.len() implies {
        &&& (#[trigger] w.frames[p]).free ==> !w.frames[p].allocated
        &&& w.frames[p].refcount > 0 ==> w.frames[p].allocated
    } by {
        assert(v.frames[p].free ==> !v.frames[p].allocated);
    }
}

pub proof fn lemma_span_positive(k: int)
    ensures
        span(k) >= 1,
    decreases k,
{
    if k > 0 {
        lemma_span_positive(k - 1);
    }
}

/// A block that becomes a head next to a hole leaves the rest of it.
proof fn lemma_hole_kept(v: BuddyView, w: BuddyView, added: int, from: int, to: int)
    requires
        w.frames.len() == v.frames.len(),
        forall|q: int| 0 <= q < v.frames.len() && q != added ==> #[trigger] w.frames[q] == v.frames[q],
        v.hole(lesser(added, from), if added < from {
            to
        } else {
            added + span(w.frames[added].order)
        }),
        added + span(w.frames[added].order) <= from || to <= added,
    ensures
        w.hole(from, to),
{
    lemma_span_positive(w.frames[added].order);
    assert forall|h: int| 0 <= h < w.frames.len() && #[trigger] w.head(h) implies h >= to || h
        + span(w.frames[h].order) <= from by {
        if h != added {
            assert(w.frames[h] == v.frames[h]);
            assert(v.head(h));
        }
    }
}

// ---------------------------------------------------------------------------
// The memory map
// ---------------------------------------------------------------------------
/// The largest order, at most `k`, of a block that can start a range.
pub open spec fn best_order(start: int, end: int, k: int) -> int
    decreases k,
{
    if k <= 0 {
        0
    } else if start + span(k) <= end && start % span(k) == 0 {
        k
    } else {
        best_order(start, end, k - 1)
    }
}

pub proof fn lemma_best_order(start: int, end: int, k: int)
    requires
        0 <= start < end,
        0 <= k <= 10,
    ensures
        0 <= best_order(start, end, k) <= k,
        start + span(best_order(start, end, k)) <= end,
        start % span(best_order(start, end, k)) == 0,
    decreases k,
{
    if k > 0 && !(start + span(k) <= end && start % span(k) == 0) {
        lemma_best_order(start, end, k - 1);
    }
}

impl BuddyView {
    /// The frames from `start` to `end` made free, in blocks as large as fit.
    pub open spec fn filled(self, start: int, end: int) -> BuddyView
        decreases end - start,
    {
        if start >= end || start < 0 {
            self
        } else {
            let k = best_order(start, end, 10);
            proof {
                lemma_span_positive(k);
                lemma_best_order(start, end, 10);
            }
            self.push(k, start).filled(start + span(k), end)
        }
    }
}

/// The first whole page from an address on.
pub open spec fn align_up_of(address: u64) -> u64 {
    if address + 4095 > u64::MAX {
        0xffff_ffff_ffff_f000
    } else {
        ((address + 4095) / 4096 * 4096) as u64
    }
}

pub(crate) fn align_up(address: u64) -> (r: u64)
    ensures
        r == align_up_of(address),
        r % 4096 == 0,
{
    if address > u64::MAX - (PAGE_SIZE - 1) {
        0xffff_ffff_ffff_f000
    } else {
        (address + (PAGE_SIZE - 1)) / PAGE_SIZE * PAGE_SIZE
    }
}

/// The whole frames of a range of addresses: the first one, never the frame at
/// address zero, and the one after the last, below `limit`.
pub open spec fn range_start(base: u64) -> int {
    if align_up_of(base) < 4096 {
        1
    } else {
        (align_up_of(base) / 4096) as int
    }
}

pub open spec fn range_end(base: u64, length: u64, limit: int) -> int {
    if base + length > u64::MAX {
        0
    } else {
        lesser((base + length) / 4096, limit)
    }
}

impl BuddyView {
    /// Nothing in these frames is in use or free.
    pub open spec fn untouched(self, start: int, end: int) -> bool {
        &&& self.hole(start, end)
        &&& forall|p: int|
            start <= p < end ==> !self.head(p) && (#[trigger] self.frames[p]).refcount == 0
    }

    pub open spec fn with_range(self, base: u64, length: u64) -> BuddyView {
        self.filled(range_start(base), range_end(base, length, self.frames.len() as int))
    }
}

impl BuddyAllocator {
    /// Makes the whole frames of a range of addresses free; returns how many
    /// there are.
    pub fn add_range(&mut self, base: u64, length: u64) -> (r: usize)
        requires
            old(self).wf(),
            range_start(base) < range_end(base, length, old(self)@.frames.len() as int) ==> old(self)@.untouched(
                range_start(base),
                range_end(base, length, old(self)@.frames.len() as int),
            ),
        ensures
            final(self).wf(),
            final(self)@ == old(self)@.with_range(base, length),
            ({
                let start = range_start(base);
                let end = range_end(base, length, old(self)@.frames.len() as int);
                r == if start < end {
                    end - start
                } else {
                    0
                }
            }),
            final(self).free_frames == old(self).free_frames + r,
            final(self).total_usable_frames == old(self).total_usable_frames + r,
            blocks_within(
                old(self)@,
                final(self)@,
                range_start(base),
                range_end(base, length, old(self)@.frames.len() as int),
            ),
    {
        proof {
            reveal(BuddyAllocator::usable_counted);
        }
        let ghost start = range_start(base);
        let ghost end = range_end(base, length, self@.frames.len() as int);
        if length > u64::MAX - base {
            return 0;
        }
        let first_page: u64 = align_up(base);
        let first: u64 = if first_page < PAGE_SIZE {
            PAGE_SIZE
        } else {
            first_page
        };
        let last: u64 = (base + length) / PAGE_SIZE;
        let last: u64 = if last < self.frames.len() as u64 {
            last
        } else {
            self.frames.len() as u64
        };
        assert(first / 4096 == start);
        assert(last == end);
        if first / PAGE_SIZE >= last {
            return 0;
        }
        let mut at: usize = (first / PAGE_SIZE) as usize;
        let stop: usize = last as usize;
        let added: usize = stop - at;
        let ghost before = *self;
        let ghost goal = self@.with_range(base, length);
        while at < stop
            invariant
                0 < start <= at <= stop == end,
                end <= self@.frames.len(),
                self.wf(),
                self.usable == before.usable,
                forall|q: int| start <= q < at ==> #[trigger] self@.covers(q),
                self@.filled(at as int, end) == goal,
                self@.untouched(at as int, end),
                self.free_frames == before.free_frames + (at - start),
                self.total_usable_frames == before.total_usable_frames,
                blocks_within(before@, self@, start, end),
                self@.frames.len() == before@.frames.len(),
            decreases stop - at,
        {
            let mut order: usize = MAX_ORDER - 1;
            while order > 0
                invariant
                    order <= 10,
                    at < stop,
                    stop == end,
                    end <= 16_777_216,
                    best_order(at as int, end, order as int) == best_order(at as int, end, 10),
                ensures
                    order <= 10,
                    order == best_order(at as int, end, 10),
                decreases order,
            {
                let size: usize = block_size(order);
                if at + size <= stop && at % size == 0 {
                    break ;
                }
                order -= 1;
            }
            let ghost v = self@;
            proof {
                reveal(BuddyAllocator::usable_counted);
                lemma_best_order(at as int, end, 10);
                lemma_span(order as int);
                assert(v.frames[at as int].refcount == 0);
            }
            self.list_push(order, at);
            proof {
                lemma_total_bound(self@, 0);
                let w = self@;
                assert forall|q: int| #[trigger] self.usable@.contains(q) implies w.covers(q) by {
                    assert(before.usable@.contains(q));
                    lemma_covers_push(v, order as int, at as int, q);
                }
                assert forall|q: int| start <= q < at + span(order as int) implies #[trigger] w.covers(
                    q,
                ) by {
                    if q < at {
                        assert(v.covers(q));
                    }
                    lemma_covers_push(v, order as int, at as int, q);
                }
                let size = span(order as int);
                assert forall|p: int| at + size <= p < end implies !w.head(p) && (
                #[trigger] w.frames[p]).refcount == 0 by {
                    assert(v.frames[p].refcount == 0 && !v.head(p));
                }
                assert forall|h: int| 0 <= h < w.frames.len() && #[trigger] w.head(h) implies h
                    >= end || h + span(w.frames[h].order) <= at + size by {
                    if h != at {
                        assert(v.head(h));
                    }
                }
                assert forall|h: int|
                    0 <= h < w.frames.len() && #[trigger] w.head(h) && !before@.head(h) implies start
                    <= h && h + span(w.frames[h].order) <= end by {
                    if h != at {
                        assert(v.head(h));
                    }
                }
                assert forall|h: int|
                    0 <= h < w.frames.len() && #[trigger] before@.head(h) implies w.head(h)
                    && w.frames[h] == before@.frames[h] by {
                    assert(v.head(h));
                }
                assert forall|h: int|
                    0 <= h < w.frames.len() && !(#[trigger] w.head(h)) implies w.frames[h]
                    == before@.frames[h] by {
                    assert(!v.head(h));
                }
            }
            let size: usize = block_size(order);
            self.free_frames = self.free_frames + size;
            at += size;
        }
        proof {
            lemma_more_usable(before@, self.usable@, start, end);
        }
        self.usable = Ghost(self.usable@ + vstd::set_lib::set_int_range(start, end));
        self.total_usable_frames = self.total_usable_frames + added;
        added
    }
}

/// Blocks were only added, and only inside a range.
pub open spec fn blocks_within(v: BuddyView, w: BuddyView, start: int, end: int) -> bool {
    &&& w.frames.len() == v.frames.len()
    &&& forall|h: int|
        0 <= h < w.frames.len() && #[trigger] w.head(h) && !v.head(h) ==> start <= h && h + span(
            w.frames[h].order,
        ) <= end
    &&& forall|h: int|
        0 <= h < w.frames.len() && #[trigger] v.head(h) ==> w.head(h) && w.frames[h] == v.frames[h]
    &&& forall|h: int|
        0 <= h < w.frames.len() && !(#[trigger] w.head(h)) ==> w.frames[h] == v.frames[h]
}

/// One entry of the memory map.
#[derive(Clone, Copy, Debug, PartialEq, Eq, Structural)]
pub struct MapEntry {
    pub base: u64,
    pub length: u64,
    pub usable: bool,
}

pub open spec fn sum_capped(a: u64, b: u64) -> u64 {
    if a + b > u64::MAX {
        u64::MAX
    } else {
        (a + b) as u64
    }
}

/// Where the usable memory of a map ends.
pub open spec fn usable_end(entries: Seq<MapEntry>) -> u64
    decreases entries.len(),
{
    if entries.len() == 0 {
        0
    } else {
        let before = usable_end(entries.drop_last());
        let e = entries.last();
        if e.usable && sum_capped(e.base, e.length) > before {
            sum_capped(e.base, e.length)
        } else {
            before
        }
    }
}

/// The bytes of the usable memory of a map.
pub open spec fn usable_bytes(entries: Seq<MapEntry>) -> u64
    decreases entries.len(),
{
    if entries.len() == 0 {
        0
    } else {
        let before = usable_bytes(entries.drop_last());
        if entries.last().usable {
            sum_capped(before, entries.last().length)
        } else {
            before
        }
    }
}

/// The number of frames that are managed.
pub open spec fn frame_limit(entries: Seq<MapEntry>) -> int {
    lesser((sum_capped(usable_end(entries), 4095) / 4096) as int, 16_777_216)
}

/// The frames that hold the bookkeeping of `n` frames.
pub open spec fn metadata_frames(n: int) -> int {
    (n * 11 + 4095) / 4096
}

/// The entry for the bookkeeping: the first of the largest usable ones that
/// are large enough.
pub open spec fn metadata_home(entries: Seq<MapEntry>, need: int) -> Option<MapEntry>
    decreases entries.len(),
{
    if entries.len() == 0 {
        None
    } else {
        let before = metadata_home(entries.drop_last(), need);
        let e = entries.last();
        if e.usable && e.length >= need && (before matches Some(b) ==> e.length > b.length) {
            Some(e)
        } else {
            before
        }
    }
}

pub open spec fn apart(a: MapEntry, b: MapEntry) -> bool {
    a.base + a.length <= b.base || b.base + b.length <= a.base
}

/// A memory map that can be taken over: its usable entries do not overlap, and
/// one of them has room for the bookkeeping, in frames that are managed.
pub open spec fn map_ok(entries: Seq<MapEntry>) -> bool {
    let n = frame_limit(entries);
    &&& forall|i: int, j: int|
        0 <= i < j < entries.len() && entries[i].usable && entries[j].usable ==> apart(
            #[trigger] entries[i],
            #[trigger] entries[j],
        )
    &&& metadata_home(entries, metadata_frames(n) * 4096) matches Some(home) && {
        &&& home.base + home.length <= u64::MAX
        &&& align_up_of(home.base) + metadata_frames(n) * 4096 <= home.base + home.length
        &&& align_up_of(home.base) / 4096 + metadata_frames(n) <= n
    }
}

impl BuddyView {
    /// `count` frames from `p` on marked as set aside.
    pub open spec fn all_marked(self, p: int, count: int) -> BuddyView
        decreases count,
    {
        if count <= 0 {
            self
        } else {
            self.all_marked(p, count - 1).marked(p + count - 1, 0, true)
        }
    }

    /// The frames of one entry of the map made free, but for the bookkeeping's.
    pub open spec fn with_entry(self, e: MapEntry, home: MapEntry) -> BuddyView {
        let size = metadata_frames(self.frames.len() as int);
        let at = align_up_of(home.base);
        if !e.usable {
            self
        } else if e.base == home.base && e.length == home.length {
            let below = if at > home.base {
                self.with_range(home.base, (at - home.base) as u64)
            } else {
                self
            };
            let end = at + size * 4096;
            let above = if home.base + home.length > end {
                below.with_range(end as u64, (home.base + home.length - end) as u64)
            } else {
                below
            };
            above.all_marked((at / 4096) as int, size)
        } else {
            self.with_range(e.base, e.length)
        }
    }

    pub open spec fn with_entries(self, entries: Seq<MapEntry>, home: MapEntry) -> BuddyView
        decreases entries.len(),
    {
        if entries.len() == 0 {
            self
        } else {
            self.with_entries(entries.drop_last(), home).with_entry(entries.last(), home)
        }
    }

    /// Every block lies in a usable entry.
    spec fn owned(self, entries: Seq<MapEntry>) -> bool {
        forall|h: int|
            0 <= h < self.frames.len() && #[trigger] self.head(h) ==> exists|j: int|
                0 <= j < entries.len() && #[trigger] entries[j].usable && within(
                    h,
                    h + span(self.frames[h].order),
                    entries[j],
                )
    }
}

/// The frames from `p` to `q` lie in an entry.
spec fn within(p: int, q: int, e: MapEntry) -> bool {
    e.base <= p * 4096 && q * 4096 <= e.base + e.length
}

/// The allocator before any memory is known: `n` frames, none of them free.
pub open spec fn nothing_free(n: int) -> BuddyView {
    BuddyView {
        lists: Seq::new(11, |k: int| Seq::<int>::empty()),
        frames: Seq::new(
            n as nat,
            |p: int|
                FrameView {
                    order: 0,
                    free: false,
                    allocated: false,
                    reserved: false,
                    refcount: 0,
                },
        ),
    }
}

proof fn lemma_nothing_total(k: int)
    requires
        0 <= k <= 11,
    ensures
        total_from(Seq::new(11, |k: int| Seq::<int>::empty()), k) == 0,
    decreases 11 - k,
{
    if k < 11 {
        lemma_nothing_total(k + 1);
        assert(0 * span(k) == 0);
    }
}

/// Frames of a new entry are untouched while all blocks lie in earlier ones.
proof fn lemma_untouched(v: BuddyView, entries: Seq<MapEntry>, e: MapEntry, p: int, q: int)
    requires
        v.valid(),
        v.owned(entries),
        0 <= p,
        q <= v.frames.len(),
        within(p, q, e),
        forall|j: int|
            0 <= j < entries.len() && entries[j].usable ==> apart(#[trigger] entries[j], e),
    ensures
        v.untouched(p, q),
{
    assert forall|h: int| 0 <= h < v.frames.len() && #[trigger] v.head(h) implies h >= q || h + span(
        v.frames[h].order,
    ) <= p by {
        let j = choose|j: int|
            0 <= j < entries.len() && #[trigger] entries[j].usable && within(
                h,
                h + span(v.frames[h].order),
                entries[j],
            );
        assert(apart(entries[j], e));
    }
    lemma_hole_untouched(v, p, q);
}

proof fn lemma_hole_untouched(v: BuddyView, p: int, q: int)
    requires
        v.valid(),
        0 <= p,
        q <= v.frames.len(),
        v.hole(p, q),
    ensures
        v.untouched(p, q),
{
    assert forall|x: int| p <= x < q implies !v.head(x) && (#[trigger] v.frames[x]).refcount
        == 0 by {
        if v.head(x) {
            lemma_span_positive(v.frames[x].order);
        }
    }
}

impl BuddyAllocator {
    fn nothing(n: usize) -> (r: Self)
        requires
            n <= MAX_SUPPORTED_FRAMES,
        ensures
            r.wf(),
            r@ == nothing_free(n as int),
            r.free_frames == 0,
            r.total_usable_frames == 0,
    {
        proof {
            reveal(BuddyAllocator::usable_counted);
        }
        let mut free_lists: Vec<Option<usize>> = Vec::new();
        let mut k: usize = 0;
        while k < MAX_ORDER
            invariant
                k <= 11,
                free_lists.len() == k,
                forall|i: int| 0 <= i < k ==> free_lists@[i] is None,
            decreases 11 - k,
        {
            free_lists.push(None);
            k += 1;
        }
        let mut frames: Vec<Frame> = Vec::new();
        let blank = Frame {
            next: None,
            prev: None,
            order: 0,
            free: false,
            allocated: false,
            reserved: false,
            refcount: 0,
        };
        let mut i: usize = 0;
        while i < n
            invariant
                i <= n,
                frames.len() == i,
                forall|j: int| 0 <= j < i ==> frames@[j] == blank,
            decreases n - i,
        {
            frames.push(blank);
            i += 1;
        }
        let r = BuddyAllocator {
            free_lists,
            frames,
            total_usable_frames: 0,
            free_frames: 0,
            lists: Ghost(Seq::new(11, |k: int| Seq::<int>::empty())),
            usable: Ghost(Set::empty()),
        };
        proof {
            lemma_nothing_total(0);
            assert(r@ =~= nothing_free(n as int));
            assert forall|p: int| 0 <= p < n implies !(#[trigger] r@.head(p)) by {
                assert(r@.frames[p] == nothing_free(n as int).frames[p]);
            }
        }
        r
    }

    /// Marks frames as set aside that are neither free nor in use.
    fn mark_range(&mut self, first: usize, count: usize)
        requires
            old(self).wf(),
            first + count <= old(self).frames.len(),
            old(self)@.untouched(first as int, first + count),
        ensures
            final(self).wf(),
            final(self)@ == old(self)@.all_marked(first as int, count as int),
            final(self).free_frames == old(self).free_frames,
            final(self).total_usable_frames == old(self).total_usable_frames,
            final(self).usable == old(self).usable,
            forall|q: int| first <= q < first + count ==> #[trigger] final(self)@.covers(q),
            blocks_within(old(self)@, final(self)@, first as int, first + count),
    {
        proof {
            reveal(BuddyAllocator::usable_counted);
        }
        let ghost before = *self;
        let mut done: usize = 0;
        while done < count
            invariant
                done <= count,
                first + count <= self.frames.len(),
                self.wf(),
                self@ == before@.all_marked(first as int, done as int),
                self.free_frames == before.free_frames,
                self.total_usable_frames == before.total_usable_frames,
                self.usable == before.usable,
                forall|q: int| first <= q < first + done ==> #[trigger] self@.covers(q),
                blocks_within(before@, self@, first as int, first + count),
                self@.untouched(first + done, first + count),
            decreases count - done,
        {
            let ghost v = self@;
            let ghost p = first + done;
            let pfn: usize = first + done;
            let was = self.frames[pfn];
            proof {
                reveal(BuddyAllocator::usable_counted);
                assert(v.frames[p].refcount == 0);
                assert(p % 1 == 0);
                lemma_mark_valid(v, p, 0, true);
            }
            self.set_frame(
                pfn,
                Frame {
                    order: 0,
                    free: false,
                    allocated: true,
                    reserved: true,
                    refcount: 1,
                    ..was
                },
            );
            proof {
                let w = self@;
                assert(w =~= v.marked(p, 0, true));
                lemma_span(0);
                assert forall|q: int| #[trigger] self.usable@.contains(q) implies w.covers(q) by {
                    assert(before.usable@.contains(q));
                    lemma_covers_mark(v, p, 0, true, q);
                }
                assert forall|q: int| first <= q < p + 1 implies #[trigger] w.covers(q) by {
                    if q < p {
                        assert(v.covers(q));
                    }
                    lemma_covers_mark(v, p, 0, true, q);
                }
                assert forall|h: int| 0 <= h < w.frames.len() && #[trigger] w.head(h) implies h
                    >= first + count || h + span(w.frames[h].order) <= p + 1 by {
                    if h != p {
                        assert(v.head(h));
                    }
                }
                lemma_hole_untouched(w, p + 1, first + count);
                assert forall|h: int|
                    0 <= h < w.frames.len() && #[trigger] w.head(h) && !before@.head(h) implies first
                    <= h && h + span(w.frames[h].order) <= first + count by {
                    if h != p {
                        assert(v.head(h));
                    }
                }
                assert forall|h: int|
                    0 <= h < w.frames.len() && #[trigger] before@.head(h) implies w.head(h)
                    && w.frames[h] == before@.frames[h] by {
                    assert(v.head(h));
                }
                assert forall|h: int|
                    0 <= h < w.frames.len() && !(#[trigger] w.head(h)) implies w.frames[h]
                    == before@.frames[h] by {
                    assert(!v.head(h));
                }
            }
            done += 1;
        }
    }
}

proof fn lemma_owned_more(v: BuddyView, w: BuddyView, entries: Seq<MapEntry>, j: int, p: int, q: int)
    requires
        v.owned(entries),
        0 <= j < entries.len(),
        entries[j].usable,
        blocks_within(v, w, p, q),
        within(p, q, entries[j]),
    ensures
        w.owned(entries),
{
    assert forall|h: int| 0 <= h < w.frames.len() && #[trigger] w.head(h) implies exists|j: int|
        0 <= j < entries.len() && #[trigger] entries[j].usable && within(
            h,
            h + span(w.frames[h].order),
            entries[j],
        ) by {
        if v.head(h) {
            assert(w.frames[h] == v.frames[h]);
        } else {
            assert(entries[j].usable && within(h, h + span(w.frames[h].order), entries[j]));
        }
    }
}

proof fn lemma_owned_wider(v: BuddyView, entries: Seq<MapEntry>, e: MapEntry)
    requires
        v.owned(entries),
    ensures
        v.owned(entries.push(e)),
{
    let more = entries.push(e);
    assert forall|h: int| 0 <= h < v.frames.len() && #[trigger] v.head(h) implies exists|j: int|
        0 <= j < more.len() && #[trigger] more[j].usable && within(
            h,
            h + span(v.frames[h].order),
            more[j],
        ) by {
        let j = choose|j: int|
            0 <= j < entries.len() && #[trigger] entries[j].usable && within(
                h,
                h + span(v.frames[h].order),
                entries[j],
            );
        assert(more[j] == entries[j]);
        assert(more[j].usable);
    }
}

impl BuddyAllocator {
    /// Makes the frames of an entry free, but for those of the bookkeeping.
    /// `seen` are the entries before it.
    fn add_home(&mut self, home: MapEntry, seen: Ghost<Seq<MapEntry>>)
        requires
            old(self).wf(),
            old(self).total_usable_frames == old(self).free_frames,
            old(self)@.owned(seen@),
            home.usable,
            forall|j: int|
                0 <= j < seen@.len() && seen@[j].usable ==> apart(#[trigger] seen@[j], home),
            home.base + home.length <= u64::MAX,
            align_up_of(home.base) + metadata_frames(old(self).frames.len() as int) * 4096
                <= home.base + home.length,
            align_up_of(home.base) / 4096 + metadata_frames(old(self).frames.len() as int)
                <= old(self).frames.len(),
        ensures
            final(self).wf(),
            final(self)@ == old(self)@.with_entry(home, home),
            final(self)@.frames.len() == old(self)@.frames.len(),
            final(self)@.owned(seen@.push(home)),
            final(self).total_usable_frames == final(self).free_frames + metadata_frames(
                old(self).frames.len() as int,
            ),
    {
        proof {
            reveal(BuddyAllocator::usable_counted);
        }
        let n: usize = self.frames.len();
        let size: u64 = (n as u64 * FRAME_METADATA + 4095) / PAGE_SIZE;
        let at: u64 = align_up(home.base);
        let ghost all = seen@.push(home);
        let ghost v0 = self@;
        let ghost idx = seen@.len() as int;
        proof {
            lemma_owned_wider(self@, seen@, home);
            assert(all[idx] == home);
        }
        if at > home.base {
            proof {
                // Less than a page, so there is no whole frame in it.
                assert(range_start(home.base) >= range_end(
                    home.base,
                    (at - home.base) as u64,
                    n as int,
                ));
                lemma_nothing_between(self@, range_start(home.base), range_end(
                    home.base,
                    (at - home.base) as u64,
                    n as int,
                ));
            }
            let none: usize = self.add_range(home.base, at - home.base);
            proof {
                assert(none == 0);
                assert(self@ == v0);
            }
        }
        let end: u64 = at + size * PAGE_SIZE;
        let block_end: u64 = home.base + home.length;
        let ghost v1 = self@;
        if block_end > end {
            let ghost p = range_start(end);
            let ghost q = range_end(end, (block_end - end) as u64, n as int);
            proof {
                assert(end % 4096 == 0);
                assert(p * 4096 >= end);
                assert(q * 4096 <= block_end);
                if p < q {
                    lemma_untouched(v1, seen@, home, p, q);
                } else {
                    lemma_nothing_between(v1, p, q);
                }
            }
            let added: usize = self.add_range(end, block_end - end);
            proof {
                if p < q {
                    lemma_owned_more(v1, self@, all, idx, p, q);
                } else {
                    assert(self@ == v1);
                }
            }
        }
        let ghost v2 = self@;
        let ghost a = (at / 4096) as int;
        proof {
            assert(a * 4096 == at);
            lemma_untouched(v1, seen@, home, a, a + size);
            assert(v2.hole(a, a + size)) by {
                assert forall|h: int| 0 <= h < v2.frames.len() && #[trigger] v2.head(h) implies h >= a
                    + size || h + span(v2.frames[h].order) <= a by {
                    if v1.head(h) {
                        assert(v2.frames[h] == v1.frames[h]);
                    }
                }
            }
            lemma_hole_untouched(v2, a, a + size);
        }
        proof {
            lemma_more_usable(v2, self.usable@, a, a + size);
        }
        self.mark_range((at / PAGE_SIZE) as usize, size as usize);
        proof {
            lemma_owned_more(v2, self@, all, idx, a, a + size);
        }
        self.usable = Ghost(self.usable@ + vstd::set_lib::set_int_range(a, a + size));
        self.total_usable_frames = self.total_usable_frames + size as usize;
    }
}

/// An empty range has nothing in it.
proof fn lemma_nothing_between(v: BuddyView, p: int, q: int)
    requires
        v.valid(),
        p >= q,
        0 <= p,
    ensures
        v.filled(p, q) == v,
{
}

/// The frames of the machine and what is known of its memory.
pub struct Memory {
    pub allocator: BuddyAllocator,
    pub stats: MemoryStats,
}

impl Memory {
    pub open spec fn view(&self) -> BuddyView {
        self.allocator@
    }

    pub open spec fn wf(&self) -> bool {
        self.allocator.wf()
    }
}

fn add_capped(a: u64, b: u64) -> (r: u64)
    ensures
        r == sum_capped(a, b),
{
    if b > u64::MAX - a {
        u64::MAX
    } else {
        a + b
    }
}

/// The end of the usable memory, and its bytes.
fn measure(entries: &[MapEntry]) -> (r: (u64, u64))
    ensures
        r.0 == usable_end(entries@),
        r.1 == usable_bytes(entries@),
{
    let mut end: u64 = 0;
    let mut bytes: u64 = 0;
    let mut i: usize = 0;
    while i < entries.len()
        invariant
            i <= entries.len(),
            end == usable_end(entries@.take(i as int)),
            bytes == usable_bytes(entries@.take(i as int)),
        decreases entries.len() - i,
    {
        let e = entries[i];
        proof {
            let seen = entries@.take(i + 1);
            assert(seen.drop_last() =~= entries@.take(i as int));
            assert(seen.last() == e);
        }
        if e.usable {
            let e_end: u64 = add_capped(e.base, e.length);
            if e_end > end {
                end = e_end;
            }
            bytes = add_capped(bytes, e.length);
        }
        i += 1;
    }
    assert(entries@.take(i as int) =~= entries@);
    (end, bytes)
}

fn find_home(entries: &[MapEntry], need: u64) -> (r: Option<MapEntry>)
    ensures
        r == metadata_home(entries@, need as int),
        r matches Some(h) ==> h.usable,
{
    let mut home: Option<MapEntry> = None;
    let mut i: usize = 0;
    while i < entries.len()
        invariant
            i <= entries.len(),
            home == metadata_home(entries@.take(i as int), need as int),
            home matches Some(h) ==> h.usable,
        decreases entries.len() - i,
    {
        let e = entries[i];
        proof {
            let seen = entries@.take(i + 1);
            assert(seen.drop_last() =~= entries@.take(i as int));
            assert(seen.last() == e);
        }
        if e.usable && e.length >= need {
            match home {
                Some(h) => {
                    if e.length > h.length {
                        home = Some(e);
                    }
                },
                None => {
                    home = Some(e);
                },
            }
        }
        i += 1;
    }
    assert(entries@.take(i as int) =~= entries@);
    home
}

/// Whether two entries share no address.
fn entries_apart(a: MapEntry, b: MapEntry) -> (r: bool)
    ensures
        r == apart(a, b),
{
    a.base as u128 + a.length as u128 <= b.base as u128 || b.base as u128 + b.length as u128
        <= a.base as u128
}

fn usable_apart(entries: &[MapEntry]) -> (r: bool)
    ensures
        r == (forall|i: int, j: int|
            0 <= i < j < entries@.len() && entries@[i].usable && entries@[j].usable ==> apart(
                #[trigger] entries@[i],
                #[trigger] entries@[j],
            )),
{
    let mut j: usize = 0;
    while j < entries.len()
        invariant
            j <= entries.len(),
            forall|a: int, b: int|
                0 <= a < b < j && entries@[a].usable && entries@[b].usable ==> apart(
                    #[trigger] entries@[a],
                    #[trigger] entries@[b],
                ),
        decreases entries.len() - j,
    {
        let mut i: usize = 0;
        while i < j
            invariant
                i <= j,
                j < entries.len(),
                forall|a: int|
                    0 <= a < i && entries@[a].usable && entries@[j as int].usable ==> apart(
                        #[trigger] entries@[a],
                        entries@[j as int],
                    ),
            decreases j - i,
        {
            if entries[i].usable && entries[j].usable && !entries_apart(entries[i], entries[j]) {
                assert(!apart(entries@[i as int], entries@[j as int]));
                return false;
            }
            i = i + 1;
        }
        j = j + 1;
    }
    true
}

/// Whether a memory map can be taken over.
pub fn can_init(entries: &[MapEntry]) -> (r: bool)
    ensures
        r == map_ok(entries@),
{
    let (end, _bytes) = measure(entries);
    let raw: u64 = add_capped(end, PAGE_SIZE - 1) / PAGE_SIZE;
    let n: u64 = if raw < MAX_SUPPORTED_FRAMES as u64 {
        raw
    } else {
        MAX_SUPPORTED_FRAMES as u64
    };
    let size: u64 = (n * FRAME_METADATA + 4095) / PAGE_SIZE;
    match find_home(entries, size * PAGE_SIZE) {
        None => false,
        Some(home) => {
            let start: u64 = align_up(home.base);
            home.base as u128 + home.length as u128 <= u64::MAX as u128 && start as u128 + size as u128
                * 4096 <= home.base as u128 + home.length as u128 && start / PAGE_SIZE + size <= n
                && usable_apart(entries)
        },
    }
}

/// Takes over the memory that a map describes.
#[verifier::rlimit(30)]
pub fn init(entries: &[MapEntry]) -> (r: Memory)
    requires
        map_ok(entries@),
    ensures
        r.wf(),
        ({
            let n = frame_limit(entries@);
            let home = metadata_home(entries@, metadata_frames(n) * 4096)->0;
            &&& r@ == nothing_free(n).with_entries(entries@, home)
            &&& r.stats.usable_bytes == usable_bytes(entries@)
            &&& r.stats.usable_frames == r@.free_total()
            &&& r.stats.map_entries == entries.len()
            &&& r.stats.tracked_frames == r.allocator.total_usable_frames
            &&& r.stats.tracked_frames == r@.free_total() + (if entries@.contains(home) {
                metadata_frames(n)
            } else {
                0
            })
        }),
{
    let (end, bytes) = measure(entries);
    let raw: u64 = add_capped(end, PAGE_SIZE - 1) / PAGE_SIZE;
    let n: usize = if raw < MAX_SUPPORTED_FRAMES as u64 {
        raw as usize
    } else {
        MAX_SUPPORTED_FRAMES
    };
    let size: u64 = (n as u64 * FRAME_METADATA + 4095) / PAGE_SIZE;
    let found = find_home(entries, size * PAGE_SIZE);
    let mut allocator = BuddyAllocator::nothing(n);
    if let Some(home) = found {
        let ghost base = nothing_free(n as int);
        let mut i: usize = 0;
        proof {
            let none = entries@.take(0);
            assert(base.with_entries(none, home) =~= base);
            assert forall|h: int| 0 <= h < base.frames.len() implies !(#[trigger] base.head(h)) by {}
            assert(!none.contains(home));
        }
        while i < entries.len()
            invariant
                i <= entries.len(),
                map_ok(entries@),
                n == frame_limit(entries@),
                size == metadata_frames(n as int),
                metadata_home(entries@, size * 4096) == Some(home),
                home.usable,
                allocator.wf(),
                allocator@ == base.with_entries(entries@.take(i as int), home),
                allocator@.frames.len() == n,
                allocator@.owned(entries@.take(i as int)),
                allocator.total_usable_frames == allocator.free_frames + (if entries@.take(
                    i as int,
                ).contains(home) {
                    size as int
                } else {
                    0
                }),
                size <= 45057,
            decreases entries.len() - i,
        {
            let e = entries[i];
            let ghost seen = entries@.take(i as int);
            let ghost next = entries@.take(i + 1);
            let ghost v = allocator@;
            proof {
                assert(next.drop_last() =~= seen);
                assert(next.last() == e);
                assert(next =~= seen.push(e));
                lemma_contains_push(seen, e, home);
                assert forall|j: int| 0 <= j < seen.len() && seen[j].usable && e.usable implies apart(
                    #[trigger] seen[j],
                    e,
                ) by {
                    assert(seen[j] == entries@[j]);
                    assert(apart(entries@[j], entries@[i as int]));
                }
                lemma_owned_wider(v, seen, e);
            }
            if e.usable {
                if e.base == home.base && e.length == home.length {
                    proof {
                        assert(e == home);
                        if seen.contains(home) {
                            let j = seen.index_of(home);
                            assert(seen[j] == home);
                            assert(apart(seen[j], e));
                            assert(home.length == 0);
                            assert(size == 0);
                        }
                    }
                    allocator.add_home(e, Ghost(seen));
                } else {
                    let ghost p = range_start(e.base);
                    let ghost q = range_end(e.base, e.length, n as int);
                    proof {
                        if p < q {
                            assert(p * 4096 >= e.base);
                            assert(q * 4096 <= e.base + e.length);
                            lemma_untouched(v, seen, e, p, q);
                        }
                    }
                    let added: usize = allocator.add_range(e.base, e.length);
                    proof {
                        if p < q {
                            assert(next[i as int] == e);
                            lemma_owned_more(v, allocator@, next, i as int, p, q);
                        } else {
                            assert(allocator@ == v);
                        }
                    }
                }
            }
            i += 1;
        }
        assert(entries@.take(i as int) =~= entries@);
    }
    let stats = MemoryStats {
        usable_bytes: bytes,
        usable_frames: allocator.free_frames,
        tracked_frames: allocator.total_usable_frames,
        map_entries: entries.len(),
    };
    Memory { allocator, stats }
}

proof fn lemma_contains_push(s: Seq<MapEntry>, e: MapEntry, x: MapEntry)
    ensures
        s.push(e).contains(x) == (s.contains(x) || e == x),
{
    let t = s.push(e);
    if s.contains(x) {
        let j = s.index_of(x);
        assert(t[j] == x);
    }
    if e == x {
        assert(t[s.len() as int] == x);
    }
    if t.contains(x) {
        let j = t.index_of(x);
        if j < s.len() {
            assert(s[j] == x);
        }
    }
}

/// What a request for a frame asks of the caller: to evict a page to disk and
/// ask again, or nothing more.
pub enum FrameRequest {
    Evict,
    Done(Option<PhysFrame>),
}

/// Hands out a frame. With a watermark, a page is to be evicted first when few
/// frames are free, and once more when none is; `evicted` says which of the two
/// was asked for last: 0 for neither, 1 for the first, 2 for the second.
pub fn alloc_frame(memory: &mut Memory, low_watermark: usize, evicted: u8) -> (r: FrameRequest)
    requires
        old(memory).wf(),
    ensures
        final(memory).wf(),
        final(memory).stats == old(memory).stats,
        if evicted == 0 && low_watermark > 0 && old(memory)@.free_total() <= low_watermark {
            r is Evict && *final(memory) == *old(memory)
        } else {
            match old(memory)@.candidate(0) {
                Some(p) => {
                    &&& r matches FrameRequest::Done(Some(f)) && f.0 == p * PAGE_SIZE
                    &&& final(memory)@ == old(memory)@.handed_out(0)
                },
                None => {
                    &&& *final(memory) == *old(memory)
                    &&& if low_watermark > 0 && evicted < 2 {
                        r is Evict
                    } else {
                        r == FrameRequest::Done(None)
                    }
                },
            }
        },
{
    if evicted == 0 && low_watermark > 0 && memory.allocator.free_frames <= low_watermark {
        return FrameRequest::Evict;
    }
    match memory.allocator.alloc_one() {
        Some(frame) => FrameRequest::Done(Some(frame)),
        None => if low_watermark > 0 && evicted < 2 {
            FrameRequest::Evict
        } else {
            FrameRequest::Done(None)
        },
    }
}

/// Hands out a block. With a watermark, a page is to be evicted first when few
/// frames are free; `evicted` says that it was.
pub fn alloc_frames(
    memory: &mut Memory,
    order: usize,
    low_watermark: usize,
    evicted: bool,
) -> (r: FrameRequest)
    requires
        old(memory).wf(),
    ensures
        final(memory).wf(),
        final(memory).stats == old(memory).stats,
        if !evicted && low_watermark > 0 && old(memory)@.free_total() <= low_watermark {
            r is Evict && *final(memory) == *old(memory)
        } else {
            match old(memory)@.candidate(order as int) {
                Some(p) => {
                    &&& r matches FrameRequest::Done(Some(f)) && f.0 == p * PAGE_SIZE
                    &&& final(memory)@ == old(memory)@.handed_out(order as int)
                },
                None => r == FrameRequest::Done(None) && *final(memory) == *old(memory),
            }
        },
{
    if !evicted && low_watermark > 0 && memory.allocator.free_frames <= low_watermark {
        return FrameRequest::Evict;
    }
    match memory.allocator.alloc_order(order) {
        Some(pfn) => {
            proof {
                lemma_candidate(old(memory)@, order as int);
            }
            FrameRequest::Done(Some(PhysFrame(pfn as u64 * PAGE_SIZE)))
        },
        None => FrameRequest::Done(None),
    }
}

/// One user of a frame less; the last gives the frame back.
pub fn free_frame(memory: &mut Memory, frame: PhysFrame) -> (r: bool)
    requires
        old(memory).wf(),
    ensures
        final(memory).wf(),
        final(memory).stats == old(memory).stats,
        r == is_used(old(memory)@, frame),
        final(memory)@ == freed(old(memory)@, frame),
{
    memory.allocator.free(frame)
}

/// Sets a frame aside that somebody else owns.
pub fn reserve_frame(memory: &mut Memory, frame: PhysFrame) -> (r: bool)
    requires
        old(memory).wf(),
    ensures
        final(memory).wf(),
        final(memory).stats == old(memory).stats,
        r == (frame_of(old(memory)@, frame) is Some),
        final(memory)@ == match frame_of(old(memory)@, frame) {
            Some(p) => old(memory)@.set_aside(p),
            None => old(memory)@,
        },
{
    memory.allocator.reserve(frame)
}

/// The frame number of any address, for the counts; none beyond the frames
/// that are managed.
fn frame_number(memory: &Memory, frame: PhysFrame) -> (r: Option<usize>)
    ensures
        match r {
            Some(p) => p == frame.0 / PAGE_SIZE && p < memory@.frames.len(),
            None => frame.0 / PAGE_SIZE >= memory@.frames.len(),
        },
{
    let p: u64 = frame.0 / PAGE_SIZE;
    if p < memory.allocator.frames.len() as u64 {
        Some(p as usize)
    } else {
        None
    }
}

/// How many users a frame has.
pub fn frame_refcount(memory: &Memory, frame: PhysFrame) -> (r: u16)
    ensures
        r == users(memory@, (frame.0 / PAGE_SIZE) as int),
{
    match frame_number(memory, frame) {
        Some(p) => memory.allocator.refcount(p),
        None => 0,
    }
}

/// One user more of a frame. The memory stays in order if the frame is one that
/// was handed out.
pub fn frame_ref_inc(memory: &mut Memory, frame: PhysFrame)
    requires
        old(memory).wf(),
    ensures
        counts_right(old(memory)@, (frame.0 / PAGE_SIZE) as int) ==> final(memory).wf(),
        final(memory).stats == old(memory).stats,
        final(memory)@ == if frame.0 / PAGE_SIZE < old(memory)@.frames.len() {
            old(memory)@.counted(
                (frame.0 / PAGE_SIZE) as int,
                one_more(users(old(memory)@, (frame.0 / PAGE_SIZE) as int)),
            )
        } else {
            old(memory)@
        },
{
    if let Some(p) = frame_number(memory, frame) {
        memory.allocator.ref_inc(p);
    }
}

/// One user less; returns how many are left.
pub fn frame_ref_dec(memory: &mut Memory, frame: PhysFrame) -> (r: u16)
    requires
        old(memory).wf(),
    ensures
        final(memory).wf(),
        final(memory).stats == old(memory).stats,
        r == one_less(users(old(memory)@, (frame.0 / PAGE_SIZE) as int)),
        final(memory)@ == if frame.0 / PAGE_SIZE < old(memory)@.frames.len() {
            old(memory)@.counted((frame.0 / PAGE_SIZE) as int, r)
        } else {
            old(memory)@
        },
{
    match frame_number(memory, frame) {
        Some(p) => memory.allocator.ref_dec(p),
        None => 0,
    }
}

/// How many frames are free.
pub fn free_frames_count(memory: &Memory) -> (r: usize)
    requires
        memory.wf(),
    ensures
        r == memory@.free_total(),
{
    memory.allocator.free_frames
}

pub fn stats(memory: &Memory) -> (r: MemoryStats)
    ensures
        r == memory.stats,
{
    memory.stats
}

// ---------------------------------------------------------------------------
// Laws
// ---------------------------------------------------------------------------
proof fn lemma_halved(v: BuddyView, p: int, from: int, to: int)
    requires
        v.valid(),
        0 <= to <= from < 11,
        v.block_inside(p, from),
        v.untouched(p, p + span(from)),
    ensures
        v.halved(p, from, to).valid(),
        v.halved(p, from, to).untouched(p, p + span(to)),
        v.halved(p, from, to).block_inside(p, to),
        v.halved(p, from, to).frames.len() == v.frames.len(),
        v.halved(p, from, to).free_total() == v.free_total() + span(from) - span(to),
        forall|q: int|
            0 <= q < v.frames.len() && (q < p + span(to) || q >= p + span(from)) ==> (
            #[trigger] v.halved(p, from, to).frames[q]) == v.frames[q],
    decreases from,
{
    if from > to {
        let half = span(from - 1);
        lemma_span(from);
        lemma_span(from - 1);
        lemma_halves(p, from);
        lemma_span_monotone(to, from - 1);
        assert(v.frames[p + half].refcount == 0);
        lemma_push_valid(v, from - 1, p + half);
        let w = v.push(from - 1, p + half);
        lemma_hole_kept(v, w, p + half, p, p + half);
        lemma_hole_untouched(w, p, p + half);
        lemma_halved(w, p, from - 1, to);
    }
}

proof fn lemma_span_monotone(a: int, b: int)
    requires
        0 <= a <= b,
    ensures
        span(a) <= span(b),
    decreases b,
{
    lemma_span_positive(b - 1);
    if a < b {
        lemma_span_monotone(a, b - 1);
    }
}

proof fn lemma_released(v: BuddyView, p: int, order: int)
    requires
        v.valid(),
        p > 0,
        0 <= order < 11,
        v.block_inside(p, order),
        v.untouched(p, p + span(order)),
    ensures
        v.released(p, order).valid(),
        v.released(p, order).frames.len() == v.frames.len(),
        v.released(p, order).free_total() == v.free_total() + span(order),
        forall|q: int|
            0 <= q < v.frames.len() ==> (#[trigger] v.released(p, order).frames[q]).refcount
                == v.frames[q].refcount && v.released(p, order).frames[q].allocated
                == v.frames[q].allocated,
    decreases 10 - order,
{
    lemma_span(order);
    assert(v.frames[p].refcount == 0 && !v.head(p));
    if order < 10 && v.buddy_free(p, order) {
        let b = buddy(p, order);
        lemma_buddy(p, order);
        lemma_span(order + 1);
        assert(v.head(b));
        lemma_take_valid(v, order, b);
        let w = v.take(order, b);
        let low = lesser(p, b);
        assert forall|h: int| 0 <= h < w.frames.len() && #[trigger] w.head(h) implies h >= low + span(
            order + 1,
        ) || h + span(w.frames[h].order) <= low by {
            assert(v.head(h));
            assert(h != p && h != b);
            lemma_span(v.frames[h].order);
        }
        lemma_hole_untouched(w, low, low + span(order + 1));
        lemma_released(w, low, order + 1);
        assert forall|q: int| 0 <= q < v.frames.len() implies (#[trigger] v.released(
            p,
            order,
        ).frames[q]).refcount == v.frames[q].refcount && v.released(p, order).frames[q].allocated
            == v.frames[q].allocated by {
            let r = w.released(low, order + 1);
            assert(r.frames[q].refcount == w.frames[q].refcount);
        }
    } else {
        lemma_push_valid(v, order, p);
    }
}

/// A block that is handed out was not in use: none of its frames had a user,
/// and no block in use reached into it. Now it has one user, no other block
/// reaches into it, and every frame outside the free block that it was taken
/// from is as it was.
pub proof fn law_handed_out_was_unused(v: BuddyView, order: int)
    requires
        v.valid(),
        0 <= order,
        v.candidate(order) is Some,
    ensures
        ({
            let p = v.candidate(order)->0;
            let w = v.handed_out(order);
            &&& w.valid()
            &&& p % span(order) == 0
            &&& 0 < p && p + span(order) <= v.frames.len()
            &&& forall|q: int| p <= q < p + span(order) ==> (#[trigger] v.frames[q]).refcount == 0
            &&& forall|q: int|
                0 <= q < v.frames.len() && (#[trigger] v.frames[q]).allocated ==> {
                    &&& q >= p + span(order) || q + span(v.frames[q].order) <= p
                    &&& w.frames[q] == v.frames[q]
                }
            &&& w.frames[p].allocated && w.frames[p].refcount == 1 && w.frames[p].order == order
            &&& w.free_total() == v.free_total() - span(order)
        }),
{
    lemma_candidate(v, order);
    let k = first_order(v.lists, order);
    let p = v.candidate(order)->0;
    assert(v.head(p));
    lemma_take_valid(v, k, p);
    let t = v.take(k, p);
    lemma_hole_untouched(t, p, p + span(k));
    lemma_halved(t, p, k, order);
    lemma_span_monotone(order, k);
    lemma_span_positive(order);
    let h = t.halved(p, k, order);
    assert(h.frames[p].refcount == 0 && !h.head(p));
    lemma_mark_valid(h, p, order, false);
    assert forall|q: int| p <= q < p + span(order) implies (#[trigger] v.frames[q]).refcount
        == 0 by {
        assert(t.frames[q].refcount == 0);
        if q == p {
            assert(t.frames[p].refcount == v.frames[p].refcount);
        } else {
            assert(t.frames[q] == v.frames[q]);
        }
    }
    let w = v.handed_out(order);
    assert forall|q: int| 0 <= q < v.frames.len() && (#[trigger] v.frames[q]).allocated implies {
        &&& q >= p + span(order) || q + span(v.frames[q].order) <= p
        &&& w.frames[q] == v.frames[q]
    } by {
        assert(v.head(q));
        assert(q != p);
        assert(t.frames[q] == v.frames[q]);
        assert(t.head(q));
        lemma_span_positive(v.frames[q].order);
        assert(h.frames[q] == t.frames[q]);
    }
}

/// A block that is handed out and given back leaves as many frames free as
/// before, and the users of all other blocks as they were.
pub proof fn law_alloc_then_free(v: BuddyView, order: int)
    requires
        v.valid(),
        0 <= order,
        v.candidate(order) is Some,
    ensures
        ({
            let frame = PhysFrame((v.candidate(order)->0 * 4096) as u64);
            let w = freed(v.handed_out(order), frame);
            &&& w.valid()
            &&& w.free_total() == v.free_total()
            &&& forall|q: int|
                0 <= q < v.frames.len() ==> (#[trigger] w.frames[q]).refcount
                    == v.frames[q].refcount
        }),
{
    law_handed_out_was_unused(v, order);
    lemma_candidate(v, order);
    let p = v.candidate(order)->0;
    let h = v.handed_out(order);
    let frame = PhysFrame((p * 4096) as u64);
    assert(h.frames.len() == v.frames.len()) by {
        let k = first_order(v.lists, order);
        let t = v.take(k, p);
        lemma_take_valid(v, k, p);
        assert(v.head(p));
        lemma_hole_untouched(t, p, p + span(k));
        lemma_halved(t, p, k, order);
    }
    assert(frame_of(h, frame) == Some(p));
    lemma_unmark_valid(h, p);
    let u = h.unused(p);
    lemma_hole_untouched(u, p, p + span(order));
    lemma_released(u, p, order);
    let w = u.released(p, order);
    assert forall|q: int| 0 <= q < v.frames.len() implies (#[trigger] w.frames[q]).refcount
        == v.frames[q].refcount by {
        assert(w.frames[q].refcount == u.frames[q].refcount);
        lemma_refcount_kept(v, order, q);
    }
}

/// Handing out a block changes the users of no frame but its first.
proof fn lemma_refcount_kept(v: BuddyView, order: int, q: int)
    requires
        v.valid(),
        0 <= order,
        v.candidate(order) is Some,
        0 <= q < v.frames.len(),
    ensures
        q != v.candidate(order)->0 ==> v.handed_out(order).frames[q].refcount
            == v.frames[q].refcount,
        v.frames[v.candidate(order)->0].refcount == 0,
{
    law_handed_out_was_unused(v, order);
    lemma_candidate(v, order);
    let k = first_order(v.lists, order);
    let p = v.candidate(order)->0;
    assert(v.head(p));
    lemma_take_valid(v, k, p);
    let t = v.take(k, p);
    lemma_span_positive(order);
    assert(v.frames[p].refcount == 0);
    lemma_halved_refcount(t, p, k, order, q);
    assert(t.frames[q].refcount == v.frames[q].refcount);
}

proof fn lemma_halved_refcount(v: BuddyView, p: int, from: int, to: int, q: int)
    requires
        0 <= p,
        p + span(from) <= v.frames.len(),
        0 <= q < v.frames.len(),
    ensures
        v.halved(p, from, to).frames[q].refcount == v.frames[q].refcount,
        v.halved(p, from, to).frames.len() == v.frames.len(),
    decreases from,
{
    if from > to && from > 0 {
        lemma_span_positive(from - 1);
        lemma_halved_refcount(v.push(from - 1, p + span(from - 1)), p, from - 1, to, q);
    }
}

/// Handing out a block changes no number of frames.
pub(crate) proof fn lemma_handed_out_length(v: BuddyView, order: int)
    requires
        v.valid(),
        0 <= order,
        v.candidate(order) is Some,
    ensures
        v.handed_out(order).frames.len() == v.frames.len(),
{
    lemma_candidate(v, order);
    let k = first_order(v.lists, order);
    let p = v.candidate(order)->0;
    assert(v.head(p));
    lemma_take_valid(v, k, p);
    lemma_halved_refcount(v.take(k, p), p, k, order, p);
}

/// Nor does giving one back.
pub(crate) proof fn lemma_freed_length(v: BuddyView, frame: PhysFrame)
    requires
        v.valid(),
    ensures
        freed(v, frame).frames.len() == v.frames.len(),
{
    if let Some(p) = frame_of(v, frame) {
        if v.frames[p].refcount == 1 {
            lemma_unmark_valid(v, p);
            let u = v.unused(p);
            lemma_hole_untouched(u, p, p + span(v.frames[p].order));
            lemma_released(u, p, v.frames[p].order);
        }
    }
}

// ---------------------------------------------------------------------------
// The set of free frames
// ---------------------------------------------------------------------------
impl BuddyView {
    /// Whether frame `f` is in the free block that starts at `h`.
    pub open spec fn is_free_in(self, h: int, f: int) -> bool {
        0 <= h < self.frames.len() && self.frames[h].free && h <= f < h + span(
            self.frames[h].order,
        )
    }

    /// Whether frame `f` is free.
    pub open spec fn is_free(self, f: int) -> bool {
        exists|h: int| #[trigger] self.is_free_in(h, f)
    }
}

proof fn lemma_free_push(v: BuddyView, order: int, p: int, f: int)
    requires
        0 <= p < v.frames.len(),
        !v.frames[p].free,
    ensures
        v.push(order, p).is_free(f) <==> v.is_free(f) || p <= f < p + span(order),
{
    let w = v.push(order, p);
    if v.is_free(f) {
        let h = choose|h: int| #[trigger] v.is_free_in(h, f);
        assert(w.is_free_in(h, f));
    }
    if p <= f < p + span(order) {
        assert(w.is_free_in(p, f));
    }
    if w.is_free(f) {
        let h = choose|h: int| #[trigger] w.is_free_in(h, f);
        if h != p {
            assert(v.is_free_in(h, f));
        }
    }
}

proof fn lemma_free_take(v: BuddyView, p: int, f: int)
    requires
        v.valid(),
        0 <= p < v.frames.len(),
        v.frames[p].free,
    ensures
        v.take(v.frames[p].order, p).is_free(f) <==> v.is_free(f) && !(p <= f < p + span(
            v.frames[p].order,
        )),
{
    let w = v.take(v.frames[p].order, p);
    assert(v.head(p));
    if w.is_free(f) {
        let h = choose|h: int| #[trigger] w.is_free_in(h, f);
        assert(v.is_free_in(h, f));
        assert(v.head(h));
    }
    if v.is_free(f) && !(p <= f < p + span(v.frames[p].order)) {
        let h = choose|h: int| #[trigger] v.is_free_in(h, f);
        assert(w.is_free_in(h, f));
    }
}

/// Marking a frame that is not free leaves the free frames as they are.
proof fn lemma_free_same(v: BuddyView, w: BuddyView, p: int, f: int)
    requires
        0 <= p < v.frames.len(),
        w.frames.len() == v.frames.len(),
        !v.frames[p].free,
        !w.frames[p].free,
        forall|q: int| 0 <= q < v.frames.len() && q != p ==> #[trigger] w.frames[q] == v.frames[q],
    ensures
        w.is_free(f) <==> v.is_free(f),
{
    if w.is_free(f) {
        let h = choose|h: int| #[trigger] w.is_free_in(h, f);
        assert(w.frames[h] == v.frames[h]);
        assert(v.is_free_in(h, f));
    }
    if v.is_free(f) {
        let h = choose|h: int| #[trigger] v.is_free_in(h, f);
        assert(w.frames[h] == v.frames[h]);
        assert(w.is_free_in(h, f));
    }
}

proof fn lemma_free_halved(v: BuddyView, p: int, from: int, to: int, f: int)
    requires
        v.valid(),
        0 <= to <= from < 11,
        v.block_inside(p, from),
        v.untouched(p, p + span(from)),
    ensures
        v.halved(p, from, to).is_free(f) <==> v.is_free(f) || p + span(to) <= f < p + span(from),
        forall|i: int|
            to <= i < from ==> #[trigger] v.halved(p, from, to).is_block(p + span(i), i),
    decreases from,
{
    if from > to {
        let half = span(from - 1);
        lemma_span(from);
        lemma_span(from - 1);
        lemma_halves(p, from);
        lemma_span_monotone(to, from - 1);
        assert(v.frames[p + half].refcount == 0);
        lemma_push_valid(v, from - 1, p + half);
        let w = v.push(from - 1, p + half);
        lemma_hole_kept(v, w, p + half, p, p + half);
        lemma_hole_untouched(w, p, p + half);
        lemma_free_push(v, from - 1, p + half, f);
        lemma_free_halved(w, p, from - 1, to, f);
        lemma_halved(w, p, from - 1, to);
        assert(w.halved(p, from - 1, to).frames[p + half] == w.frames[p + half]);
        assert(v.halved(p, from, to).is_block(p + half, from - 1));
        assert forall|i: int| to <= i < from implies #[trigger] v.halved(p, from, to).is_block(
            p + span(i),
            i,
        ) by {
            if i < from - 1 {
                assert(w.halved(p, from - 1, to).is_block(p + span(i), i));
            }
        }
    }
}

impl BuddyView {
    /// Whether a free block of an order starts at `p`.
    pub open spec fn is_block(self, p: int, order: int) -> bool {
        0 <= p < self.frames.len() && self.frames[p].free && self.frames[p].order == order
    }

    /// Whether there is a free block of an order, or a larger one.
    pub open spec fn has_block(self, order: int) -> bool {
        exists|p: int, k: int| k >= order && #[trigger] self.is_block(p, k)
    }
}

proof fn lemma_has_block(v: BuddyView, order: int)
    requires
        v.valid(),
        0 <= order,
    ensures
        v.candidate(order) is Some <==> v.has_block(order),
{
    lemma_first_order(v.lists, order);
    if v.candidate(order) is Some {
        lemma_candidate(v, order);
        assert(v.is_block(v.candidate(order)->0, first_order(v.lists, order)));
    }
    if v.has_block(order) {
        let (p, k) = choose|p: int, k: int| k >= order && #[trigger] v.is_block(p, k);
        assert(v.head(p));
        assert(v.lists[k].contains(p));
        assert(v.lists[k].len() > 0);
    }
}

/// A block that is given back is free, with at least its order, and no free
/// block becomes smaller.
proof fn lemma_free_released(v: BuddyView, p: int, order: int, f: int, least: int)
    requires
        v.valid(),
        0 <= order < 11,
        v.block_inside(p, order),
        v.untouched(p, p + span(order)),
    ensures
        v.released(p, order).is_free(f) <==> v.is_free(f) || p <= f < p + span(order),
        least <= order || v.has_block(least) ==> v.released(p, order).has_block(least),
    decreases 10 - order,
{
    lemma_span(order);
    assert(!v.head(p));
    if order < 10 && v.buddy_free(p, order) {
        let b = buddy(p, order);
        lemma_buddy(p, order);
        lemma_span(order + 1);
        assert(v.head(b));
        lemma_take_valid(v, order, b);
        let w = v.take(order, b);
        let low = lesser(p, b);
        assert forall|h: int| 0 <= h < w.frames.len() && #[trigger] w.head(h) implies h >= low + span(
            order + 1,
        ) || h + span(w.frames[h].order) <= low by {
            assert(v.head(h));
            assert(h != p && h != b);
            lemma_span(v.frames[h].order);
        }
        lemma_hole_untouched(w, low, low + span(order + 1));
        lemma_free_take(v, b, f);
        lemma_free_released(w, low, order + 1, f, least);
        if b <= f < b + span(order) {
            assert(v.is_free_in(b, f));
        }
        if v.has_block(least) && least > order {
            let (q, k) = choose|q: int, k: int| k >= least && #[trigger] v.is_block(q, k);
            assert(w.is_block(q, k));
        }
    } else {
        lemma_free_push(v, order, p, f);
        let w = v.push(order, p);
        if least <= order {
            assert(w.is_block(p, order));
        } else if v.has_block(least) {
            let (q, k) = choose|q: int, k: int| k >= least && #[trigger] v.is_block(q, k);
            assert(w.is_block(q, k));
        }
    }
}

/// A block that was halved is whole again when its lower part is given back.
proof fn lemma_joined(v: BuddyView, p: int, order: int, whole: int, least: int)
    requires
        v.valid(),
        0 <= order <= whole < 11,
        v.block_inside(p, whole),
        v.block_inside(p, order),
        v.untouched(p, p + span(order)),
        forall|i: int| order <= i < whole ==> #[trigger] v.is_block(p + span(i), i),
    ensures
        least <= whole || v.has_block(least) ==> v.released(p, order).has_block(least),
    decreases whole - order,
{
    lemma_span(order);
    if order == whole {
        lemma_free_released(v, p, order, p, least);
    } else {
        lemma_span(order + 1);
        lemma_span(whole);
        lemma_aligned_below(p, order + 1, whole);
        lemma_upper_buddy(p, order);
        let b = p + span(order);
        assert(v.is_block(p + span(order), order));
        assert(v.head(b));
        lemma_take_valid(v, order, b);
        let w = v.take(order, b);
        assert forall|h: int| 0 <= h < w.frames.len() && #[trigger] w.head(h) implies h >= p + span(
            order + 1,
        ) || h + span(w.frames[h].order) <= p by {
            assert(v.head(h));
            assert(!v.head(p)) by {
                assert(v.frames[p].refcount == 0);
            }
            assert(h != p && h != b);
            lemma_span(v.frames[h].order);
        }
        lemma_span_monotone(order + 1, whole);
        lemma_hole_untouched(w, p, p + span(order + 1));
        assert forall|i: int| order + 1 <= i < whole implies #[trigger] w.is_block(p + span(i), i) by {
            assert(v.is_block(p + span(i), i));
            lemma_span_monotone(order + 1, i);
        }
        lemma_joined(w, p, order + 1, whole, least);
        if v.has_block(least) && least > whole {
            let (q, k) = choose|q: int, k: int| k >= least && #[trigger] v.is_block(q, k);
            assert(w.is_block(q, k));
        }
    }
}

/// A block is aligned for all smaller orders.
proof fn lemma_aligned_below(p: int, order: int, whole: int)
    requires
        0 <= p,
        0 <= order <= whole <= 10,
        p % span(whole) == 0,
    ensures
        p % span(order) == 0,
    decreases whole - order,
{
    if order < whole {
        lemma_halves(p, whole);
        lemma_aligned_below(p, order, whole - 1);
    }
}

/// The buddy of a block that starts a larger one is above it.
#[verifier::spinoff_prover]
proof fn lemma_upper_buddy(p: int, k: int)
    requires
        0 <= p,
        0 <= k < 10,
        p % span(k + 1) == 0,
    ensures
        buddy(p, k) == p + span(k),
        p % span(k) == 0,
{
    lemma_span(k);
    lemma_span(k + 1);
    let s = span(k);
    assert(p / s % 2 == 0 && p % s == 0) by (nonlinear_arith)
        requires
            s >= 1,
            p >= 0,
            p % (2 * s) == 0,
    {
        let n = p / (2 * s);
        assert(p == n * (2 * s));
        assert(p == (2 * n) * s);
        assert(p / s == 2 * n);
        assert(p % s == 0);
    }
}

/// The frame at address zero is never free, so no block that is handed out
/// holds it.
pub proof fn law_first_frame_never_free(v: BuddyView, order: int)
    requires
        v.valid(),
        0 <= order,
    ensures
        !v.is_free(0),
        v.candidate(order) matches Some(p) ==> p > 0,
{
    if v.candidate(order) is Some {
        lemma_candidate(v, order);
    }
}

/// A block that is handed out was free to its last frame, and exactly its
/// frames are no longer free.
pub proof fn law_handed_out_was_free(v: BuddyView, order: int, f: int)
    requires
        v.valid(),
        0 <= order,
        v.candidate(order) is Some,
    ensures
        ({
            let p = v.candidate(order)->0;
            &&& p <= f < p + span(order) ==> v.is_free(f)
            &&& v.handed_out(order).is_free(f) <==> v.is_free(f) && !(p <= f < p + span(order))
        }),
{
    lemma_candidate(v, order);
    let k = first_order(v.lists, order);
    let p = v.candidate(order)->0;
    assert(v.head(p));
    lemma_take_valid(v, k, p);
    let t = v.take(k, p);
    lemma_hole_untouched(t, p, p + span(k));
    lemma_halved(t, p, k, order);
    lemma_span_monotone(order, k);
    lemma_span_positive(order);
    lemma_free_take(v, p, f);
    lemma_free_halved(t, p, k, order, f);
    let h = t.halved(p, k, order);
    assert(h.frames[p].refcount == 0 && !h.head(p));
    lemma_free_same(h, h.marked(p, order, false), p, f);
    if p <= f < p + span(k) {
        assert(v.is_free_in(p, f));
    }
}

/// A block that is handed out and given back leaves the same frames free as
/// before, and blocks of all orders to be had that were to be had before: its
/// halves have joined again. It cannot be given back twice.
pub proof fn law_free_undoes_alloc(v: BuddyView, order: int, f: int, least: int)
    requires
        v.valid(),
        0 <= order,
        v.candidate(order) is Some,
        0 <= least,
    ensures
        ({
            let frame = PhysFrame((v.candidate(order)->0 * 4096) as u64);
            let w = freed(v.handed_out(order), frame);
            &&& is_used(v.handed_out(order), frame)
            &&& w.valid()
            &&& w.is_free(f) <==> v.is_free(f)
            &&& w.free_total() == v.free_total()
            &&& users(w, v.candidate(order)->0) == 0
            &&& v.candidate(least) is Some ==> w.candidate(least) is Some
            &&& !is_used(w, frame)
            &&& freed(w, frame) == w
        }),
{
    law_handed_out_was_unused(v, order);
    law_alloc_then_free(v, order);
    law_handed_out_was_free(v, order, f);
    lemma_handed_out_length(v, order);
    lemma_candidate(v, order);
    let k = first_order(v.lists, order);
    let p = v.candidate(order)->0;
    let t = v.take(k, p);
    let h = v.handed_out(order);
    let frame = PhysFrame((p * 4096) as u64);
    assert(frame_of(h, frame) == Some(p));
    lemma_unmark_valid(h, p);
    let u = h.unused(p);
    lemma_hole_untouched(u, p, p + span(order));
    lemma_free_same(h, u, p, f);
    lemma_free_released(u, p, order, f, least);
    lemma_freed_length(h, frame);
    let w = freed(h, frame);
    lemma_span_positive(order);
    assert(w.frames[p].refcount == v.frames[p].refcount);
    lemma_has_block(v, least);
    lemma_has_block(w, least);
    if v.has_block(least) {
        assert(v.head(p));
        lemma_take_valid(v, k, p);
        lemma_hole_untouched(t, p, p + span(k));
        lemma_halved(t, p, k, order);
        lemma_free_halved(t, p, k, order, f);
        let x = t.halved(p, k, order);
        assert(x.frames[p].refcount == 0 && !x.head(p));
        assert forall|i: int| order <= i < k implies #[trigger] u.is_block(p + span(i), i) by {
            assert(x.is_block(p + span(i), i));
            lemma_span_positive(i);
        }
        assert(u.block_inside(p, k));
        if least > k {
            let (q, j) = choose|q: int, j: int| j >= least && #[trigger] v.is_block(q, j);
            assert(v.head(q));
            assert(q != p);
            lemma_span_positive(j);
            assert(t.frames[q] == v.frames[q]);
            assert(q < p + span(order) || q >= p + span(k));
            assert(x.frames[q] == t.frames[q]);
            assert(u.is_block(q, j));
        }
        lemma_joined(u, p, order, k, least);
    }
}

proof fn lemma_carved(v: BuddyView, p: int, head: int, k: int, f: int)
    requires
        v.valid(),
        head > 0,
        0 <= k < 11,
        v.block_inside(head, k),
        v.untouched(head, head + span(k)),
        head <= p < head + span(k),
    ensures
        v.carved(p, head, k).valid(),
        v.carved(p, head, k).frames.len() == v.frames.len(),
        v.carved(p, head, k).untouched(p, p + 1),
        v.carved(p, head, k).free_total() == v.free_total() + span(k) - 1,
        v.carved(p, head, k).is_free(f) <==> v.is_free(f) || (head <= f < head + span(k) && f != p),
    decreases k,
{
    lemma_span(k);
    if k > 0 {
        let half = span(k - 1);
        lemma_span(k - 1);
        lemma_halves(head, k);
        let upper = head + half;
        assert(v.frames[head].refcount == 0 && v.frames[upper].refcount == 0);
        if p < upper {
            lemma_push_valid(v, k - 1, upper);
            let w = v.push(k - 1, upper);
            lemma_hole_kept(v, w, upper, head, upper);
            lemma_hole_untouched(w, head, upper);
            lemma_free_push(v, k - 1, upper, f);
            lemma_carved(w, p, head, k - 1, f);
        } else {
            lemma_push_valid(v, k - 1, head);
            let w = v.push(k - 1, head);
            lemma_hole_kept(v, w, head, upper, upper + half);
            lemma_hole_untouched(w, upper, upper + half);
            lemma_free_push(v, k - 1, head, f);
            lemma_carved(w, p, upper, k - 1, f);
        }
    }
}

proof fn lemma_holder(v: BuddyView, p: int, k: int)
    requires
        v.valid(),
        0 <= p < v.frames.len(),
        0 <= k,
    ensures
        v.holder(p, k) matches Some(j) ==> k <= j < 11 && v.is_block(p - p % span(j), j) && v.is_free(
            p,
        ) && 0 <= p % span(j) < span(j),
        v.holder(p, k) is None ==> forall|j: int|
            k <= j < 11 ==> !#[trigger] v.is_block(p - p % span(j), j),
    decreases 11 - k,
{
    if k < 11 {
        lemma_span(k);
        vstd::arithmetic::div_mod::lemma_mod_bound(p, span(k));
        vstd::arithmetic::div_mod::lemma_mod_decreases(p as nat, span(k) as nat);
        lemma_holder(v, p, k + 1);
        if v.is_block(p - p % span(k), k) {
            assert(v.is_free_in(p - p % span(k), p));
        } else {
            assert forall|j: int| k <= j < 11 && v.holder(p, k) is None implies !#[trigger] v.is_block(
                p - p % span(j),
                j,
            ) by {}
        }
    }
}

proof fn lemma_free_has_holder(v: BuddyView, p: int)
    requires
        v.valid(),
        0 <= p < v.frames.len(),
    ensures
        v.is_free(p) <==> v.holder(p, 0) is Some,
{
    lemma_holder(v, p, 0);
    if v.is_free(p) {
        let h = choose|h: int| #[trigger] v.is_free_in(h, p);
        assert(v.head(h));
        let k = v.frames[h].order;
        lemma_span(k);
        let d = p - h;
        vstd::arithmetic::div_mod::lemma_mod_adds(h, d, span(k));
        vstd::arithmetic::div_mod::lemma_small_mod(d as nat, span(k) as nat);
        vstd::arithmetic::div_mod::lemma_add_mod_noop(h, d, span(k));
        assert(p % span(k) == d);
        assert(v.is_block(p - p % span(k), k));
    }
}

/// Setting a frame aside that is neither in use nor set aside yet takes exactly
/// that frame out of the free ones, if it was one of them; one that is set
/// aside, or in use, stays as it is.
pub proof fn law_set_aside_takes_one(v: BuddyView, p: int, f: int)
    requires
        v.valid(),
        0 <= p < v.frames.len(),
    ensures
        ({
            let w = v.set_aside(p);
            let taken = !v.frames[p].allocated && !v.frames[p].reserved;
            &&& w.frames.len() == v.frames.len()
            &&& taken ==> (w.is_free(f) <==> v.is_free(f) && f != p)
            &&& taken ==> w.free_total() == v.free_total() - (if v.is_free(p) {
                1int
            } else {
                0
            })
            &&& !taken ==> w == v
            &&& w.set_aside(p) == w
        }),
{
    lemma_free_has_holder(v, p);
    lemma_holder(v, p, 0);
    if !v.frames[p].allocated && !v.frames[p].reserved {
        match v.holder(p, 0) {
            Some(k) => {
                let head = p - p % span(k);
                assert(v.head(head));
                lemma_take_valid(v, k, head);
                let t = v.take(k, head);
                lemma_hole_untouched(t, head, head + span(k));
                lemma_free_take(v, head, f);
                lemma_carved(t, p, head, k, f);
                let c = t.carved(p, head, k);
                assert(c.frames[p].refcount == 0 && !c.head(p));
                lemma_free_same(c, c.marked(p, 0, true), p, f);
                if head <= f < head + span(k) {
                    assert(v.is_free_in(head, f));
                }
            },
            None => {
                let w = v.set_aside(p);
                if v.frames[p].free {
                    assert(v.head(p));
                    lemma_span_positive(v.frames[p].order);
                    assert(v.is_free_in(p, p));
                }
                lemma_free_same(v, w, p, f);
            },
        }
    }
}

// ---------------------------------------------------------------------------
// The frames in blocks
// ---------------------------------------------------------------------------
impl BuddyView {
    /// Whether frame `q` is in the block that starts at `h`.
    pub open spec fn covers_at(self, h: int, q: int) -> bool {
        0 <= h < self.frames.len() && self.head(h) && h <= q < h + span(self.frames[h].order)
    }

    /// Whether frame `q` is in a block, free or handed out.
    pub open spec fn covers(self, q: int) -> bool {
        exists|h: int| #[trigger] self.covers_at(h, q)
    }
}

/// Frames stay in blocks whose heads stay as they are.
proof fn lemma_covers_kept(v: BuddyView, w: BuddyView, p: int, q: int)
    requires
        w.frames.len() == v.frames.len(),
        forall|h: int|
            0 <= h < v.frames.len() && h != p && #[trigger] v.head(h) ==> w.head(h)
                && w.frames[h].order == v.frames[h].order,
    ensures
        v.covers(q) && !v.covers_at(p, q) ==> w.covers(q),
{
    if v.covers(q) && !v.covers_at(p, q) {
        let h = choose|h: int| #[trigger] v.covers_at(h, q);
        assert(v.head(h));
        assert(w.covers_at(h, q));
    }
}

proof fn lemma_covers_push(v: BuddyView, k: int, p: int, q: int)
    requires
        0 <= p < v.frames.len(),
        !v.head(p),
    ensures
        v.covers(q) || p <= q < p + span(k) ==> v.push(k, p).covers(q),
{
    let w = v.push(k, p);
    lemma_covers_kept(v, w, p, q);
    if p <= q < p + span(k) {
        assert(w.covers_at(p, q));
    }
}

proof fn lemma_covers_mark(v: BuddyView, p: int, order: int, reserved: bool, q: int)
    requires
        0 <= p < v.frames.len(),
        !v.head(p),
    ensures
        v.covers(q) || p <= q < p + span(order) ==> v.marked(p, order, reserved).covers(q),
{
    let w = v.marked(p, order, reserved);
    lemma_covers_kept(v, w, p, q);
    if p <= q < p + span(order) {
        assert(w.covers_at(p, q));
    }
}

proof fn lemma_covers_take(v: BuddyView, k: int, p: int, q: int)
    requires
        0 <= p < v.frames.len(),
        v.frames[p].order == k,
    ensures
        v.covers(q) ==> v.take(k, p).covers(q) || p <= q < p + span(k),
{
    lemma_covers_kept(v, v.take(k, p), p, q);
}

proof fn lemma_covers_halved(v: BuddyView, p: int, from: int, to: int, q: int)
    requires
        v.valid(),
        0 <= to <= from < 11,
        v.block_inside(p, from),
        v.untouched(p, p + span(from)),
    ensures
        v.covers(q) || p + span(to) <= q < p + span(from) ==> v.halved(p, from, to).covers(q),
    decreases from,
{
    if from > to {
        let half = span(from - 1);
        lemma_span(from);
        lemma_span(from - 1);
        lemma_halves(p, from);
        lemma_span_monotone(to, from - 1);
        assert(v.frames[p + half].refcount == 0);
        lemma_push_valid(v, from - 1, p + half);
        let w = v.push(from - 1, p + half);
        lemma_hole_kept(v, w, p + half, p, p + half);
        lemma_hole_untouched(w, p, p + half);
        lemma_covers_push(v, from - 1, p + half, q);
        lemma_covers_halved(w, p, from - 1, to, q);
    }
}

proof fn lemma_covers_released(v: BuddyView, p: int, order: int, q: int)
    requires
        v.valid(),
        p > 0,
        0 <= order < 11,
        v.block_inside(p, order),
        v.untouched(p, p + span(order)),
    ensures
        v.covers(q) || p <= q < p + span(order) ==> v.released(p, order).covers(q),
    decreases 10 - order,
{
    lemma_span(order);
    assert(v.frames[p].refcount == 0 && !v.head(p));
    if order < 10 && v.buddy_free(p, order) {
        let b = buddy(p, order);
        lemma_buddy(p, order);
        lemma_span(order + 1);
        assert(v.head(b));
        lemma_take_valid(v, order, b);
        let w = v.take(order, b);
        let low = lesser(p, b);
        assert forall|h: int| 0 <= h < w.frames.len() && #[trigger] w.head(h) implies h >= low + span(
            order + 1,
        ) || h + span(w.frames[h].order) <= low by {
            assert(v.head(h));
            assert(h != p && h != b);
            lemma_span(v.frames[h].order);
        }
        lemma_hole_untouched(w, low, low + span(order + 1));
        lemma_covers_take(v, order, b, q);
        lemma_covers_released(w, low, order + 1, q);
    } else {
        lemma_covers_push(v, order, p, q);
    }
}

proof fn lemma_covers_carved(v: BuddyView, p: int, head: int, k: int, q: int)
    requires
        v.valid(),
        head > 0,
        0 <= k < 11,
        v.block_inside(head, k),
        v.untouched(head, head + span(k)),
        head <= p < head + span(k),
    ensures
        v.covers(q) || (head <= q < head + span(k) && q != p) ==> v.carved(p, head, k).covers(q),
    decreases k,
{
    lemma_span(k);
    if k > 0 {
        let half = span(k - 1);
        lemma_span(k - 1);
        lemma_halves(head, k);
        let upper = head + half;
        assert(v.frames[head].refcount == 0 && v.frames[upper].refcount == 0);
        if p < upper {
            lemma_push_valid(v, k - 1, upper);
            let w = v.push(k - 1, upper);
            lemma_hole_kept(v, w, upper, head, upper);
            lemma_hole_untouched(w, head, upper);
            lemma_covers_push(v, k - 1, upper, q);
            lemma_covers_carved(w, p, head, k - 1, q);
        } else {
            lemma_push_valid(v, k - 1, head);
            let w = v.push(k - 1, head);
            lemma_hole_kept(v, w, head, upper, upper + half);
            lemma_hole_untouched(w, upper, upper + half);
            lemma_covers_push(v, k - 1, head, q);
            lemma_covers_carved(w, p, upper, k - 1, q);
        }
    }
}

/// Handing a block out leaves all frames in blocks.
proof fn lemma_covers_handed_out(v: BuddyView, order: int, q: int)
    requires
        v.valid(),
        0 <= order,
        v.candidate(order) is Some,
    ensures
        v.covers(q) ==> v.handed_out(order).covers(q),
{
    lemma_candidate(v, order);
    let k = first_order(v.lists, order);
    let p = v.candidate(order)->0;
    assert(v.head(p));
    lemma_take_valid(v, k, p);
    let t = v.take(k, p);
    lemma_hole_untouched(t, p, p + span(k));
    lemma_halved(t, p, k, order);
    lemma_span_monotone(order, k);
    lemma_span_positive(order);
    let h = t.halved(p, k, order);
    assert(h.frames[p].refcount == 0 && !h.head(p));
    lemma_covers_take(v, k, p, q);
    lemma_covers_halved(t, p, k, order, q);
    lemma_covers_mark(h, p, order, false, q);
}

/// One user less leaves all frames in blocks.
proof fn lemma_covers_freed(v: BuddyView, frame: PhysFrame, q: int)
    requires
        v.valid(),
    ensures
        v.covers(q) ==> freed(v, frame).covers(q),
{
    if let Some(p) = frame_of(v, frame) {
        if v.frames[p].refcount == 1 {
            let order = v.frames[p].order;
            assert(v.head(p));
            lemma_unmark_valid(v, p);
            let u = v.unused(p);
            lemma_hole_untouched(u, p, p + span(order));
            lemma_covers_kept(v, u, p, q);
            lemma_covers_released(u, p, order, q);
        } else {
            lemma_covers_same(v, freed(v, frame), q);
        }
    }
}

/// Frames stay in blocks that stay as they are.
proof fn lemma_covers_same(v: BuddyView, w: BuddyView, q: int)
    requires
        w.frames.len() == v.frames.len(),
        forall|h: int|
            0 <= h < v.frames.len() && #[trigger] v.head(h) ==> w.head(h) && w.frames[h].order
                == v.frames[h].order,
    ensures
        v.covers(q) ==> w.covers(q),
{
    lemma_covers_kept(v, w, -1, q);
}

/// Setting a frame aside leaves all frames in blocks.
proof fn lemma_covers_set_aside(v: BuddyView, p: int, q: int)
    requires
        v.valid(),
        0 <= p < v.frames.len(),
    ensures
        v.covers(q) ==> v.set_aside(p).covers(q),
{
    if !v.frames[p].allocated && !v.frames[p].reserved {
        lemma_holder(v, p, 0);
        match v.holder(p, 0) {
            Some(k) => {
                let head = p - p % span(k);
                assert(v.head(head));
                lemma_take_valid(v, k, head);
                let t = v.take(k, head);
                lemma_hole_untouched(t, head, head + span(k));
                lemma_carved(t, p, head, k, q);
                let c = t.carved(p, head, k);
                assert(c.frames[p].refcount == 0 && !c.head(p));
                lemma_covers_take(v, k, head, q);
                lemma_covers_carved(t, p, head, k, q);
                lemma_span(0);
                lemma_covers_mark(c, p, 0, true, q);
            },
            None => {
                lemma_covers_same(v, v.set_aside(p), q);
            },
        }
    }
}

/// Frames that no block reaches are not among those in blocks, and as many more
/// can be counted.
proof fn lemma_more_usable(v: BuddyView, usable: Set<int>, start: int, end: int)
    requires
        usable.finite(),
        forall|q: int| #[trigger] usable.contains(q) ==> 0 <= q < v.frames.len() && v.covers(q),
        0 <= start <= end <= v.frames.len(),
        v.hole(start, end),
    ensures
        ({
            let more = usable + vstd::set_lib::set_int_range(start, end);
            &&& more.finite()
            &&& more.len() == usable.len() + (end - start)
            &&& more.len() <= v.frames.len()
        }),
{
    let range = vstd::set_lib::set_int_range(start, end);
    let more = usable + range;
    vstd::set_lib::lemma_int_range(start, end);
    vstd::set_lib::lemma_int_range(0, v.frames.len() as int);
    assert(usable.disjoint(range)) by {
        assert forall|q: int| usable.contains(q) implies !range.contains(q) by {
            let h = choose|h: int| #[trigger] v.covers_at(h, q);
            assert(v.head(h));
        }
    }
    vstd::set_lib::lemma_set_disjoint_lens(usable, range);
    assert(more.subset_of(vstd::set_lib::set_int_range(0, v.frames.len() as int)));
    vstd::set_lib::lemma_len_subset(more, vstd::set_lib::set_int_range(0, v.frames.len() as int));
}

/// No more frames are counted as usable than there are.
pub proof fn law_usable_frames_exist(allocator: BuddyAllocator)
    requires
        allocator.wf(),
    ensures
        allocator.total_usable_frames <= allocator@.frames.len(),
{
    reveal(BuddyAllocator::usable_counted);
    let n = allocator@.frames.len() as int;
    let all = vstd::set_lib::set_int_range(0, n);
    vstd::set_lib::lemma_int_range(0, n);
    assert(allocator.usable@.subset_of(all));
    vstd::set_lib::lemma_len_subset(allocator.usable@, all);
}

} // verus!
