//! Swap: slots for pages on disk, and the choice of the pages that go there.
use vstd::prelude::*;

use crate::bytes::{self, get_le64, push_all, push_le64, put_vec};
use crate::memory::{free_frames_count, PAGE_SIZE};
use crate::paging::{
    self, create_address_space, destroy_address_space, phys_to_virt, release_table, take_frame,
    translate_in, unmap, AddressSpace, Machine, MachineView, MapError, MAP_USER, MAP_WRITABLE,
};

verus! {

pub const MAX_SWAP_SLOTS: usize = 16_384;

pub const MAX_TRACKED_PAGES: usize = 512;

const SECTORS_PER_PAGE: u64 = 8;

#[derive(Clone, Copy, Debug, PartialEq, Eq, Structural)]
pub struct TrackedUserPage {
    pub space: AddressSpace,
    pub vaddr: u64,
}

/// Which slots are used, and the pages that may be evicted, with the hand of
/// the clock that goes round them.
pub struct SwapManager {
    pub bitmap: Vec<bool>,
    pub used_slots: usize,
    pub clock_hand: usize,
    pub tracked_pages: Vec<Option<TrackedUserPage>>,
    pub tracked_count: usize,
}

/// How many of the first `n` are taken.
pub open spec fn taken(s: Seq<bool>, n: int) -> int
    decreases n,
{
    if n <= 0 {
        0
    } else {
        taken(s, n - 1) + (if s[n - 1] {
            1int
        } else {
            0
        })
    }
}

pub open spec fn watched(s: Seq<Option<TrackedUserPage>>, n: int) -> int
    decreases n,
{
    if n <= 0 {
        0
    } else {
        watched(s, n - 1) + (if s[n - 1] is Some {
            1int
        } else {
            0
        })
    }
}

proof fn lemma_taken_update(s: Seq<bool>, i: int, b: bool, n: int)
    requires
        0 <= i < s.len(),
        0 <= n <= s.len(),
    ensures
        taken(s.update(i, b), n) == taken(s, n) + (if i < n {
            (if b {
                1int
            } else {
                0
            }) - (if s[i] {
                1int
            } else {
                0
            })
        } else {
            0
        }),
        0 <= taken(s, n) <= n,
    decreases n,
{
    if n > 0 {
        lemma_taken_update(s, i, b, n - 1);
    }
}

proof fn lemma_tracked_update(
    s: Seq<Option<TrackedUserPage>>,
    i: int,
    p: Option<TrackedUserPage>,
    n: int,
)
    requires
        0 <= i < s.len(),
        0 <= n <= s.len(),
    ensures
        watched(s.update(i, p), n) == watched(s, n) + (if i < n {
            (if p is Some {
                1int
            } else {
                0
            }) - (if s[i] is Some {
                1int
            } else {
                0
            })
        } else {
            0
        }),
        0 <= watched(s, n) <= n,
    decreases n,
{
    if n > 0 {
        lemma_tracked_update(s, i, p, n - 1);
    }
}

proof fn lemma_tracked_some(s: Seq<Option<TrackedUserPage>>, i: int, n: int)
    requires
        0 <= i < n <= s.len(),
        s[i] is Some,
    ensures
        watched(s, n) >= 1,
    decreases n,
{
    lemma_tracked_update(s, i, s[i], n - 1);
    if i < n - 1 {
        lemma_tracked_some(s, i, n - 1);
    }
}

/// The first free slot from `i` on; the number of slots if there is none.
pub open spec fn first_free(s: Seq<bool>, i: int) -> int
    decreases s.len() - i,
{
    if i < 0 || i >= s.len() {
        s.len() as int
    } else if !s[i] {
        i
    } else {
        first_free(s, i + 1)
    }
}

/// The place where a page is remembered, from `i` on; the number of places if it
/// is not.
pub open spec fn place_of(s: Seq<Option<TrackedUserPage>>, p: TrackedUserPage, i: int) -> int
    decreases s.len() - i,
{
    if i < 0 || i >= s.len() {
        s.len() as int
    } else if s[i] == Some(p) {
        i
    } else {
        place_of(s, p, i + 1)
    }
}

/// The first place without a page, from `i` on.
pub open spec fn empty_place(s: Seq<Option<TrackedUserPage>>, i: int) -> int
    decreases s.len() - i,
{
    if i < 0 || i >= s.len() {
        s.len() as int
    } else if s[i] is None {
        i
    } else {
        empty_place(s, i + 1)
    }
}

/// The page of an address in a space.
pub open spec fn page_at(space: AddressSpace, vaddr: u64) -> TrackedUserPage {
    TrackedUserPage { space, vaddr: (vaddr / 4096 * 4096) as u64 }
}

impl SwapManager {
    pub open spec fn wf(&self) -> bool {
        &&& self.bitmap.len() == 16_384
        &&& self.tracked_pages.len() == 512
        &&& self.used_slots == taken(self.bitmap@, 16_384)
        &&& self.tracked_count == watched(self.tracked_pages@, 512)
        &&& self.clock_hand < 512
    }

    pub fn new() -> (r: Self)
        ensures
            r.wf(),
            r.used_slots == 0,
            r.tracked_count == 0,
            r.clock_hand == 0,
            forall|i: int| 0 <= i < 16_384 ==> !r.bitmap@[i],
            forall|i: int| 0 <= i < 512 ==> r.tracked_pages@[i] is None,
    {
        let mut bitmap: Vec<bool> = Vec::new();
        let mut i: usize = 0;
        while i < MAX_SWAP_SLOTS
            invariant
                i <= 16_384,
                bitmap.len() == i,
                forall|j: int| 0 <= j < i ==> !bitmap@[j],
                taken(bitmap@, i as int) == 0,
            decreases 16_384 - i,
        {
            let ghost was = bitmap@;
            bitmap.push(false);
            i += 1;
            proof {
                lemma_taken_prefix(was, bitmap@, i - 1);
            }
        }
        let mut pages: Vec<Option<TrackedUserPage>> = Vec::new();
        let mut k: usize = 0;
        while k < MAX_TRACKED_PAGES
            invariant
                k <= 512,
                pages.len() == k,
                forall|j: int| 0 <= j < k ==> pages@[j] is None,
                watched(pages@, k as int) == 0,
            decreases 512 - k,
        {
            let ghost was = pages@;
            pages.push(None);
            k += 1;
            proof {
                lemma_tracked_prefix(was, pages@, k - 1);
            }
        }
        SwapManager {
            bitmap,
            used_slots: 0,
            clock_hand: 0,
            tracked_pages: pages,
            tracked_count: 0,
        }
    }

    /// Takes the first free slot.
    pub fn alloc_slot(&mut self) -> (r: Option<u32>)
        requires
            old(self).wf(),
        ensures
            final(self).wf(),
            final(self).clock_hand == old(self).clock_hand,
            final(self).tracked_pages == old(self).tracked_pages,
            final(self).tracked_count == old(self).tracked_count,
            match r {
                Some(slot) => {
                    &&& slot == first_free(old(self).bitmap@, 0)
                    &&& slot < 16_384
                    &&& !old(self).bitmap@[slot as int]
                    &&& final(self).bitmap@ == old(self).bitmap@.update(slot as int, true)
                    &&& final(self).used_slots == old(self).used_slots + 1
                },
                None => first_free(old(self).bitmap@, 0) == 16_384 && *final(self) == *old(self),
            },
    {
        let mut i: usize = 0;
        while i < MAX_SWAP_SLOTS
            invariant
                i <= 16_384,
                self.wf(),
                *self == *old(self),
                first_free(self.bitmap@, 0) == first_free(self.bitmap@, i as int),
            decreases 16_384 - i,
        {
            if !self.bitmap[i] {
                proof {
                    lemma_taken_update(self.bitmap@, i as int, true, 16_384);
                }
                self.bitmap[i] = true;
                self.used_slots = self.used_slots + 1;
                return Some(i as u32);
            }
            i += 1;
        }
        None
    }

    /// Gives a slot back.
    pub fn free_slot(&mut self, slot: u32)
        requires
            old(self).wf(),
        ensures
            final(self).wf(),
            final(self).clock_hand == old(self).clock_hand,
            final(self).tracked_pages == old(self).tracked_pages,
            final(self).tracked_count == old(self).tracked_count,
            final(self).bitmap@ == if slot < 16_384 {
                old(self).bitmap@.update(slot as int, false)
            } else {
                old(self).bitmap@
            },
            final(self).used_slots == if slot < 16_384 && old(self).bitmap@[slot as int] {
                old(self).used_slots - 1
            } else {
                old(self).used_slots as int
            },
    {
        let slot: usize = slot as usize;
        if slot >= MAX_SWAP_SLOTS {
            return;
        }
        if self.bitmap[slot] {
            proof {
                lemma_taken_update(self.bitmap@, slot as int, false, 16_384);
                lemma_taken_update(
                    self.bitmap@.update(slot as int, false),
                    slot as int,
                    false,
                    16_384,
                );
            }
            self.bitmap[slot] = false;
            self.used_slots = self.used_slots - 1;
        } else {
            assert(self.bitmap@ =~= self.bitmap@.update(slot as int, false));
        }
    }

    /// Lets a page be evicted, if there is room to remember it.
    pub fn track_page(&mut self, space: AddressSpace, vaddr: u64)
        requires
            old(self).wf(),
        ensures
            final(self).wf(),
            final(self).clock_hand == old(self).clock_hand,
            final(self).bitmap == old(self).bitmap,
            final(self).used_slots == old(self).used_slots,
            final(self).tracked_pages@ == ({
                let pages = old(self).tracked_pages@;
                let page = page_at(space, vaddr);
                let i = empty_place(pages, 0);
                if place_of(pages, page, 0) < 512 || i >= 512 {
                    pages
                } else {
                    pages.update(i, Some(page))
                }
            }),
    {
        let page = TrackedUserPage { space, vaddr: vaddr / PAGE_SIZE * PAGE_SIZE };
        if self.find(page) < MAX_TRACKED_PAGES {
            return;
        }
        let mut i: usize = 0;
        while i < MAX_TRACKED_PAGES
            invariant
                i <= 512,
                self.wf(),
                *self == *old(self),
                page == page_at(space, vaddr),
                place_of(self.tracked_pages@, page, 0) >= 512,
                empty_place(self.tracked_pages@, 0) == empty_place(self.tracked_pages@, i as int),
            decreases 512 - i,
        {
            if self.tracked_pages[i].is_none() {
                proof {
                    lemma_tracked_update(self.tracked_pages@, i as int, Some(page), 512);
                }
                self.tracked_pages[i] = Some(page);
                self.tracked_count = self.tracked_count + 1;
                return;
            }
            i += 1;
        }
    }

    fn find(&self, page: TrackedUserPage) -> (r: usize)
        requires
            self.wf(),
        ensures
            r == place_of(self.tracked_pages@, page, 0),
            r <= 512,
            r < 512 ==> self.tracked_pages@[r as int] == Some(page),
    {
        let mut i: usize = 0;
        while i < MAX_TRACKED_PAGES
            invariant
                i <= 512,
                self.wf(),
                place_of(self.tracked_pages@, page, 0) == place_of(
                    self.tracked_pages@,
                    page,
                    i as int,
                ),
            decreases 512 - i,
        {
            if let Some(p) = self.tracked_pages[i] {
                if p == page {
                    return i;
                }
            }
            i += 1;
        }
        i
    }

    /// Lets a page be no longer evicted.
    pub fn untrack_page(&mut self, space: AddressSpace, vaddr: u64)
        requires
            old(self).wf(),
        ensures
            final(self).wf(),
            final(self).clock_hand == old(self).clock_hand,
            final(self).bitmap == old(self).bitmap,
            final(self).used_slots == old(self).used_slots,
            final(self).tracked_pages@ == ({
                let pages = old(self).tracked_pages@;
                let i = place_of(pages, page_at(space, vaddr), 0);
                if i < 512 {
                    pages.update(i, None)
                } else {
                    pages
                }
            }),
    {
        let page = TrackedUserPage { space, vaddr: vaddr / PAGE_SIZE * PAGE_SIZE };
        let i: usize = self.find(page);
        if i < MAX_TRACKED_PAGES {
            self.forget(i);
        }
    }

    fn forget(&mut self, i: usize)
        requires
            old(self).wf(),
            i < 512,
            old(self).tracked_pages@[i as int] is Some,
        ensures
            final(self).wf(),
            final(self).clock_hand == old(self).clock_hand,
            final(self).bitmap == old(self).bitmap,
            final(self).used_slots == old(self).used_slots,
            final(self).tracked_pages@ == old(self).tracked_pages@.update(i as int, None),
            final(self).tracked_count == old(self).tracked_count - 1,
    {
        proof {
            lemma_tracked_some(self.tracked_pages@, i as int, 512);
            lemma_tracked_update(self.tracked_pages@, i as int, None, 512);
        }
        self.tracked_pages[i] = None;
        self.tracked_count = self.tracked_count - 1;
    }

    pub fn used_slots(&self) -> (r: usize)
        ensures
            r == self.used_slots,
    {
        self.used_slots
    }

    pub fn free_slots(&self) -> (r: usize)
        requires
            self.wf(),
        ensures
            r == 16_384 - self.used_slots,
    {
        proof {
            lemma_taken_update(self.bitmap@, 0, false, 16_384);
        }
        MAX_SWAP_SLOTS - self.used_slots
    }
}

proof fn lemma_taken_prefix(a: Seq<bool>, b: Seq<bool>, n: int)
    requires
        n <= a.len(),
        n <= b.len(),
        forall|i: int| 0 <= i < n ==> a[i] == b[i],
    ensures
        taken(a, n) == taken(b, n),
    decreases n,
{
    if n > 0 {
        lemma_taken_prefix(a, b, n - 1);
    }
}

proof fn lemma_tracked_prefix(
    a: Seq<Option<TrackedUserPage>>,
    b: Seq<Option<TrackedUserPage>>,
    n: int,
)
    requires
        n <= a.len(),
        n <= b.len(),
        forall|i: int| 0 <= i < n ==> a[i] == b[i],
    ensures
        watched(a, n) == watched(b, n),
    decreases n,
{
    if n > 0 {
        lemma_tracked_prefix(a, b, n - 1);
    }
}

/// A slot that is taken and given back leaves the slots as they were.
pub proof fn law_slot_round_trip(bitmap: Seq<bool>)
    requires
        first_free(bitmap, 0) < bitmap.len(),
    ensures
        ({
            let slot = first_free(bitmap, 0);
            &&& 0 <= slot
            &&& !bitmap[slot]
            &&& bitmap.update(slot, true).update(slot, false) == bitmap
        }),
{
    lemma_first_free(bitmap, 0);
    let slot = first_free(bitmap, 0);
    assert(bitmap.update(slot, true).update(slot, false) =~= bitmap);
}

proof fn lemma_first_free(s: Seq<bool>, i: int)
    requires
        0 <= i,
        first_free(s, i) < s.len(),
    ensures
        i <= first_free(s, i),
        !s[first_free(s, i)],
    decreases s.len() - i,
{
    if i < s.len() && s[i] {
        lemma_first_free(s, i + 1);
    }
}

// ---------------------------------------------------------------------------
// The clock
// ---------------------------------------------------------------------------
/// A round of the clock: the slot for the page that will be found, and how
/// many places were looked at.
#[derive(Clone, Copy, Debug, PartialEq, Eq, Structural)]
pub struct Eviction {
    pub slot: u32,
    pub scanned: usize,
}

/// What a round of the clock asks for: whether a page was used lately, or that
/// it is written out; or that there is none.
#[derive(Clone, Copy, Debug, PartialEq, Eq, Structural)]
pub enum EvictionStep {
    CheckAccessed { place: usize, page: TrackedUserPage },
    Nothing,
}

/// Starts a round; there must be a page and a slot.
pub fn begin_eviction(manager: &mut SwapManager) -> (r: Option<Eviction>)
    requires
        old(manager).wf(),
    ensures
        final(manager).wf(),
        if old(manager).tracked_count == 0 || first_free(old(manager).bitmap@, 0) == 16_384 {
            r is None && *final(manager) == *old(manager)
        } else {
            &&& r == Some(
                Eviction { slot: first_free(old(manager).bitmap@, 0) as u32, scanned: 0 },
            )
            &&& final(manager).bitmap@ == old(manager).bitmap@.update(
                first_free(old(manager).bitmap@, 0),
                true,
            )
            &&& final(manager).clock_hand == old(manager).clock_hand
            &&& final(manager).tracked_pages == old(manager).tracked_pages
        },
{
    if manager.tracked_count == 0 {
        return None;
    }
    match manager.alloc_slot() {
        None => None,
        Some(slot) => Some(Eviction { slot, scanned: 0 }),
    }
}

/// Where the hand finds the next page, after how many places; at most `left`
/// are looked at.
pub open spec fn next_page(pages: Seq<Option<TrackedUserPage>>, hand: int, left: int) -> Option<int>
    decreases left,
{
    if left <= 0 {
        None
    } else if pages[hand] is Some {
        Some(hand)
    } else {
        next_page(pages, (hand + 1) % 512, left - 1)
    }
}

/// How many places are looked at until then.
pub open spec fn looked_at(pages: Seq<Option<TrackedUserPage>>, hand: int, left: int) -> int
    decreases left,
{
    if left <= 0 {
        0
    } else if pages[hand] is Some {
        1
    } else {
        1 + looked_at(pages, (hand + 1) % 512, left - 1)
    }
}

/// Moves the hand to the next page. Twice round without a victim ends the
/// round, and gives the slot back.
pub fn next_candidate(manager: &mut SwapManager, eviction: &mut Eviction) -> (r: EvictionStep)
    requires
        old(manager).wf(),
        old(eviction).scanned <= 1024,
    ensures
        final(manager).wf(),
        final(eviction).scanned <= 1024,
        final(eviction).slot == old(eviction).slot,
        final(manager).tracked_pages == old(manager).tracked_pages,
        ({
            let pages = old(manager).tracked_pages@;
            let hand = old(manager).clock_hand as int;
            let left = 1024 - old(eviction).scanned;
            &&& final(eviction).scanned == old(eviction).scanned + looked_at(pages, hand, left)
            &&& final(manager).clock_hand == (hand + looked_at(pages, hand, left)) % 512
            &&& match next_page(pages, hand, left) {
                Some(place) => {
                    &&& r matches EvictionStep::CheckAccessed { place: p, page }
                    &&& p == place && p < 512
                    &&& pages[place] == Some(page)
                    &&& final(manager).bitmap == old(manager).bitmap
                },
                None => r == EvictionStep::Nothing && final(manager).bitmap@ == (if old(
                    eviction).slot < 16_384 {
                    old(manager).bitmap@.update(old(eviction).slot as int, false)
                } else {
                    old(manager).bitmap@
                }),
            }
        }),
{
    let ghost pages = manager.tracked_pages@;
    let ghost hand = manager.clock_hand as int;
    let ghost start = eviction.scanned as int;
    let ghost left = 1024 - start;
    while eviction.scanned < 1024
        invariant
            manager.wf(),
            manager.tracked_pages == old(manager).tracked_pages,
            manager.bitmap == old(manager).bitmap,
            manager.used_slots == old(manager).used_slots,
            manager.tracked_count == old(manager).tracked_count,
            pages == manager.tracked_pages@,
            hand == old(manager).clock_hand,
            eviction.slot == old(eviction).slot,
            start == old(eviction).scanned,
            start <= eviction.scanned <= 1024,
            left == 1024 - start,
            manager.clock_hand == (hand + (eviction.scanned - start)) % 512,
            next_page(pages, hand, left) == next_page(
                pages,
                manager.clock_hand as int,
                1024 - eviction.scanned,
            ),
            looked_at(pages, hand, left) == (eviction.scanned - start) + looked_at(
                pages,
                manager.clock_hand as int,
                1024 - eviction.scanned,
            ),
        decreases 1024 - eviction.scanned,
    {
        let place: usize = manager.clock_hand;
        manager.clock_hand = (place + 1) % MAX_TRACKED_PAGES;
        eviction.scanned = eviction.scanned + 1;
        if let Some(page) = manager.tracked_pages[place] {
            return EvictionStep::CheckAccessed { place, page };
        }
    }
    manager.free_slot(eviction.slot);
    EvictionStep::Nothing
}

/// What to do with a page that the hand found.
#[derive(Clone, Copy, Debug, PartialEq, Eq, Structural)]
pub enum Verdict {
    Evict,
    GoOn,
}

/// Judges a page: one that was used lately gets a second chance; one that was
/// not is the victim; one that is not there is forgotten. `accessed` is what
/// the page tables say.
pub fn judge_candidate(manager: &mut SwapManager, place: usize, accessed: Option<bool>) -> (r: Verdict)
    requires
        old(manager).wf(),
        place < 512,
        old(manager).tracked_pages@[place as int] is Some,
    ensures
        final(manager).wf(),
        final(manager).bitmap == old(manager).bitmap,
        final(manager).clock_hand == old(manager).clock_hand,
        r == (if accessed == Some(false) {
            Verdict::Evict
        } else {
            Verdict::GoOn
        }),
        final(manager).tracked_pages@ == (if accessed == Some(true) {
            old(manager).tracked_pages@
        } else {
            old(manager).tracked_pages@.update(place as int, None)
        }),
{
    match accessed {
        Some(true) => Verdict::GoOn,
        Some(false) => {
            manager.forget(place);
            Verdict::Evict
        },
        None => {
            manager.forget(place);
            Verdict::GoOn
        },
    }
}

/// Ends an eviction or a page-out: a page that could not be written gives its
/// slot back.
pub fn finish_page_out(manager: &mut SwapManager, slot: u32, written: bool) -> (r: Result<u32, ()>)
    requires
        old(manager).wf(),
    ensures
        final(manager).wf(),
        final(manager).tracked_pages == old(manager).tracked_pages,
        final(manager).clock_hand == old(manager).clock_hand,
        if written {
            r == Ok::<u32, ()>(slot) && *final(manager) == *old(manager)
        } else {
            r is Err && final(manager).bitmap@ == (if slot < 16_384 {
                old(manager).bitmap@.update(slot as int, false)
            } else {
                old(manager).bitmap@
            })
        },
{
    if written {
        Ok(slot)
    } else {
        manager.free_slot(slot);
        Err(())
    }
}

// ---------------------------------------------------------------------------
// The disk
// ---------------------------------------------------------------------------
#[derive(Clone, Copy, Debug, PartialEq, Eq, Structural)]
pub struct SwapArea {
    pub start_lba: u64,
    pub total_sectors: u64,
    pub initialized: bool,
}

pub fn init(area: &mut SwapArea, start_lba: u64, sectors: u64)
    ensures
        *final(area) == (SwapArea { start_lba, total_sectors: sectors, initialized: true }),
{
    *area = SwapArea { start_lba, total_sectors: sectors, initialized: true };
}

pub fn is_initialized(area: &SwapArea) -> (r: bool)
    ensures
        r == area.initialized,
{
    area.initialized
}

pub fn swap_start_lba(area: &SwapArea) -> (r: u64)
    ensures
        r == area.start_lba,
{
    area.start_lba
}

pub fn swap_total_sectors(area: &SwapArea) -> (r: u64)
    ensures
        r == area.total_sectors,
{
    area.total_sectors
}

/// The first sector of a slot.
pub fn slot_sector(area: &SwapArea, slot: u32) -> (r: u64)
    requires
        area.start_lba + slot * 8 <= u64::MAX,
    ensures
        r == area.start_lba + slot * 8,
{
    area.start_lba + slot as u64 * SECTORS_PER_PAGE
}

/// The eight sectors of a page, for writing them out.
pub fn write_page_to_disk(machine: &Machine, page_phys: u64) -> (r: Result<Vec<Vec<u8>>, ()>)
    ensures
        r is Ok <==> machine@.virt(page_phys) is Some && page_phys + 4096 <= machine.ram.len(),
        r matches Ok(sectors) ==> sectors.len() == 8 && forall|i: int|
            0 <= i < 8 ==> (#[trigger] sectors@[i])@ == machine.ram@.subrange(
                page_phys + i * 512,
                page_phys + i * 512 + 512,
            ),
{
    let length: u64 = machine.ram.len() as u64;
    if paging::phys_to_virt(machine, page_phys).is_none() || length < PAGE_SIZE || page_phys > length
        - PAGE_SIZE {
        return Err(());
    }
    let start: usize = page_phys as usize;
    let mut sectors: Vec<Vec<u8>> = Vec::new();
    let mut i: usize = 0;
    while i < 8
        invariant
            i <= 8,
            start == page_phys,
            start + 4096 <= machine.ram.len(),
            sectors.len() == i,
            forall|j: int|
                0 <= j < i ==> (#[trigger] sectors@[j])@ == machine.ram@.subrange(
                    page_phys + j * 512,
                    page_phys + j * 512 + 512,
                ),
        decreases 8 - i,
    {
        let part = crate::bytes::copy_range(
            machine.ram.as_slice(),
            start + i * 512,
            start + i * 512 + 512,
        );
        sectors.push(part);
        i += 1;
    }
    Ok(sectors)
}

pub open spec fn joined(sectors: Seq<Vec<u8>>, n: int) -> Seq<u8>
    decreases n,
{
    if n <= 0 {
        Seq::empty()
    } else {
        joined(sectors, n - 1) + sectors[n - 1]@
    }
}

/// Stores the eight sectors of a page that were read.
pub fn read_page_from_disk(machine: &mut Machine, page_phys: u64, sectors: &Vec<Vec<u8>>) -> (r: Result<
    (),
    (),
>)
    requires
        old(machine).wf(),
        sectors.len() == 8,
        forall|i: int| 0 <= i < 8 ==> (#[trigger] sectors@[i]).len() == 512,
    ensures
        final(machine).wf(),
        final(machine).same_place(old(machine)),
        r is Ok <==> old(machine)@.virt(page_phys) is Some && page_phys + 4096 <= old(
            machine).ram.len(),
        final(machine)@ == if r is Ok {
            MachineView {
                ram: bytes::splice(old(machine)@.ram, page_phys as int, joined(sectors@, 8)),
                ..old(machine)@
            }
        } else {
            old(machine)@
        },
{
    let length: u64 = machine.ram.len() as u64;
    if paging::phys_to_virt(machine, page_phys).is_none() || length < PAGE_SIZE || page_phys > length
        - PAGE_SIZE {
        return Err(());
    }
    let mut page: Vec<u8> = Vec::new();
    let mut i: usize = 0;
    assert(page@ =~= Seq::<u8>::empty());
    while i < 8
        invariant
            i <= 8,
            sectors.len() == 8,
            forall|i: int| 0 <= i < 8 ==> (#[trigger] sectors@[i]).len() == 512,
            page@ == joined(sectors@, i as int),
            page.len() == i * 512,
        decreases 8 - i,
    {
        push_all(&mut page, sectors[i].as_slice());
        i += 1;
    }
    put_vec(&mut machine.ram, page_phys as usize, page.as_slice());
    Ok(())
}

/// A page that is written out and read back is as it was.
pub proof fn law_page_round_trip(ram: Seq<u8>, phys: int, sectors: Seq<Vec<u8>>)
    requires
        0 <= phys,
        phys + 4096 <= ram.len(),
        sectors.len() == 8,
        forall|i: int|
            0 <= i < 8 ==> (#[trigger] sectors[i])@ == ram.subrange(
                phys + i * 512,
                phys + i * 512 + 512,
            ),
    ensures
        joined(sectors, 8) == ram.subrange(phys, phys + 4096),
{
    lemma_joined(ram, phys, sectors, 8);
}

proof fn lemma_joined(ram: Seq<u8>, phys: int, sectors: Seq<Vec<u8>>, n: int)
    requires
        0 <= n <= 8,
        0 <= phys,
        phys + 4096 <= ram.len(),
        sectors.len() == 8,
        forall|i: int|
            0 <= i < 8 ==> (#[trigger] sectors[i])@ == ram.subrange(
                phys + i * 512,
                phys + i * 512 + 512,
            ),
    ensures
        joined(sectors, n) == ram.subrange(phys, phys + n * 512),
    decreases n,
{
    if n > 0 {
        lemma_joined(ram, phys, sectors, n - 1);
        assert(joined(sectors, n) =~= ram.subrange(phys, phys + n * 512));
    } else {
        assert(joined(sectors, 0) =~= ram.subrange(phys, phys));
    }
}

// ---------------------------------------------------------------------------
// The check at start
// ---------------------------------------------------------------------------
/// The words that a page is filled with to check that it survives.
pub open spec fn pattern(i: int) -> u64 {
    0xdead_beef_c001_cafe_u64 ^ (i as u64)
}

pub open spec fn pattern_bytes(n: int) -> Seq<u8>
    decreases n,
{
    if n <= 0 {
        Seq::empty()
    } else {
        pattern_bytes(n - 1) + bytes::le64_bytes(pattern(n - 1))
    }
}

/// Fills a page with the pattern.
pub fn fill_pattern(machine: &mut Machine, phys: u64)
    requires
        old(machine).wf(),
        phys + 4096 <= old(machine).ram.len(),
    ensures
        final(machine).wf(),
        final(machine).same_place(old(machine)),
        final(machine)@ == (MachineView {
            ram: bytes::splice(old(machine)@.ram, phys as int, pattern_bytes(512)),
            ..old(machine)@
        }),
{
    let mut page: Vec<u8> = Vec::new();
    let mut i: u64 = 0;
    assert(page@ =~= Seq::<u8>::empty());
    while i < 512
        invariant
            i <= 512,
            page@ == pattern_bytes(i as int),
            page.len() == i * 8,
        decreases 512 - i,
    {
        push_le64(&mut page, 0xdead_beef_c001_cafe_u64 ^ i);
        i += 1;
    }
    put_vec(&mut machine.ram, phys as usize, page.as_slice());
}

/// Whether a page holds the pattern.
pub fn holds_pattern(machine: &Machine, phys: u64) -> (r: bool)
    requires
        phys + 4096 <= machine.ram.len(),
    ensures
        r == (forall|i: int|
            0 <= i < 512 ==> #[trigger] bytes::le64_at(machine.ram@, phys + i * 8) == pattern(i)),
{
    let start: usize = phys as usize;
    let mut i: usize = 0;
    while i < 512
        invariant
            i <= 512,
            start == phys,
            start + 4096 <= machine.ram.len(),
            forall|j: int|
                0 <= j < i ==> #[trigger] bytes::le64_at(machine.ram@, phys + j * 8) == pattern(j),
        decreases 512 - i,
    {
        if get_le64(machine.ram.as_slice(), start + i * 8) != 0xdead_beef_c001_cafe_u64 ^ (
        i as u64) {
            assert(bytes::le64_at(machine.ram@, phys + i * 8) != pattern(i as int));
            return false;
        }
        i += 1;
    }
    true
}

// ---------------------------------------------------------------------------
// The self-check
// ---------------------------------------------------------------------------
/// Where the page of the self-check is mapped.
pub const CHECK_ADDRESS: u64 = 0x5000_0000;

/// Why the self-check cannot start.
#[derive(Clone, Copy, Debug, PartialEq, Eq, Structural)]
pub enum CheckFault {
    NoSpace(MapError),
    NoFrame,
    NoDirectMap,
    Mapping(MapError),
}

/// The page of the self-check, and how many frames were free with it in place.
#[derive(Clone, Copy, Debug, PartialEq, Eq, Structural)]
pub struct CheckPage {
    pub space: AddressSpace,
    pub phys: u64,
    pub free_before: usize,
}

/// What the self-check saw.
#[derive(Clone, Copy, Debug, PartialEq, Eq, Structural)]
pub struct CheckReport {
    pub reclaimed: bool,
    pub swapped: bool,
    pub page_in: bool,
    pub verified: bool,
}

/// A machine with the pattern in a page.
pub open spec fn page_filled(m: MachineView, phys: u64) -> MachineView {
    MachineView { ram: bytes::splice(m.ram, phys as int, pattern_bytes(512)), ..m }
}

/// A space of its own with one page that holds the pattern; what was taken is
/// given back where that fails.
pub open spec fn check_prepared(m: MachineView) -> (
    MachineView,
    Result<(AddressSpace, u64), CheckFault>,
) {
    match m.space_created() {
        (m1, Err(e)) => (m1, Err(CheckFault::NoSpace(e))),
        (m1, Ok(space)) => match m1.frame_taken() {
            None => (m1.space_destroyed(space).0, Err(CheckFault::NoFrame)),
            Some((m2, phys)) => match m2.virt(phys) {
                None => (
                    m2.frame_released(phys).space_destroyed(space).0,
                    Err(CheckFault::NoDirectMap),
                ),
                Some(_) => match page_filled(m2, phys).mapped(
                    space,
                    CHECK_ADDRESS,
                    phys,
                    MAP_USER | MAP_WRITABLE,
                ) {
                    (m3, Err(e)) => (
                        m3.frame_released(phys).space_destroyed(space).0,
                        Err(CheckFault::Mapping(e)),
                    ),
                    (m3, Ok(())) => (m3, Ok((space, phys))),
                },
            },
        },
    }
}

/// The pages that are followed, with one more where it is new and there is
/// room.
pub open spec fn with_page(pages: Seq<Option<TrackedUserPage>>, page: TrackedUserPage) -> Seq<
    Option<TrackedUserPage>,
> {
    let i = empty_place(pages, 0);
    if place_of(pages, page, 0) < 512 || i >= 512 {
        pages
    } else {
        pages.update(i, Some(page))
    }
}

/// Maps a page with the pattern in a space of its own, and follows it.
pub fn prepare_self_check(machine: &mut Machine, manager: &mut SwapManager) -> (r: Result<
    CheckPage,
    CheckFault,
>)
    requires
        old(machine).wf(),
        old(manager).wf(),
    ensures
        final(machine).wf(),
        final(manager).wf(),
        final(machine)@ == check_prepared(old(machine)@).0,
        match check_prepared(old(machine)@).1 {
            Ok((space, phys)) => {
                &&& r matches Ok(page) && page.space == space && page.phys == phys
                    && page.free_before == final(machine)@.frames.free_total()
                &&& final(manager).bitmap == old(manager).bitmap
                &&& final(manager).clock_hand == old(manager).clock_hand
                &&& final(manager).tracked_pages@ == with_page(
                    old(manager).tracked_pages@,
                    page_at(space, CHECK_ADDRESS),
                )
            },
            Err(e) => r == Err::<CheckPage, CheckFault>(e) && *final(manager) == *old(manager),
        },
{
    let space = match create_address_space(machine) {
        Err(e) => {
            return Err(CheckFault::NoSpace(e));
        },
        Ok(space) => space,
    };
    let phys: u64 = match take_frame(machine) {
        None => {
            let _done = destroy_address_space(machine, space);
            return Err(CheckFault::NoFrame);
        },
        Some(phys) => phys,
    };
    if phys_to_virt(machine, phys).is_none() {
        let _released = release_table(machine, phys);
        let _done = destroy_address_space(machine, space);
        return Err(CheckFault::NoDirectMap);
    }
    fill_pattern(machine, phys);
    if let Err(e) = paging::map(machine, space, CHECK_ADDRESS, phys, MAP_USER | MAP_WRITABLE) {
        let _released = release_table(machine, phys);
        let _done = destroy_address_space(machine, space);
        return Err(CheckFault::Mapping(e));
    }
    manager.track_page(space, CHECK_ADDRESS);
    let free_before: usize = free_frames_count(&machine.memory);
    Ok(CheckPage { space, phys, free_before })
}

/// Whether the eviction gave a frame back, and whether the page is gone.
pub fn note_evicted(machine: &Machine, page: CheckPage) -> (r: (bool, bool))
    requires
        machine.wf(),
    ensures
        r.0 == (machine@.frames.free_total() > page.free_before),
        r.1 == (machine@.translated(page.space, CHECK_ADDRESS) is None),
{
    let free_after: usize = free_frames_count(&machine.memory);
    (free_after > page.free_before, translate_in(machine, page.space, CHECK_ADDRESS).is_none())
}

/// The machine with the page of the self-check and its space gone.
pub open spec fn check_cleared(m: MachineView, space: AddressSpace) -> MachineView {
    let (m1, unmapped) = m.unmapped(space, CHECK_ADDRESS);
    match unmapped {
        Ok(Some(phys)) => m1.frame_released(phys).space_destroyed(space).0,
        _ => m1.space_destroyed(space).0,
    }
}

/// Takes the page of the self-check and its space away.
pub fn clear_self_check(machine: &mut Machine, page: CheckPage)
    requires
        old(machine).wf(),
    ensures
        final(machine).wf(),
        final(machine)@ == check_cleared(old(machine)@, page.space),
{
    if let Ok(Some(phys)) = unmap(machine, page.space, CHECK_ADDRESS) {
        let _released = release_table(machine, phys);
    }
    let _done = destroy_address_space(machine, page.space);
}

/// Gives everything back where no page could be evicted.
pub fn abandon_self_check(machine: &mut Machine, page: CheckPage)
    requires
        old(machine).wf(),
    ensures
        final(machine).wf(),
        final(machine)@ == old(machine)@.unmapped(page.space, CHECK_ADDRESS).0.frame_released(
            page.phys,
        ).space_destroyed(page.space).0,
{
    let _unmapped = unmap(machine, page.space, CHECK_ADDRESS);
    let _released = release_table(machine, page.phys);
    let _done = destroy_address_space(machine, page.space);
}

/// Whether the page of the self-check is there again, with its pattern.
pub open spec fn pattern_back(m: MachineView, space: AddressSpace) -> bool {
    &&& m.translated(space, CHECK_ADDRESS) matches Some(t)
    &&& m.virt(t.physical_address) is Some
    &&& t.physical_address + 4096 <= m.ram.len()
    &&& forall|i: int|
        0 <= i < 512 ==> #[trigger] bytes::le64_at(m.ram, t.physical_address + i * 8) == pattern(i)
}

/// Ends the self-check after the page was brought back: looks at it, takes it
/// away, and reports.
pub fn finish_self_check(machine: &mut Machine, page: CheckPage, noted: (bool, bool), page_in: bool) -> (r:
    CheckReport)
    requires
        old(machine).wf(),
    ensures
        final(machine).wf(),
        final(machine)@ == check_cleared(old(machine)@, page.space),
        r == (CheckReport {
            reclaimed: noted.0,
            swapped: noted.1,
            page_in,
            verified: pattern_back(old(machine)@, page.space),
        }),
{
    let verified: bool = match translate_in(machine, page.space, CHECK_ADDRESS) {
        None => false,
        Some(t) => {
            let at: u64 = t.physical_address;
            phys_to_virt(machine, at).is_some() && at as u128 + 4096 <= machine.ram.len() as u128
                && holds_pattern(machine, at)
        },
    };
    clear_self_check(machine, page);
    CheckReport { reclaimed: noted.0, swapped: noted.1, page_in, verified }
}

/// Whether the self-check passed.
pub fn check_passed(report: CheckReport) -> (r: bool)
    ensures
        r == (report.reclaimed && report.swapped && report.page_in && report.verified),
{
    report.reclaimed && report.swapped && report.page_in && report.verified
}

proof fn lemma_hand(pages: Seq<Option<TrackedUserPage>>, hand: int, left: int)
    requires
        pages.len() == 512,
        0 <= hand < 512,
        0 <= left <= 512,
    ensures
        match next_page(pages, hand, left) {
            Some(p) => exists|d: int|
                0 <= d < left && p == #[trigger] ahead_of(hand, d) && pages[p] is Some && (forall|e: int|
                    0 <= e < d ==> pages[#[trigger] ahead_of(hand, e)] is None),
            None => forall|e: int| 0 <= e < left ==> pages[#[trigger] ahead_of(hand, e)] is None,
        },
    decreases left,
{
    if left > 0 {
        assert(ahead_of(hand, 0) == hand);
        if pages[hand] is None {
            let next = (hand + 1) % 512;
            lemma_hand(pages, next, left - 1);
            assert forall|e: int| 0 <= e < left - 1 implies #[trigger] ahead_of(next, e) == ahead_of(
                hand,
                e + 1,
            ) by {}
            assert forall|e: int| 1 <= e < left implies #[trigger] ahead_of(hand, e) == ahead_of(
                next,
                e - 1,
            ) by {}
            if let Some(p) = next_page(pages, next, left - 1) {
                let d = choose|d: int|
                    0 <= d < left - 1 && p == #[trigger] ahead_of(next, d) && pages[p] is Some && (
                    forall|e: int| 0 <= e < d ==> pages[#[trigger] ahead_of(next, e)] is None);
                assert(p == ahead_of(hand, d + 1));
                assert forall|e: int| 0 <= e < d + 1 implies pages[#[trigger] ahead_of(
                    hand,
                    e,
                )] is None by {
                    if e > 0 {
                        assert(ahead_of(hand, e) == ahead_of(next, e - 1));
                    }
                }
            }
        }
    }
}

/// The place a number of steps ahead of the hand, round the clock.
pub open spec fn ahead_of(hand: int, d: int) -> int {
    (hand + d) % 512
}

/// The hand stops at the first page that it comes to, going round; it finds none
/// only where none is remembered.
pub proof fn law_hand_stops_at_first(pages: Seq<Option<TrackedUserPage>>, hand: int)
    requires
        pages.len() == 512,
        0 <= hand < 512,
    ensures
        match next_page(pages, hand, 512) {
            Some(p) => exists|d: int|
                0 <= d < 512 && p == #[trigger] ahead_of(hand, d) && pages[p] is Some && (forall|e: int|
                    0 <= e < d ==> pages[#[trigger] ahead_of(hand, e)] is None),
            None => forall|i: int| 0 <= i < 512 ==> #[trigger] pages[i] is None,
        },
{
    lemma_hand(pages, hand, 512);
    if next_page(pages, hand, 512) is None {
        assert forall|i: int| 0 <= i < 512 implies #[trigger] pages[i] is None by {
            let e = (i - hand) % 512;
            assert(ahead_of(hand, e) == i);
        }
    }
}

proof fn lemma_place(pages: Seq<Option<TrackedUserPage>>, page: TrackedUserPage, i: int)
    requires
        0 <= i <= pages.len(),
    ensures
        i <= place_of(pages, page, i) <= pages.len(),
        place_of(pages, page, i) < pages.len() ==> pages[place_of(pages, page, i)] == Some(page),
        i <= empty_place(pages, i) <= pages.len(),
        empty_place(pages, i) < pages.len() ==> pages[empty_place(pages, i)] is None,
        empty_place(pages, i) == pages.len() ==> forall|j: int|
            i <= j < pages.len() ==> #[trigger] pages[j] is Some,
    decreases pages.len() - i,
{
    if i < pages.len() {
        lemma_place(pages, page, i + 1);
    }
}

/// A page that is to be remembered is, unless there is no room; the others that
/// were still are.
pub proof fn law_page_is_remembered(
    pages: Seq<Option<TrackedUserPage>>,
    page: TrackedUserPage,
    other: TrackedUserPage,
)
    requires
        pages.len() == 512,
    ensures
        with_page(pages, page).len() == 512,
        pages.contains(Some(other)) ==> with_page(pages, page).contains(Some(other)),
        with_page(pages, page).contains(Some(page)) || (with_page(pages, page) == pages && forall|
            i: int,
        |
            0 <= i < 512 ==> #[trigger] pages[i] is Some),
{
    let after = with_page(pages, page);
    lemma_place(pages, page, 0);
    let p = place_of(pages, page, 0);
    let i = empty_place(pages, 0);
    if p < 512 {
        assert(after[p] == Some(page));
    } else if i < 512 {
        assert(after[i] == Some(page));
    }
    if pages.contains(Some(other)) {
        let j = choose|j: int| 0 <= j < pages.len() && pages[j] == Some(other);
        assert(after[j] == Some(other));
    }
}

} // verus!
