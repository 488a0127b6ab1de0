//! What holds of the heap over several calls.
use vstd::prelude::*;

use crate::heap::{self, HeapView, KMemCache};
use crate::memory;
use crate::paging::MachineView;

verus! {

/// Memory is taken from the smallest class whose objects are large enough; what
/// is too large for all is taken in whole frames.
pub proof fn law_class_is_smallest(size: u64)
    ensures
        ({
            let class = heap::class_of(size);
            &&& 0 <= class <= 7
            &&& size > 2048 <==> class == 7
            &&& class < 7 ==> size <= heap::class_size(class)
            &&& forall|c: int| 0 <= c < class && c < 7 ==> size > #[trigger] heap::class_size(c)
            &&& forall|c: int|
                0 <= c < 6 ==> 2 * #[trigger] heap::class_size(c) == heap::class_size(c + 1)
            &&& heap::class_size(0) == 32
        }),
{
}

proof fn lemma_order(pages: int, order: int)
    requires
        0 <= order,
    ensures
        ({
            let k = heap::order_from(pages, order);
            &&& k >= order
            &&& k < 53 ==> memory::span(k) >= pages
            &&& forall|j: int| order <= j < k ==> #[trigger] memory::span(j) < pages
        }),
    decreases 64 - order,
{
    if !(order >= 53 || memory::span(order) >= pages) {
        lemma_order(pages, order + 1);
    }
}

/// A block of frames is large enough for what is asked for, and no smaller
/// block is.
pub proof fn law_order_is_smallest(size: u64)
    ensures
        ({
            let k = heap::order_of(size);
            &&& k >= 0
            &&& k < 53 ==> memory::span(k) * 4096 >= size
            &&& forall|j: int| 0 <= j < k ==> #[trigger] memory::span(j) * 4096 < size + 4095
        }),
{
    lemma_order((size + 4095) / 4096, 0);
}

/// Two objects that are taken one after the other from the page of a cache do
/// not overlap, and both lie in that page.
pub proof fn law_objects_apart(c: KMemCache, m: MachineView, page: u64)
    requires
        c.freelist is None,
        c.current_page == Some(page),
        c.next_offset + 2 * heap::room(c.object_size, c.alignment) <= 4096,
        page + 4096 <= u64::MAX,
        0 < heap::room(c.object_size, c.alignment),
    ensures
        ({
            let (c1, m1, a) = heap::taken(c, m);
            let (c2, m2, b) = heap::taken(c1, m1);
            &&& a matches Some(x)
            &&& b matches Some(y)
            &&& page <= x
            &&& x + c.object_size <= y
            &&& y + c.object_size <= page + 4096
            &&& m2 == m
        }),
{
    let align = heap::larger(c.alignment, 8) as int;
    let size = heap::larger(c.object_size, 8) as int;
    let room = heap::room(c.object_size, c.alignment);
    vstd::arithmetic::div_mod::lemma_fundamental_div_mod(size + align - 1, align);
    vstd::arithmetic::div_mod::lemma_mod_bound(size + align - 1, align);
    assert((size + align - 1) / align * align == align * ((size + align - 1) / align)) by (nonlinear_arith);
    assert(room >= size);
}

/// The room of an object is enough for it, and a multiple of its alignment.
pub proof fn law_room_fits(size: u64, alignment: u64)
    ensures
        ({
            let align = if alignment >= 8 {
                alignment as int
            } else {
                8
            };
            let room = heap::room(size, alignment);
            &&& room >= size
            &&& room >= 8
            &&& room % align == 0
            &&& room < size + 8 + align
        }),
{
    let align = heap::larger(alignment, 8) as int;
    let wanted = heap::larger(size, 8) as int;
    let n = (wanted + align - 1) / align;
    vstd::arithmetic::div_mod::lemma_fundamental_div_mod(wanted + align - 1, align);
    vstd::arithmetic::div_mod::lemma_mod_bound(wanted + align - 1, align);
    assert(n * align == align * n) by (nonlinear_arith);
    vstd::arithmetic::div_mod::lemma_mod_multiples_basic(n, align);
}

/// Memory that is given back and taken again is the same; what is counted as
/// used is as it was before it was first taken.
pub proof fn law_given_back_then_taken(
    h: HeapView,
    m: MachineView,
    size: u64,
    align: u64,
    address: u64,
)
    requires
        0 < size <= 2048,
        align <= 2048,
        h.initialized,
        h.caches.len() == 7,
        address != 0,
        heap::word_place(m, address) is Some,
        h.caches[heap::class_of(heap::larger(size, align))].freelist != Some(0u64),
    ensures
        ({
            let (freed, m1) = heap::heap_given_back(h, m, address, size, align);
            let (again, m2, taken) = heap::heap_taken(freed, m1, size, align);
            &&& taken == address
            &&& m2 == m1
            &&& again.caches[heap::class_of(heap::larger(size, align))].freelist
                == h.caches[heap::class_of(heap::larger(size, align))].freelist
            &&& again.total_freed - h.total_freed == again.total_allocated - h.total_allocated
                || again.total_freed < h.total_freed || again.total_allocated < h.total_allocated
        }),
{
    let class = heap::class_of(heap::larger(size, align));
    heap::law_freed_object_reused(h.caches[class], m, address);
}

/// Nothing takes nothing: an address that is only aligned, and no memory. It
/// gives nothing back either.
pub proof fn law_nothing_taken(h: HeapView, m: MachineView, align: u64, address: u64)
    ensures
        heap::heap_taken(h, m, 0, align) == (h, m, align),
        heap::heap_given_back(h, m, address, 0, align) == (h, m),
        heap::heap_given_back(h, m, 0, 1, align) == (h, m),
        !h.initialized ==> forall|size: u64|
            size > 0 ==> #[trigger] heap::heap_taken(h, m, size, align) == (h, m, 0u64),
{
}

/// What is used and what is free are all of the heap, as long as no more is
/// used than it has.
pub proof fn law_used_and_free(h: HeapView)
    requires
        h.total_freed <= h.total_allocated,
        h.total_allocated - h.total_freed <= heap::HEAP_SIZE,
    ensures
        ({
            let s = heap::stats_of(h);
            &&& s.used == h.total_allocated - h.total_freed
            &&& s.used + s.free == s.size
            &&& s.size == heap::HEAP_SIZE
        }),
{
}

} // verus!
