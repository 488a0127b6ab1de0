//! What holds of the memory of a process: its data, its mappings.
use vstd::prelude::*;

use crate::memory;
use crate::paging::{AddressSpace, MachineView};
use crate::process::{self, MappedPage, ProcessView};

verus! {

/// Whether a process has a page at an address.
pub open spec fn has_page(mappings: Seq<MappedPage>, page: int) -> bool {
    exists|i: int| 0 <= i < mappings.len() && (#[trigger] mappings[i]).virtual_address == page
}

/// Whether all of one list of pages is in another.
pub open spec fn keeps_all(before: Seq<MappedPage>, after: Seq<MappedPage>) -> bool {
    forall|p: MappedPage| before.contains(p) ==> #[trigger] after.contains(p)
}

proof fn lemma_grown(m: MachineView, p: ProcessView, page: int, end: int)
    requires
        0 <= page,
        end <= u64::MAX,
    ensures
        ({
            let (_, q, ok) = process::grown(m, p, page, end);
            &&& q == ProcessView { mappings: q.mappings, ..p }
            &&& keeps_all(p.mappings, q.mappings)
            &&& ok ==> forall|k: int|
                0 <= k && page + 4096 * k < end ==> #[trigger] has_page(
                    q.mappings,
                    page + 4096 * k,
                )
        }),
    decreases end + 4096 - page,
{
    if page < end {
        let (m1, r) = process::page_added(m, p.space, page as u64, process::data_flags(), false);
        if r is Ok {
            let new = MappedPage { virtual_address: page as u64, physical_address: r->Ok_0 };
            let p1 = ProcessView { mappings: p.mappings.push(new), ..p };
            lemma_grown(m1, p1, page + 4096, end);
            let q = process::grown(m, p, page, end).1;
            assert(p1.mappings[p.mappings.len() as int] == new);
            assert(p1.mappings.contains(new));
            assert forall|x: MappedPage| p.mappings.contains(x) implies #[trigger] q.mappings.contains(
                x,
            ) by {
                let i = p.mappings.index_of(x);
                assert(p1.mappings[i] == x);
                assert(p1.mappings.contains(x));
            }
            if process::grown(m, p, page, end).2 {
                assert forall|k: int| 0 <= k && page + 4096 * k < end implies #[trigger] has_page(
                    q.mappings,
                    page + 4096 * k,
                ) by {
                    if k == 0 {
                        assert(q.mappings.contains(new));
                        let i = q.mappings.index_of(new);
                        assert(q.mappings[i].virtual_address == page);
                    } else {
                        assert(has_page(q.mappings, (page + 4096) + 4096 * (k - 1)));
                    }
                }
            }
        }
    }
}

/// The end of a program's data is moved to where it asks, if that is in bounds
/// and there is memory, and then every page up to there is its own; otherwise
/// the end stays where it was. No page is lost.
pub proof fn law_data_end_moves(m: MachineView, p: ProcessView, to: u64)
    requires
        p.brk_current <= 0x7000_0000_0000,
    ensures
        ({
            let (_, q) = process::brk_moved(m, p, to);
            &&& q.brk_current == to || q.brk_current == p.brk_current
            &&& to == 0 || to < p.brk_start || to >= 0x7000_0000_0000 ==> process::brk_moved(
                m,
                p,
                to,
            ) == (m, p)
            &&& keeps_all(p.mappings, q.mappings)
            &&& q == ProcessView { brk_current: q.brk_current, mappings: q.mappings, ..p }
            &&& q.brk_current != p.brk_current ==> forall|k: int|
                0 <= k && memory::align_up_of(p.brk_current) + 4096 * k < to ==> #[trigger] has_page(
                    q.mappings,
                    memory::align_up_of(p.brk_current) + 4096 * k,
                )
        }),
{
    let from = memory::align_up_of(p.brk_current) as int;
    let end = memory::align_up_of(to) as int;
    assert(keeps_all(p.mappings, p.mappings));
    if !(to == 0 || to < p.brk_start || to >= 0x7000_0000_0000) {
        assert(to <= end);
        lemma_grown(m, p, from, end);
    }
}

proof fn lemma_mmap_pages(
    m: MachineView,
    p: ProcessView,
    page: int,
    end: int,
    flags: u64,
    fixed: bool,
    done: Seq<MappedPage>,
)
    requires
        0 <= page,
        end <= u64::MAX,
    ensures
        ({
            let (_, q, ok) = process::mmap_pages(m, p, page, end, flags, fixed, done);
            &&& q == ProcessView { mappings: q.mappings, ..p }
            &&& ok ==> {
                &&& forall|x: MappedPage| done.contains(x) ==> #[trigger] q.mappings.contains(x)
                &&& forall|k: int|
                    0 <= k && page + 4096 * k < end ==> #[trigger] has_page(
                        q.mappings,
                        page + 4096 * k,
                    )
                &&& !fixed ==> keeps_all(p.mappings, q.mappings)
            }
        }),
    decreases end + 4096 - page,
{
    reveal(process::mmap_page);
    if page >= end {
        let q = process::mmap_pages(m, p, page, end, flags, fixed, done).1;
        assert forall|x: MappedPage| done.contains(x) implies #[trigger] q.mappings.contains(x) by {
            let i = done.index_of(x);
            assert(q.mappings[p.mappings.len() + i] == x);
        }
        assert forall|x: MappedPage| p.mappings.contains(x) implies #[trigger] q.mappings.contains(
            x,
        ) by {
            let i = p.mappings.index_of(x);
            assert(q.mappings[i] == x);
        }
    } else {
        let (m1, p1, r) = process::mmap_page(m, p, page as u64, flags, fixed, done);
        if r is Some {
            let new = MappedPage { virtual_address: page as u64, physical_address: r->0 };
            let more = done.push(new);
            lemma_mmap_pages(m1, p1, page + 4096, end, flags, fixed, more);
            let (_, q, ok) = process::mmap_pages(m, p, page, end, flags, fixed, done);
            if ok {
                assert(more[done.len() as int] == new);
                assert(more.contains(new));
                assert forall|x: MappedPage| done.contains(x) implies #[trigger] q.mappings.contains(
                    x,
                ) by {
                    let i = done.index_of(x);
                    assert(more[i] == x);
                    assert(more.contains(x));
                }
                assert forall|k: int| 0 <= k && page + 4096 * k < end implies #[trigger] has_page(
                    q.mappings,
                    page + 4096 * k,
                ) by {
                    if k == 0 {
                        assert(q.mappings.contains(new));
                        let i = q.mappings.index_of(new);
                        assert(q.mappings[i].virtual_address == page);
                    } else {
                        assert(has_page(q.mappings, (page + 4096) + 4096 * (k - 1)));
                    }
                }
            }
        }
    }
}

/// Memory that was mapped is the program's: every page of it, from its start
/// on. It starts where a program says that has to be, or that can be; otherwise
/// where the last such mapping ended, and the next starts behind it. A mapping
/// that does not replace anything leaves all pages that were there.
pub proof fn law_mapping_has_its_pages(
    m: MachineView,
    p: ProcessView,
    addr: u64,
    length: u64,
    prot: u64,
    flags: u64,
    base: u64,
)
    requires
        process::mmapped(m, p, addr, length, prot, flags).2 == Ok::<u64, ()>(base),
        p.mmap_next % 4096 == 0,
    ensures
        ({
            let q = process::mmapped(m, p, addr, length, prot, flags).1;
            &&& length > 0
            &&& base % 4096 == 0
            &&& flags / 16 % 2 == 1 ==> base == addr
            &&& addr == 0 ==> base == p.mmap_next && q.mmap_next >= base + length
            &&& q.mmap_next >= p.mmap_next
            &&& q.mmap_next % 4096 == 0
            &&& forall|k: int|
                0 <= k && 4096 * k < length ==> #[trigger] has_page(q.mappings, base + 4096 * k)
            &&& flags / 16 % 2 == 0 ==> keeps_all(p.mappings, q.mappings)
            &&& q.space == p.space
            &&& q.brk_current == p.brk_current
        }),
{
    let fixed = flags / 16 % 2 == 1;
    let size = (length + 4095) / 4096 * 4096;
    assert(size >= length);
    assert(size % 4096 == 0);
    let (b, next) = process::mmap_place(p, addr, size, fixed)->Ok_0;
    let p0 = ProcessView { mmap_next: next, ..p };
    assert(b + size <= u64::MAX);
    lemma_mmap_pages(
        m,
        p0,
        b as int,
        b + size,
        process::protection_flags(prot),
        fixed,
        Seq::empty(),
    );
    let q = process::mmapped(m, p, addr, length, prot, flags).1;
    assert forall|k: int| 0 <= k && 4096 * k < length implies #[trigger] has_page(
        q.mappings,
        base + 4096 * k,
    ) by {
        assert(base + 4096 * k < b + size);
    }
}

/// Two mappings that the program does not place do not overlap.
pub proof fn law_mappings_apart(
    m: MachineView,
    p: ProcessView,
    first: u64,
    second: u64,
    prot: u64,
    a: u64,
    b: u64,
)
    requires
        p.mmap_next % 4096 == 0,
        process::mmapped(m, p, 0, first, prot, 0).2 == Ok::<u64, ()>(a),
        ({
            let (m1, q, _) = process::mmapped(m, p, 0, first, prot, 0);
            process::mmapped(m1, q, 0, second, prot, 0).2 == Ok::<u64, ()>(b)
        }),
    ensures
        a + first <= b,
{
    let (m1, q, _) = process::mmapped(m, p, 0, first, prot, 0);
    law_mapping_has_its_pages(m, p, 0, first, prot, 0, a);
    law_mapping_has_its_pages(m1, q, 0, second, prot, 0, b);
}

/// Pages that are new have the protection that was asked for: they can be read,
/// be written exactly if that was asked, and be run exactly if that was asked.
pub proof fn law_new_pages_protected(prot: u64)
    ensures
        ({
            let flags = process::protection_flags(prot);
            &&& flags / 4 % 2 == 1
            &&& flags / 2 % 2 == 1 <==> prot / 2 % 2 == 1
            &&& flags / 0x8000_0000_0000_0000 == 0 <==> prot / 4 % 2 == 1
        }),
{
}

proof fn lemma_mapping_index(mappings: Seq<MappedPage>, page: u64, i: int)
    requires
        0 <= i <= mappings.len(),
    ensures
        ({
            let k = process::mapping_index(mappings, page, i);
            &&& i <= k <= mappings.len()
            &&& k < mappings.len() ==> mappings[k].virtual_address == page
            &&& forall|j: int| i <= j < k ==> (#[trigger] mappings[j]).virtual_address != page
        }),
    decreases mappings.len() - i,
{
    if i < mappings.len() {
        lemma_mapping_index(mappings, page, i + 1);
    }
}

proof fn lemma_page_dropped(
    m: MachineView,
    space: AddressSpace,
    page: u64,
    mappings: Seq<MappedPage>,
    x: MappedPage,
)
    ensures
        ({
            let kept = process::page_dropped(m, space, page, mappings).1;
            &&& kept.contains(x) ==> mappings.contains(x)
            &&& mappings.contains(x) && x.virtual_address != page ==> kept.contains(x)
            &&& kept.len() <= mappings.len()
        }),
{
    reveal(process::page_dropped);
    lemma_mapping_index(mappings, page, 0);
    let i = process::mapping_index(mappings, page, 0);
    let kept = process::page_dropped(m, space, page, mappings).1;
    if i < mappings.len() {
        let less = mappings.remove(i);
        if less.contains(x) {
            let j = less.index_of(x);
            assert(mappings[if j < i {
                j
            } else {
                j + 1
            }] == x);
        }
        if mappings.contains(x) && x.virtual_address != page {
            let j = mappings.index_of(x);
            assert(j != i);
            assert(less[if j < i {
                j
            } else {
                j - 1
            }] == x);
        }
    }
}

/// Unmapping takes only pages of its range: every other page of the program
/// stays, and none is added.
pub proof fn law_unmap_keeps_others(
    m: MachineView,
    space: AddressSpace,
    page: int,
    end: int,
    mappings: Seq<MappedPage>,
    x: MappedPage,
)
    requires
        0 <= page,
        end <= u64::MAX,
    ensures
        ({
            let kept = process::pages_dropped(m, space, page, end, mappings).1;
            &&& kept.contains(x) ==> mappings.contains(x)
            &&& mappings.contains(x) && !(page <= x.virtual_address < end) ==> kept.contains(x)
        }),
    decreases end + 4096 - page,
{
    if page < end {
        lemma_page_dropped(m, space, page as u64, mappings, x);
        let (m1, rest) = process::page_dropped(m, space, page as u64, mappings);
        law_unmap_keeps_others(m1, space, page + 4096, end, rest, x);
    }
}

/// A process that was given up has no pages left and is not given up twice.
pub proof fn law_given_up_once(m: MachineView, p: ProcessView)
    ensures
        ({
            let (m1, q, r) = process::cleaned_up(m, p);
            &&& r is Ok ==> q.destroyed
            &&& r is Ok && !p.destroyed ==> q.mappings.len() == 0
            &&& r is Ok ==> process::cleaned_up(m1, q) == (
                m1,
                q,
                Ok::<int, process::ProcessError>(0),
            )
        }),
{
    if !p.destroyed {
        lemma_torn_down(m, p);
    }
}

proof fn lemma_torn_down(m: MachineView, p: ProcessView)
    ensures
        ({
            let (_, q, r) = process::torn_down(m, p);
            r is Ok ==> q.destroyed && q.mappings.len() == 0
        }),
    decreases p.mappings.len(),
{
    if p.mappings.len() > 0 {
        let last = p.mappings.last();
        let p1 = ProcessView { mappings: p.mappings.drop_last(), ..p };
        let (m1, r) = m.unmapped(p.space, last.virtual_address);
        if let Ok(Some(phys)) = r {
            lemma_torn_down(m1.frame_released(phys), p1);
        }
    }
}

} // verus!
