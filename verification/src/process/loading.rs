//! What a loaded program finds in its memory.
use vstd::prelude::*;

use crate::bytes;
use crate::elf::{self, ProgramHeader};
use crate::paging::tree;
use crate::paging::{self, AddressSpace, MachineView};
use crate::process::{
    self, MappedPage, PagePlan, ProcessError, ProcessPersonality, ProcessView, ProgramView,
    StartInfo, USER_STACK_TOP,
};

verus! {

/// The end of the addresses of programs.
pub open spec fn limit() -> int {
    0x8000_0000_0000
}

/// Whether the direct map, if there is one, starts at a page.
pub open spec fn is_page_aligned(m: MachineView) -> bool {
    m.hhdm matches Some(base) ==> base % 4096 == 0
}

/// Whether the page of an address is one that was mapped for a program.
pub open spec fn is_listed(mappings: Seq<MappedPage>, x: int) -> bool {
    exists|k: int|
        0 <= k < mappings.len() && (#[trigger] mappings[k]).virtual_address == x - x % 4096
}

/// Whether the mappings of a process are pages of its tree.
#[verifier::opaque]
pub open spec fn is_mapped(
    m: MachineView,
    space: AddressSpace,
    tree: Map<Seq<int>, u64>,
    mappings: Seq<MappedPage>,
) -> bool {
    &&& m.sound()
    &&& is_page_aligned(m)
    &&& tree::holds_tree(m, space, tree)
    &&& forall|k: int| 0 <= k < mappings.len() ==> page_stands(m, tree, #[trigger] mappings[k])
}

pub open spec fn page_stands(m: MachineView, tree: Map<Seq<int>, u64>, page: MappedPage) -> bool {
    &&& page.virtual_address % 4096 == 0
    &&& page.virtual_address < limit()
    &&& tree.dom().contains(tree::path_of(page.virtual_address))
    &&& tree[tree::path_of(page.virtual_address)] == page.physical_address
    &&& m.virt(page.physical_address) is Some
}

/// The byte that a program has at an address whose page is in its tree.
pub open spec fn byte_at(m: MachineView, tree: Map<Seq<int>, u64>, x: int) -> u8 {
    m.ram[tree[tree::path_of(x as u64)] + x % 4096]
}

/// Whether an address is one of a program, in a page of the tree.
pub open spec fn is_there(tree: Map<Seq<int>, u64>, x: int) -> bool {
    0 <= x < limit() && tree.dom().contains(tree::path_of(x as u64))
}

pub open spec fn flags_fit(flags: u64) -> bool {
    flags % 0x10_0000_0000_0000 < 4096
}

pub open spec fn plans_fit(plans: Seq<PagePlan>) -> bool {
    forall|k: int|
        0 <= k < plans.len() ==> (#[trigger] plans[k]).virtual_address < limit() && flags_fit(
            plans[k].flags,
        )
}

// ---------------------------------------------------------------------------
// Pages
// ---------------------------------------------------------------------------
proof fn lemma_page_added(
    m: MachineView,
    space: AddressSpace,
    tree: Map<Seq<int>, u64>,
    page: u64,
    flags: u64,
) -> (grown: Map<Seq<int>, u64>)
    requires
        m.sound(),
        tree::holds_tree(m, space, tree),
        page < limit(),
        flags_fit(flags),
        process::page_added(m, space, page, flags, true).1 is Ok,
    ensures
        ({
            let (w, r) = process::page_added(m, space, page, flags, true);
            let phys = r->Ok_0;
            &&& w.sound()
            &&& tree::same_shape(m, w)
            &&& tree::holds_tree(w, space, grown)
            &&& page % 4096 == 0
            &&& grown.dom().contains(tree::path_of(page))
            &&& grown[tree::path_of(page)] == phys
            &&& w.virt(phys) is Some
            &&& forall|q: Seq<int>| #[trigger] tree.dom().contains(q) ==> grown.dom().contains(q) && grown[q]
                == tree[q]
            &&& forall|q: Seq<int>| #[trigger] tree.dom().contains(q) && q.len() == 4 ==> tree::same_frame(
                m,
                w,
                tree[q],
            )
            &&& forall|x: int| phys <= x < phys + 4096 ==> #[trigger] w.ram[x] == 0
        }),
{
    reveal(process::page_added);
    tree::lemma_frame_taken(m);
    let (m1, phys) = m.frame_taken()->0;
    let m2 = m1.page_zeroed(phys);
    let w = process::page_added(m, space, page, flags, true).0;
    assert(w == m2.mapped(space, page, phys, flags).0);
    assert forall|q: Seq<int>| #[trigger] tree.dom().contains(q) implies tree[q] != phys && tree::same_frame(
        m,
        m2,
        tree[q],
    ) by {
        assert(m.owns(tree[q]));
    }
    tree::lemma_tree_kept(m, m2, space, tree);
    let grown = tree::lemma_mapped(m2, space, tree, page, phys, flags);
    assert forall|q: Seq<int>| #[trigger] tree.dom().contains(q) && q.len() == 4 implies tree::same_frame(
        m,
        w,
        tree[q],
    ) by {
        assert(tree::same_frame(m, m2, tree[q]) && tree::same_frame(m2, w, tree[q]));
        assert forall|x: int| tree[q] <= x < tree[q] + 4096 implies #[trigger] w.ram[x] == m.ram[x] by {
            assert(m2.ram[x] == m.ram[x]);
        }
    }
    assert forall|x: int| phys <= x < phys + 4096 implies #[trigger] w.ram[x] == 0 by {
        assert(m2.ram[x] == 0);
    }
    grown
}

pub open spec fn is_clear(m: MachineView, phys: u64) -> bool {
    forall|x: int| phys <= x < phys + 4096 ==> #[trigger] m.ram[x] == 0
}

/// The pages of plans that were mapped are in the tree, and clear; the pages
/// before are as they were.
proof fn lemma_pages_mapped(
    m: MachineView,
    p: ProcessView,
    plans: Seq<PagePlan>,
    tree: Map<Seq<int>, u64>,
) -> (grown: Map<Seq<int>, u64>)
    requires
        is_mapped(m, p.space, tree, p.mappings),
        plans_fit(plans),
        process::pages_mapped(m, p, plans).2 is Ok,
    ensures
        ({
            let (w, after, _) = process::pages_mapped(m, p, plans);
            &&& is_mapped(w, p.space, grown, after.mappings)
            &&& after == (ProcessView { mappings: after.mappings, ..p })
            &&& forall|x: int|
                is_listed(p.mappings, x) || has_page(plans, x - x % 4096) ==> #[trigger] is_listed(
                    after.mappings,
                    x,
                )
            &&& forall|q: Seq<int>| #[trigger] tree.dom().contains(q) ==> grown.dom().contains(q) && grown[q]
                == tree[q]
            &&& forall|q: Seq<int>| #[trigger] tree.dom().contains(q) && q.len() == 4 ==> tree::same_frame(
                m,
                w,
                tree[q],
            )
            &&& forall|k: int|
                0 <= k < plans.len() ==> {
                    let path = tree::path_of((#[trigger] plans[k]).virtual_address);
                    grown.dom().contains(path) && is_clear(w, grown[path])
                }
        }),
    decreases plans.len(),
{
    reveal(is_mapped);
    if plans.len() == 0 {
        tree
    } else {
        let page = plans[0].virtual_address;
        let (m1, r) = process::page_added(m, p.space, page, plans[0].flags, true);
        let phys = r->Ok_0;
        let t1 = lemma_page_added(m, p.space, tree, page, plans[0].flags);
        let p1 = ProcessView {
            mappings: p.mappings.push(
                MappedPage { virtual_address: page, physical_address: phys },
            ),
            ..p
        };
        assert forall|k: int| 0 <= k < p1.mappings.len() implies page_stands(
            m1,
            t1,
            #[trigger] p1.mappings[k],
        ) by {
            if k < p.mappings.len() {
                assert(p1.mappings[k] == p.mappings[k]);
                assert(page_stands(m, tree, p.mappings[k]));
            }
        }
        assert(plans_fit(plans.skip(1))) by {
            assert forall|k: int| 0 <= k < plans.skip(1).len() implies (#[trigger] plans.skip(1)[k]).virtual_address
                < limit() && flags_fit(plans.skip(1)[k].flags) by {
                assert(plans.skip(1)[k] == plans[k + 1]);
            }
        }
        let grown = lemma_pages_mapped(m1, p1, plans.skip(1), t1);
        let w = process::pages_mapped(m, p, plans).0;
        assert forall|x: int|
            is_listed(p.mappings, x) || has_page(plans, x - x % 4096) implies #[trigger] is_listed(
            process::pages_mapped(m, p, plans).1.mappings,
            x,
        ) by {
            if is_listed(p.mappings, x) {
                let k = choose|k: int|
                    0 <= k < p.mappings.len() && (#[trigger] p.mappings[k]).virtual_address == x
                        - x % 4096;
                assert(p1.mappings[k] == p.mappings[k]);
            } else {
                let k = choose|k: int|
                    0 <= k < plans.len() && (#[trigger] plans[k]).virtual_address == x - x % 4096;
                if k == 0 {
                    assert(p1.mappings[p.mappings.len() as int].virtual_address == page);
                } else {
                    assert(plans.skip(1)[k - 1] == plans[k]);
                }
            }
            assert(is_listed(p1.mappings, x) || has_page(plans.skip(1), x - x % 4096));
        }
        assert forall|q: Seq<int>| #[trigger] tree.dom().contains(q) implies grown.dom().contains(q) && grown[q]
            == tree[q] && (q.len() == 4 ==> tree::same_frame(m, w, tree[q])) by {
            assert(t1.dom().contains(q));
            if q.len() == 4 {
                assert(tree::same_frame(m, m1, tree[q]) && tree::same_frame(m1, w, tree[q]));
                assert forall|x: int| tree[q] <= x < tree[q] + 4096 implies #[trigger] w.ram[x]
                    == m.ram[x] by {
                    assert(m1.ram[x] == m.ram[x]);
                }
            }
        }
        assert forall|k: int| 0 <= k < plans.len() implies {
            let path = tree::path_of((#[trigger] plans[k]).virtual_address);
            grown.dom().contains(path) && is_clear(w, grown[path])
        } by {
            if k == 0 {
                let path = tree::path_of(page);
                assert(t1.dom().contains(path));
                assert(path.len() == 4);
                assert(tree::same_frame(m1, w, t1[path]));
                assert forall|x: int| phys <= x < phys + 4096 implies #[trigger] w.ram[x] == 0 by {
                    assert(m1.ram[x] == 0);
                }
            } else {
                assert(plans.skip(1)[k - 1] == plans[k]);
            }
        }
        grown
    }
}

// ---------------------------------------------------------------------------
// Contents
// ---------------------------------------------------------------------------
proof fn lemma_mapping_index(mappings: Seq<MappedPage>, page: u64, i: int)
    requires
        0 <= i <= mappings.len(),
    ensures
        i <= process::mapping_index(mappings, page, i) <= mappings.len(),
        process::mapping_index(mappings, page, i) < mappings.len()
            ==> mappings[process::mapping_index(mappings, page, i)].virtual_address == page,
    decreases mappings.len() - i,
{
    if i < mappings.len() && mappings[i].virtual_address != page {
        lemma_mapping_index(mappings, page, i + 1);
    }
}

/// Writing into a page of the tree changes the bytes that are written, and no
/// others.
#[verifier::spinoff_prover]
#[verifier::rlimit(60)]
proof fn lemma_page_written(
    m: MachineView,
    space: AddressSpace,
    tree: Map<Seq<int>, u64>,
    mappings: Seq<MappedPage>,
    address: int,
    part: Seq<u8>,
    x: int,
)
    requires
        is_mapped(m, space, tree, mappings),
        is_there(tree, address),
        is_there(tree, x),
        part.len() <= 4096 - address % 4096,
    ensures
        ({
            let w = MachineView {
                ram: bytes::splice(
                    m.ram,
                    tree[tree::path_of(address as u64)] + address % 4096,
                    part,
                ),
                ..m
            };
            &&& is_mapped(w, space, tree, mappings)
            &&& byte_at(w, tree, x) == if address <= x < address + part.len() {
                part[x - address]
            } else {
                byte_at(m, tree, x)
            }
        }),
{
    reveal(is_mapped);
    let path = tree::path_of(address as u64);
    let phys = tree[path];
    let w = MachineView { ram: bytes::splice(m.ram, phys + address % 4096, part), ..m };
    assert(m.owns(phys));
    assert(path.len() == 4);
    assert forall|q: Seq<int>| #[trigger] tree.dom().contains(q) && q.len() < 4 implies tree::same_frame(
        m,
        w,
        tree[q],
    ) by {
        assert(q != path);
        let f = tree[q];
        assert(m.owns(f) && f != phys);
        assert(f + 4096 <= phys || phys + 4096 <= f);
        assert(f + 4096 <= m.ram.len());
        assert forall|y: int| f <= y < f + 4096 implies #[trigger] w.ram[y] == m.ram[y] by {}
    }
    assert forall|t: u64| m.owns(t) implies #[trigger] w.owns(t) by {}
    tree::lemma_tree_kept(m, w, space, tree);
    assert forall|k: int| 0 <= k < mappings.len() implies page_stands(w, tree, #[trigger] mappings[k]) by {
        assert(page_stands(m, tree, mappings[k]));
    }
    tree::lemma_paths(address as u64, x as u64);
    let other = tree[tree::path_of(x as u64)];
    assert(m.owns(other));
    assert(other + 4096 <= m.ram.len());
    if address / 4096 != x / 4096 {
        assert(tree::path_of(x as u64) != path);
        assert(other != phys);
        assert(other + 4096 <= phys || phys + 4096 <= other);
    } else {
        assert(other == phys);
        assert(x - address == x % 4096 - address % 4096);
    }
}

/// Bytes that were copied stand at their addresses; all others are as they
/// were.
proof fn lemma_bytes_copied(
    m: MachineView,
    space: AddressSpace,
    tree: Map<Seq<int>, u64>,
    mappings: Seq<MappedPage>,
    address: int,
    bytes: Seq<u8>,
    x: int,
)
    requires
        is_mapped(m, space, tree, mappings),
        0 <= address,
        address + bytes.len() <= limit(),
        is_there(tree, x),
        process::bytes_copied(m, mappings, address, bytes).1 is Ok,
    ensures
        ({
            let w = process::bytes_copied(m, mappings, address, bytes).0;
            &&& is_mapped(w, space, tree, mappings)
            &&& byte_at(w, tree, x) == if address <= x < address + bytes.len() {
                bytes[x - address]
            } else {
                byte_at(m, tree, x)
            }
        }),
    decreases bytes.len(),
{
    reveal(is_mapped);
    if bytes.len() > 0 {
        let page = (address - address % 4096) as u64;
        let i = process::mapping_index(mappings, page, 0);
        lemma_mapping_index(mappings, page, 0);
        assert(page_stands(m, tree, mappings[i]));
        let phys = mappings[i].physical_address;
        let n = process::in_page(address, bytes.len() as int);
        tree::lemma_paths(page, address as u64);
        assert(page / 4096 == address as u64 / 4096);
        assert(tree[tree::path_of(address as u64)] == phys);
        lemma_page_written(m, space, tree, mappings, address, bytes.take(n), x);
        let next = MachineView {
            ram: bytes::splice(m.ram, phys + address % 4096, bytes.take(n)),
            ..m
        };
        lemma_bytes_copied(next, space, tree, mappings, address + n, bytes.skip(n), x);
    }
}

/// Whether an address is in the part of a segment that the file has.
pub open spec fn in_file(h: ProgramHeader, base: u64, x: int) -> bool {
    process::is_load(h) && process::segment_start(h, base) <= x < process::segment_start(h, base)
        + h.file_size
}

/// Whether an address is in a segment.
pub open spec fn in_segment(h: ProgramHeader, base: u64, x: int) -> bool {
    process::is_load(h) && process::segment_start(h, base) <= x < process::segment_start(h, base)
        + h.memory_size
}

/// Whether the segments of an image can be loaded.
pub open spec fn segments_fit(file: Seq<u8>, base: u64) -> bool {
    forall|j: int|
        0 <= j < elf::headers(file).len() && process::is_load(#[trigger] elf::headers(file)[j])
            ==> process::segment_fault(elf::headers(file)[j], file.len() as int, base) is None
}

/// Whether no address is in two segments.
pub open spec fn segments_apart(file: Seq<u8>, base: u64) -> bool {
    forall|a: int, b: int, x: int|
        #![trigger in_segment(elf::headers(file)[a], base, x), in_segment(elf::headers(file)[b], base, x)]
        0 <= a < elf::headers(file).len() && 0 <= b < elf::headers(file).len() && in_segment(
            elf::headers(file)[a],
            base,
            x,
        ) && in_segment(elf::headers(file)[b], base, x) ==> a == b
}

/// After the segments from number `i` on were copied, an address of one of them
/// has the byte of the file, and one of none has what it had.
proof fn lemma_segments_copied(
    m: MachineView,
    space: AddressSpace,
    tree: Map<Seq<int>, u64>,
    mappings: Seq<MappedPage>,
    file: Seq<u8>,
    base: u64,
    i: int,
    j: int,
    x: int,
)
    requires
        is_mapped(m, space, tree, mappings),
        segments_fit(file, base),
        segments_apart(file, base),
        0 <= i,
        is_there(tree, x),
        process::segments_copied(m, mappings, file, base, i).1 is Ok,
    ensures
        ({
            let w = process::segments_copied(m, mappings, file, base, i).0;
            let headers = elf::headers(file);
            &&& is_mapped(w, space, tree, mappings)
            &&& i <= j < headers.len() && in_file(headers[j], base, x) ==> byte_at(w, tree, x)
                == file[headers[j].offset + (x - process::segment_start(headers[j], base))]
            &&& (forall|k: int| i <= k < headers.len() ==> !in_file(#[trigger] headers[k], base, x))
                ==> byte_at(w, tree, x) == byte_at(m, tree, x)
        }),
    decreases elf::headers(file).len() - i,
{
    let headers = elf::headers(file);
    if i < headers.len() {
        if !process::is_load(headers[i]) {
            lemma_segments_copied(m, space, tree, mappings, file, base, i + 1, j, x);
        } else {
            let h = headers[i];
            let start = process::segment_start(h, base) as int;
            let part = file.subrange(h.offset as int, h.offset + h.file_size);
            assert(process::segment_fault(h, file.len() as int, base) is None);
            lemma_bytes_copied(m, space, tree, mappings, start, part, x);
            let m1 = process::bytes_copied(m, mappings, start, part).0;
            lemma_segments_copied(m1, space, tree, mappings, file, base, i + 1, j, x);
            if j == i && in_file(h, base, x) {
                assert(in_segment(headers[i], base, x));
                assert forall|k: int| i + 1 <= k < headers.len() implies !in_file(
                    #[trigger] headers[k],
                    base,
                    x,
                ) by {
                    if in_file(headers[k], base, x) {
                        assert(process::segment_fault(headers[k], file.len() as int, base) is None);
                        assert(in_segment(headers[k], base, x));
                    }
                }
            }
            if forall|k: int| i <= k < headers.len() ==> !in_file(#[trigger] headers[k], base, x) {
                assert(!in_file(headers[i], base, x));
            }
        }
    }
}

// ---------------------------------------------------------------------------
// The stack
// ---------------------------------------------------------------------------
/// What is written for a program changes nothing beside it.
proof fn lemma_written_beside(
    m: MachineView,
    space: AddressSpace,
    tree: Map<Seq<int>, u64>,
    mappings: Seq<MappedPage>,
    address: int,
    bytes: Seq<u8>,
    x: int,
)
    requires
        is_mapped(m, space, tree, mappings),
        0 <= address,
        address + bytes.len() <= limit(),
        is_there(tree, x),
        !(address <= x < address + bytes.len()),
        process::user_written(m, space, address, bytes).1 is Ok,
    ensures
        is_mapped(process::user_written(m, space, address, bytes).0, space, tree, mappings),
        byte_at(process::user_written(m, space, address, bytes).0, tree, x) == byte_at(m, tree, x),
    decreases bytes.len(),
{
    reveal(is_mapped);
    if bytes.len() > 0 {
        reveal(process::user_place);
        tree::lemma_translated(m, space, tree, address as u64);
        let path = tree::path_of(address as u64);
        assert(tree.dom().contains(path));
        let p = process::place_at(m, space, address)->0;
        assert(m.owns(tree[path]));
        assert(tree[path] + 4096 <= m.ram.len());
        assert(m.frames.frames.len() <= 16_777_216) by {
            reveal(paging::frames_valid);
        }
        assert(p == tree[path] + address % 4096);
        let next = MachineView { ram: m.ram.update(p, bytes[0]), ..m };
        lemma_page_written(m, space, tree, mappings, address, seq![bytes[0]], x);
        assert(bytes::splice(m.ram, p, seq![bytes[0]]) =~= m.ram.update(p, bytes[0]));
        lemma_written_beside(next, space, tree, mappings, address + 1, bytes.skip(1), x);
    }
}

proof fn lemma_texts_beside(
    m: MachineView,
    space: AddressSpace,
    tree: Map<Seq<int>, u64>,
    mappings: Seq<MappedPage>,
    texts: Seq<Seq<u8>>,
    sp: u64,
    pointers: Seq<u64>,
    x: int,
)
    requires
        is_mapped(m, space, tree, mappings),
        sp <= limit(),
        is_there(tree, x),
        process::texts_placed(m, space, texts, sp, pointers).1 matches Ok((at, _)) && !(at <= x < sp),
    ensures
        ({
            let (w, r) = process::texts_placed(m, space, texts, sp, pointers);
            &&& r->Ok_0.0 <= sp
            &&& is_mapped(w, space, tree, mappings)
            &&& byte_at(w, tree, x) == byte_at(m, tree, x)
        }),
    decreases texts.len(),
{
    if texts.len() > 0 {
        let at = (sp - texts[0].len() - 1) as u64;
        let m1 = process::user_written(m, space, at as int, texts[0].push(0)).0;
        lemma_texts_go_down(m1, space, texts.skip(1), at, pointers.push(at));
        lemma_written_beside(m, space, tree, mappings, at as int, texts[0].push(0), x);
        lemma_texts_beside(m1, space, tree, mappings, texts.skip(1), at, pointers.push(at), x);
    }
}

proof fn lemma_texts_go_down(
    m: MachineView,
    space: AddressSpace,
    texts: Seq<Seq<u8>>,
    sp: u64,
    pointers: Seq<u64>,
)
    ensures
        process::texts_placed(m, space, texts, sp, pointers).1 matches Ok((at, _)) ==> at <= sp,
    decreases texts.len(),
{
    if texts.len() > 0 && texts[0].len() + 1 <= sp {
        let at = (sp - texts[0].len() - 1) as u64;
        let m1 = process::user_written(m, space, at as int, texts[0].push(0)).0;
        lemma_texts_go_down(m1, space, texts.skip(1), at, pointers.push(at));
    }
}

proof fn lemma_words_go_down(m: MachineView, space: AddressSpace, words: Seq<u64>, sp: u64)
    ensures
        process::words_pushed(m, space, words, sp).1 matches Ok(at) ==> at <= sp,
    decreases words.len(),
{
    if words.len() > 0 && sp >= 8 {
        let m1 = process::user_written(m, space, sp - 8, bytes::le64_bytes(words[0])).0;
        lemma_words_go_down(m1, space, words.skip(1), (sp - 8) as u64);
    }
}

proof fn lemma_words_beside(
    m: MachineView,
    space: AddressSpace,
    tree: Map<Seq<int>, u64>,
    mappings: Seq<MappedPage>,
    words: Seq<u64>,
    sp: u64,
    x: int,
)
    requires
        is_mapped(m, space, tree, mappings),
        sp <= limit(),
        is_there(tree, x),
        process::words_pushed(m, space, words, sp).1 matches Ok(at) && !(at <= x < sp),
    ensures
        is_mapped(process::words_pushed(m, space, words, sp).0, space, tree, mappings),
        byte_at(process::words_pushed(m, space, words, sp).0, tree, x) == byte_at(m, tree, x),
    decreases words.len(),
{
    if words.len() > 0 {
        let m1 = process::user_written(m, space, sp - 8, bytes::le64_bytes(words[0])).0;
        lemma_words_go_down(m1, space, words.skip(1), (sp - 8) as u64);
        lemma_written_beside(m, space, tree, mappings, sp - 8, bytes::le64_bytes(words[0]), x);
        lemma_words_beside(m1, space, tree, mappings, words.skip(1), (sp - 8) as u64, x);
    }
}

/// Building a stack changes nothing outside of it.
proof fn lemma_stack_beside(
    m: MachineView,
    space: AddressSpace,
    tree: Map<Seq<int>, u64>,
    mappings: Seq<MappedPage>,
    args: Seq<Seq<u8>>,
    env: Seq<Seq<u8>>,
    info: StartInfo,
    x: int,
)
    requires
        is_mapped(m, space, tree, mappings),
        is_there(tree, x),
        process::stack_built(m, space, args, env, info).1 matches Ok(sp) && !(sp <= x
            < USER_STACK_TOP),
    ensures
        is_mapped(process::stack_built(m, space, args, env, info).0, space, tree, mappings),
        byte_at(process::stack_built(m, space, args, env, info).0, tree, x) == byte_at(m, tree, x),
{
    let none = Seq::<u64>::empty();
    let (m1, r1) = process::texts_placed(m, space, args, USER_STACK_TOP, none);
    let (sp1, arg_pointers) = r1->Ok_0;
    let (m2, r2) = process::texts_placed(m1, space, env, sp1, none);
    let (sp2, env_pointers) = r2->Ok_0;
    let random = (sp2 - 16) as u64;
    let m3 = process::user_written(m2, space, random as int, process::random_bytes()).0;
    let words = process::start_words(info, random, arg_pointers, env_pointers);
    let low = (random / 16 * 16) as u64;
    lemma_texts_go_down(m, space, args, USER_STACK_TOP, none);
    lemma_texts_go_down(m1, space, env, sp1, none);
    lemma_words_go_down(m3, space, words, low);
    lemma_texts_beside(m, space, tree, mappings, args, USER_STACK_TOP, none, x);
    lemma_texts_beside(m1, space, tree, mappings, env, sp1, none, x);
    assert(process::random_bytes().len() == 16);
    lemma_written_beside(m2, space, tree, mappings, random as int, process::random_bytes(), x);
    lemma_words_beside(m3, space, tree, mappings, words, low, x);
}

// ---------------------------------------------------------------------------
// Plans
// ---------------------------------------------------------------------------
pub open spec fn has_page(plans: Seq<PagePlan>, page: int) -> bool {
    exists|k: int| 0 <= k < plans.len() && (#[trigger] plans[k]).virtual_address == page
}

proof fn lemma_plan_index(plans: Seq<PagePlan>, page: u64, i: int)
    requires
        0 <= i <= plans.len(),
    ensures
        i <= process::plan_index(plans, page, i) <= plans.len(),
        process::plan_index(plans, page, i) < plans.len() ==> plans[process::plan_index(
            plans,
            page,
            i,
        )].virtual_address == page,
    decreases plans.len() - i,
{
    if i < plans.len() && plans[i].virtual_address != page {
        lemma_plan_index(plans, page, i + 1);
    }
}

proof fn lemma_page_planned(plans: Seq<PagePlan>, page: u64, flags: u64, executable: bool, other: int)
    requires
        plans_fit(plans),
        page < limit(),
        flags_fit(flags),
    ensures
        ({
            let after = process::page_planned(plans, page, flags, executable);
            &&& plans_fit(after)
            &&& has_page(after, page as int)
            &&& has_page(plans, other) ==> has_page(after, other)
        }),
{
    let after = process::page_planned(plans, page, flags, executable);
    let i = process::plan_index(plans, page, 0);
    lemma_plan_index(plans, page, 0);
    if i < plans.len() {
        let before = plans[i].flags;
        assert(flags_fit(before));
        assert(((before | flags) & !0x8000_0000_0000_0000u64) % 0x10_0000_0000_0000u64 < 4096 && ((
        before | flags) | 0x8000_0000_0000_0000u64) % 0x10_0000_0000_0000u64 < 4096) by (bit_vector)
            requires
                before % 0x10_0000_0000_0000u64 < 4096,
                flags % 0x10_0000_0000_0000u64 < 4096,
        ;
        assert(after[i].virtual_address == page);
    } else {
        assert(after[plans.len() as int].virtual_address == page);
    }
    if has_page(plans, other) {
        let k = choose|k: int| 0 <= k < plans.len() && (#[trigger] plans[k]).virtual_address == other;
        assert(after[k].virtual_address == other);
    }
}

proof fn lemma_pages_planned(
    plans: Seq<PagePlan>,
    page: int,
    end: int,
    flags: u64,
    executable: bool,
    other: int,
)
    requires
        plans_fit(plans),
        0 <= page,
        end <= limit(),
        flags_fit(flags),
    ensures
        ({
            let after = process::pages_planned(plans, page, end, flags, executable);
            &&& plans_fit(after)
            &&& page <= other < end && (other - page) % 4096 == 0 ==> has_page(after, other)
            &&& has_page(plans, other) ==> has_page(after, other)
        }),
    decreases end + 4096 - page,
{
    if page < end {
        lemma_page_planned(plans, page as u64, flags, executable, other);
        let next = process::page_planned(plans, page as u64, flags, executable);
        lemma_pages_planned(next, page + 4096, end, flags, executable, other);
        if page <= other < end && (other - page) % 4096 == 0 && other != page {
            assert(other >= page + 4096);
        }
    }
}

/// The pages of the segments from number `i` on are planned.
proof fn lemma_segments_planned(
    headers: Seq<ProgramHeader>,
    length: int,
    base: u64,
    i: int,
    plans: Seq<PagePlan>,
    j: int,
    x: int,
)
    requires
        plans_fit(plans),
        0 <= i,
        process::segments_planned(headers, length, base, i, plans) is Ok,
    ensures
        ({
            let after = process::segments_planned(headers, length, base, i, plans)->Ok_0;
            let page = x - x % 4096;
            &&& plans_fit(after)
            &&& i <= j < headers.len() && process::is_load(headers[j]) ==> process::segment_fault(
                headers[j],
                length,
                base,
            ) is None
            &&& i <= j < headers.len() && in_segment(headers[j], base, x) ==> has_page(after, page)
            &&& has_page(plans, page) ==> has_page(after, page)
        }),
    decreases headers.len() - i,
{
    if i < headers.len() {
        if !process::is_load(headers[i]) {
            lemma_segments_planned(headers, length, base, i + 1, plans, j, x);
        } else {
            let h = headers[i];
            let start = process::segment_start(h, base);
            let first = (start / 4096 * 4096) as int;
            let end = (start + h.memory_size + 4095) / 4096 * 4096;
            let page = x - x % 4096;
            assert(flags_fit(process::segment_flags(h)));
            assert(end <= limit());
            lemma_pages_planned(
                plans,
                first,
                end,
                process::segment_flags(h),
                process::can_run(h),
                page,
            );
            let next = process::segment_planned(plans, h, base);
            lemma_segments_planned(headers, length, base, i + 1, next, j, x);
            if j == i && in_segment(h, base, x) {
                assert(first <= page < end && (page - first) % 4096 == 0);
            }
        }
    }
}

// ---------------------------------------------------------------------------
// The loaded program
// ---------------------------------------------------------------------------
/// What the file of a program has for an address of a segment.
pub open spec fn wanted_at(file: Seq<u8>, base: u64, j: int, x: int) -> u8 {
    let h = elf::headers(file)[j];
    let start = process::segment_start(h, base);
    if x < start + h.file_size {
        file[h.offset + (x - start)]
    } else {
        0
    }
}

/// The pages and contents of a program, before it has a stack.
proof fn lemma_contents(
    file: Seq<u8>,
    base: u64,
    m1: MachineView,
    p0: ProcessView,
    plans: Seq<PagePlan>,
    tree0: Map<Seq<int>, u64>,
    j: int,
    x: int,
) -> (tree1: Map<Seq<int>, u64>)
    requires
        is_mapped(m1, p0.space, tree0, p0.mappings),
        plans_fit(plans),
        has_page(plans, x - x % 4096),
        segments_fit(file, base),
        segments_apart(file, base),
        0 <= x < limit(),
        0 <= j < elf::headers(file).len(),
        in_segment(elf::headers(file)[j], base, x),
        process::pages_mapped(m1, p0, plans).2 is Ok,
        process::segments_copied(
            process::pages_mapped(m1, p0, plans).0,
            process::pages_mapped(m1, p0, plans).1.mappings,
            file,
            base,
            0,
        ).1 is Ok,
    ensures
        ({
            let (m2, p1, _) = process::pages_mapped(m1, p0, plans);
            let m3 = process::segments_copied(m2, p1.mappings, file, base, 0).0;
            &&& p1 == (ProcessView { mappings: p1.mappings, ..p0 })
            &&& is_mapped(m3, p0.space, tree1, p1.mappings)
            &&& is_there(tree1, x)
            &&& is_listed(p1.mappings, x)
            &&& byte_at(m3, tree1, x) == wanted_at(file, base, j, x)
        }),
{
    let headers = elf::headers(file);
    let (m2, p1, _) = process::pages_mapped(m1, p0, plans);
    let tree1 = lemma_pages_mapped(m1, p0, plans, tree0);
    let page = x - x % 4096;
    let k = choose|k: int| 0 <= k < plans.len() && (#[trigger] plans[k]).virtual_address == page;
    tree::lemma_paths(page as u64, x as u64);
    let path = tree::path_of(x as u64);
    assert(page / 4096 == x / 4096);
    assert(plans[k].virtual_address == page as u64);
    assert(tree1.dom().contains(path) && is_clear(m2, tree1[path]));
    assert(byte_at(m2, tree1, x) == 0);
    lemma_segments_copied(m2, p0.space, tree1, p1.mappings, file, base, 0, j, x);
    if !in_file(headers[j], base, x) {
        assert forall|a: int| 0 <= a < headers.len() implies !in_file(#[trigger] headers[a], base, x) by {
            if in_file(headers[a], base, x) {
                assert(process::segment_fault(headers[a], file.len() as int, base) is None);
                assert(in_segment(headers[a], base, x) && in_segment(headers[j], base, x));
            }
        }
    }
    tree1
}

proof fn lemma_stack_plans()
    ensures
        plans_fit(process::stack_plans()),
{
}

/// A stack leaves the contents of a program as they are.
#[verifier::spinoff_prover]
#[verifier::rlimit(60)]
proof fn lemma_stack_apart(
    m3: MachineView,
    p1: ProcessView,
    tree1: Map<Seq<int>, u64>,
    args: Seq<Seq<u8>>,
    env: Seq<Seq<u8>>,
    info: StartInfo,
    x: int,
) -> (tree2: Map<Seq<int>, u64>)
    requires
        is_mapped(m3, p1.space, tree1, p1.mappings),
        is_there(tree1, x),
        process::pages_mapped(m3, p1, process::stack_plans()).2 is Ok,
        process::stack_built(
            process::pages_mapped(m3, p1, process::stack_plans()).0,
            p1.space,
            args,
            env,
            info,
        ).1 matches Ok(sp) && !(sp <= x < USER_STACK_TOP),
    ensures
        ({
            let (m4, p3, _) = process::pages_mapped(m3, p1, process::stack_plans());
            let m5 = process::stack_built(m4, p1.space, args, env, info).0;
            &&& p3 == (ProcessView { mappings: p3.mappings, ..p1 })
            &&& is_mapped(m5, p1.space, tree2, p3.mappings)
            &&& is_there(tree2, x)
            &&& is_listed(p1.mappings, x) ==> is_listed(p3.mappings, x)
            &&& byte_at(m5, tree2, x) == byte_at(m3, tree1, x)
        }),
{
    lemma_stack_plans();
    let plans = process::stack_plans();
    let (m4, p3, _) = process::pages_mapped(m3, p1, plans);
    let tree2 = lemma_pages_mapped(m3, p1, plans, tree1);
    let path = tree::path_of(x as u64);
    assert(path.len() == 4);
    assert(tree::same_frame(m3, m4, tree1[path]));
    assert(byte_at(m4, tree2, x) == byte_at(m3, tree1, x));
    lemma_stack_beside(m4, p1.space, tree2, p3.mappings, args, env, info, x);
    tree2
}

/// A program finds the byte of the tree at an address.
proof fn lemma_found(
    m: MachineView,
    space: AddressSpace,
    tree: Map<Seq<int>, u64>,
    mappings: Seq<MappedPage>,
    x: int,
)
    requires
        is_mapped(m, space, tree, mappings),
        is_there(tree, x),
        is_listed(mappings, x),
    ensures
        process::user_place(m, space, x as u64) matches Some(at) && m.ram[at] == byte_at(m, tree, x),
{
    reveal(is_mapped);
    let path = tree::path_of(x as u64);
    reveal(process::user_place);
    tree::lemma_translated(m, space, tree, x as u64);
    assert(m.owns(tree[path]));
    assert(tree[path] + 4096 <= m.ram.len());
    let k = choose|k: int|
        0 <= k < mappings.len() && (#[trigger] mappings[k]).virtual_address == x - x % 4096;
    assert(page_stands(m, tree, mappings[k]));
    tree::lemma_paths(mappings[k].virtual_address, x as u64);
    assert(m.frames.frames.len() <= 16_777_216) by {
        reveal(paging::frames_valid);
    }
}

/// What planning a program says of its segments.
proof fn lemma_ready(file: Seq<u8>, base: u64, plans: Seq<PagePlan>, j: int, x: int)
    requires
        process::planned(file, base) == Ok::<Seq<PagePlan>, ProcessError>(plans),
        0 <= j < elf::headers(file).len(),
        in_segment(elf::headers(file)[j], base, x),
    ensures
        segments_fit(file, base),
        plans_fit(plans),
        has_page(plans, x - x % 4096),
        0 <= x < limit(),
{
    let headers = elf::headers(file);
    let none = Seq::<PagePlan>::empty();
    assert forall|k: int| 0 <= k < headers.len() && process::is_load(#[trigger] headers[k]) implies process::segment_fault(
        headers[k],
        file.len() as int,
        base,
    ) is None by {
        lemma_segments_planned(headers, file.len() as int, base, 0, none, k, x);
    }
    lemma_segments_planned(headers, file.len() as int, base, 0, none, j, x);
    assert(process::segment_fault(headers[j], file.len() as int, base) is None);
}

/// How a program without an interpreter is loaded.
proof fn lemma_loaded_parts(
    program: ProgramView,
    m: MachineView,
    personality: ProcessPersonality,
    p: ProcessView,
)
    requires
        program.loaded(m, personality).1 == Ok::<ProcessView, ProcessError>(p),
        program.second() is None,
    ensures
        ({
            let file = program.bytes;
            let base = process::load_base(file);
            let (m1, r1) = m.space_created();
            let space = r1->Ok_0;
            let p0 = program.new_process(space, personality);
            let (m2, p1, r2) = process::pages_mapped(m1, p0, program.plan()->Ok_0);
            let (m3, r3) = process::segments_copied(m2, p1.mappings, file, base, 0);
            let (m4, p3, r4) = process::pages_mapped(m3, p1, process::stack_plans());
            let (m5, r5) = process::stack_built(
                m4,
                p3.space,
                program.args,
                program.environment,
                program.start_info(),
            );
            &&& program.plan() == process::planned(file, base)
            &&& program.plan() is Ok
            &&& r1 is Ok && r2 is Ok && r3 is Ok && r4 is Ok
            &&& r5 matches Ok(sp) && p == (ProcessView { user_stack_top: sp, ..p3 })
            &&& m5 == program.loaded(m, personality).0
        }),
{
}

/// A new space, and a process without pages.
proof fn lemma_begun(m: MachineView, p0: ProcessView) -> (tree0: Map<Seq<int>, u64>)
    requires
        m.sound(),
        is_page_aligned(m),
        m.space_created().1 == Ok::<AddressSpace, paging::MapError>(p0.space),
        p0.mappings.len() == 0,
    ensures
        is_mapped(m.space_created().0, p0.space, tree0, p0.mappings),
{
    reveal(is_mapped);
    tree::lemma_space_created(m);
    Map::<Seq<int>, u64>::empty().insert(Seq::empty(), p0.space.pml4_phys)
}

/// The pages and contents of a program in a new space.
proof fn lemma_first_half(
    file: Seq<u8>,
    base: u64,
    m: MachineView,
    p0: ProcessView,
    plans: Seq<PagePlan>,
    p1: ProcessView,
    m3: MachineView,
    j: int,
    x: int,
) -> (tree1: Map<Seq<int>, u64>)
    requires
        m.sound(),
        is_page_aligned(m),
        m.space_created().1 == Ok::<AddressSpace, paging::MapError>(p0.space),
        p0.mappings.len() == 0,
        process::planned(file, base) == Ok::<Seq<PagePlan>, ProcessError>(plans),
        segments_apart(file, base),
        0 <= j < elf::headers(file).len(),
        in_segment(elf::headers(file)[j], base, x),
        ({
            let (m2, after, r2) = process::pages_mapped(m.space_created().0, p0, plans);
            &&& r2 is Ok
            &&& after == p1
            &&& process::segments_copied(m2, p1.mappings, file, base, 0).0 == m3
            &&& process::segments_copied(m2, p1.mappings, file, base, 0).1 is Ok
        }),
    ensures
        p1 == (ProcessView { mappings: p1.mappings, ..p0 }),
        is_mapped(m3, p0.space, tree1, p1.mappings),
        is_there(tree1, x),
        is_listed(p1.mappings, x),
        byte_at(m3, tree1, x) == wanted_at(file, base, j, x),
{
    lemma_ready(file, base, plans, j, x);
    let tree0 = lemma_begun(m, p0);
    lemma_contents(file, base, m.space_created().0, p0, plans, tree0, j, x)
}

/// What is found once a stack is there, too.
proof fn lemma_second_half(
    m3: MachineView,
    p1: ProcessView,
    tree1: Map<Seq<int>, u64>,
    args: Seq<Seq<u8>>,
    env: Seq<Seq<u8>>,
    info: StartInfo,
    p3: ProcessView,
    m5: MachineView,
    sp: u64,
    x: int,
)
    requires
        is_mapped(m3, p1.space, tree1, p1.mappings),
        is_there(tree1, x),
        is_listed(p1.mappings, x),
        x < sp || USER_STACK_TOP <= x,
        ({
            let (m4, after, r4) = process::pages_mapped(m3, p1, process::stack_plans());
            &&& r4 is Ok
            &&& after == p3
            &&& process::stack_built(m4, p3.space, args, env, info) == (
                m5,
                Ok::<u64, ProcessError>(sp),
            )
        }),
    ensures
        p3 == (ProcessView { mappings: p3.mappings, ..p1 }),
        process::user_place(m5, p1.space, x as u64) matches Some(at) && m5.ram[at] == byte_at(
            m3,
            tree1,
            x,
        ),
{
    lemma_space_kept(m3, p1, process::stack_plans());
    let tree2 = lemma_stack_apart(m3, p1, tree1, args, env, info, x);
    lemma_found(m5, p1.space, tree2, p3.mappings, x);
}

proof fn lemma_space_kept(m: MachineView, p: ProcessView, plans: Seq<PagePlan>)
    ensures
        process::pages_mapped(m, p, plans).1 == (ProcessView {
            mappings: process::pages_mapped(m, p, plans).1.mappings,
            ..p
        }),
    decreases plans.len(),
{
    if plans.len() > 0 {
        let (m1, r) = process::page_added(
            m,
            p.space,
            plans[0].virtual_address,
            plans[0].flags,
            true,
        );
        if let Ok(phys) = r {
            let p1 = ProcessView {
                mappings: p.mappings.push(
                    MappedPage {
                        virtual_address: plans[0].virtual_address,
                        physical_address: phys,
                    },
                ),
                ..p
            };
            lemma_space_kept(m1, p1, plans.skip(1));
        }
    }
}

/// A program has the personality that it was loaded with.
pub proof fn law_personality_kept(
    program: ProgramView,
    m: MachineView,
    personality: ProcessPersonality,
)
    ensures
        program.loaded(m, personality).1 matches Ok(p) ==> p.personality == personality,
{
    if let Ok(p) = program.loaded(m, personality).1 {
        let plans = program.plan()->Ok_0;
        let (m1, r1) = m.space_created();
        let p0 = program.new_process(r1->Ok_0, personality);
        let (m2, p1, r2) = process::pages_mapped(m1, p0, plans);
        let m3 = program.copied(m2, p1.mappings).0;
        lemma_space_kept(m1, p0, plans);
        lemma_space_kept(m3, p1, process::stack_plans());
    }
}

/// What is found in a new space once pages, contents and a stack are there.
#[verifier::spinoff_prover]
#[verifier::rlimit(60)]
proof fn lemma_run(
    file: Seq<u8>,
    base: u64,
    m: MachineView,
    p0: ProcessView,
    plans: Seq<PagePlan>,
    args: Seq<Seq<u8>>,
    env: Seq<Seq<u8>>,
    info: StartInfo,
    j: int,
    x: int,
)
    requires
        m.sound(),
        is_page_aligned(m),
        m.space_created().1 == Ok::<AddressSpace, paging::MapError>(p0.space),
        p0.mappings.len() == 0,
        process::planned(file, base) == Ok::<Seq<PagePlan>, ProcessError>(plans),
        segments_apart(file, base),
        0 <= j < elf::headers(file).len(),
        in_segment(elf::headers(file)[j], base, x),
        ({
            let m1 = m.space_created().0;
            let (m2, p1, r2) = process::pages_mapped(m1, p0, plans);
            let (m3, r3) = process::segments_copied(m2, p1.mappings, file, base, 0);
            let (m4, p3, r4) = process::pages_mapped(m3, p1, process::stack_plans());
            &&& r2 is Ok && r3 is Ok && r4 is Ok
            &&& process::stack_built(m4, p3.space, args, env, info).1 matches Ok(sp) && (x < sp
                || USER_STACK_TOP <= x)
        }),
    ensures
        ({
            let m1 = m.space_created().0;
            let (m2, p1, r2) = process::pages_mapped(m1, p0, plans);
            let (m3, r3) = process::segments_copied(m2, p1.mappings, file, base, 0);
            let (m4, p3, r4) = process::pages_mapped(m3, p1, process::stack_plans());
            let m5 = process::stack_built(m4, p3.space, args, env, info).0;
            &&& p3 == (ProcessView { mappings: p3.mappings, ..p0 })
            &&& process::user_place(m5, p0.space, x as u64) matches Some(at) && m5.ram[at]
                == wanted_at(file, base, j, x)
        }),
{
    let (m2, p1, r2) = process::pages_mapped(m.space_created().0, p0, plans);
    let (m3, r3) = process::segments_copied(m2, p1.mappings, file, base, 0);
    let (m4, p3, r4) = process::pages_mapped(m3, p1, process::stack_plans());
    let (m5, r5) = process::stack_built(m4, p3.space, args, env, info);
    let tree1 = lemma_first_half(file, base, m, p0, plans, p1, m3, j, x);
    lemma_second_half(m3, p1, tree1, args, env, info, p3, m5, r5->Ok_0, x);
}

/// Whether loading a program on a machine gives a process, and leaves the
/// machine as `w`.
#[verifier::opaque]
pub open spec fn is_loaded(
    program: ProgramView,
    m: MachineView,
    personality: ProcessPersonality,
    p: ProcessView,
    w: MachineView,
) -> bool {
    program.loaded(m, personality) == (w, Ok::<ProcessView, ProcessError>(p))
}

/// A program without an interpreter that was loaded, and whose segments lie
/// apart, starts at its entry, and finds the bytes of its file at the addresses
/// of its segments, and zeros after them, except where its arguments were put:
/// if they are too long for the pages of the stack, they reach into a segment
/// right below. The machine is a valid one, and its direct map starts at a
/// page.
#[verifier::spinoff_prover]
#[verifier::rlimit(60)]
pub proof fn law_program_found(
    program: ProgramView,
    m: MachineView,
    personality: ProcessPersonality,
    p: ProcessView,
    w: MachineView,
    j: int,
    x: int,
)
    requires
        m.sound(),
        is_page_aligned(m),
        is_loaded(program, m, personality, p, w),
        program.second() is None,
        segments_apart(program.bytes, process::load_base(program.bytes)),
        0 <= j < elf::headers(program.bytes).len(),
        in_segment(elf::headers(program.bytes)[j], process::load_base(program.bytes), x),
        x < p.user_stack_top || USER_STACK_TOP <= x,
    ensures
        ({
            let h = elf::headers(program.bytes)[j];
            let start = process::segment_start(h, process::load_base(program.bytes));
            &&& p.entry == program.main_entry()
            &&& p.personality == personality
            &&& process::user_place(w, p.space, x as u64) matches Some(at) && w.ram[at] == (if x < start
                + h.file_size {
                program.bytes[h.offset + (x - start)]
            } else {
                0u8
            })
        }),
{
    reveal(is_loaded);
    let file = program.bytes;
    let base = process::load_base(file);
    lemma_loaded_parts(program, m, personality, p);
    let p0 = program.new_process(m.space_created().1->Ok_0, personality);
    lemma_run(
        file,
        base,
        m,
        p0,
        program.plan()->Ok_0,
        program.args,
        program.environment,
        program.start_info(),
        j,
        x,
    );
}

} // verus!
