//! The tables and pages of an address space as a tree: what mapping a page
//! leaves as it was.
use vstd::prelude::*;

use crate::bytes;
use crate::paging::{self, AddressSpace, MachineView, Translation};

verus! {

/// The entries that an address of a program goes through.
pub open spec fn path_of(address: u64) -> Seq<int> {
    seq![
        paging::index_pml4(address),
        paging::index_pdpt(address),
        paging::index_pd(address),
        paging::index_pt(address),
    ]
}

/// Whether a number is one of an entry for programs.
pub open spec fn is_slot(depth: int, i: int) -> bool {
    0 <= i < 512 && (depth == 0 ==> i < 256)
}

/// Whether the last entry of a path leads to what the tree has there.
pub open spec fn leads(m: MachineView, tree: Map<Seq<int>, u64>, p: Seq<int>) -> bool {
    &&& tree.dom().contains(p.drop_last())
    &&& is_slot(p.len() - 1, p.last())
    &&& m.entry(tree[p.drop_last()], p.last()) matches Some(e) && paging::present(e)
        && paging::address_of(e) == tree[p] && (p.len() < 4 ==> !paging::huge(e))
}

pub open spec fn is_vacant(m: MachineView, table: u64, i: int) -> bool {
    m.entry(table, i) matches Some(e) ==> !paging::present(e)
}

/// Whether the tree has all tables and pages of a space that are for programs,
/// each in a frame of its own.
pub open spec fn holds_tree(m: MachineView, space: AddressSpace, tree: Map<Seq<int>, u64>) -> bool {
    &&& tree.dom().contains(Seq::empty())
    &&& tree[Seq::empty()] == space.pml4_phys
    &&& forall|p: Seq<int>| #[trigger] tree.dom().contains(p) ==> p.len() <= 4 && m.owns(tree[p])
    &&& forall|p: Seq<int>, q: Seq<int>|
        #![trigger tree.dom().contains(p), tree.dom().contains(q)]
        tree.dom().contains(p) && tree.dom().contains(q) && tree[p] == tree[q] ==> p == q
    &&& forall|p: Seq<int>| #[trigger] tree.dom().contains(p) && p.len() > 0 ==> leads(m, tree, p)
    &&& forall|p: Seq<int>, i: int|
        #![trigger tree.dom().contains(p.push(i))]
        tree.dom().contains(p) && p.len() < 4 && is_slot(p.len() as int, i)
            && !tree.dom().contains(p.push(i)) ==> is_vacant(m, tree[p], i)
}

/// Whether a frame holds in one machine what it holds in another.
pub open spec fn same_frame(m: MachineView, w: MachineView, frame: u64) -> bool {
    forall|x: int| frame <= x < frame + 4096 ==> #[trigger] w.ram[x] == m.ram[x]
}

/// Whether a machine has the frames of another, and its memory is as large and
/// in the same place.
pub open spec fn same_shape(m: MachineView, w: MachineView) -> bool {
    &&& w.hhdm == m.hhdm
    &&& w.ram.len() == m.ram.len()
    &&& forall|t: u64| m.owns(t) ==> #[trigger] w.owns(t)
}

proof fn lemma_entry_same(m: MachineView, w: MachineView, t: u64, i: int)
    requires
        w.hhdm == m.hhdm,
        w.ram.len() == m.ram.len(),
        same_frame(m, w, t),
        0 <= i < 512,
    ensures
        w.entry(t, i) == m.entry(t, i),
{
    reveal(paging::word_at);
    let at = t + i * 8;
    if m.reachable(t, i) {
        assert(w.ram[at] == m.ram[at] && w.ram[at + 1] == m.ram[at + 1] && w.ram[at + 2]
            == m.ram[at + 2] && w.ram[at + 3] == m.ram[at + 3] && w.ram[at + 4] == m.ram[at + 4]
            && w.ram[at + 5] == m.ram[at + 5] && w.ram[at + 6] == m.ram[at + 6] && w.ram[at + 7]
            == m.ram[at + 7]);
    }
}

/// A machine whose tables are as they were holds the tree.
pub proof fn lemma_tree_kept(
    m: MachineView,
    w: MachineView,
    space: AddressSpace,
    tree: Map<Seq<int>, u64>,
)
    requires
        holds_tree(m, space, tree),
        same_shape(m, w),
        forall|p: Seq<int>| #[trigger] tree.dom().contains(p) && p.len() < 4 ==> same_frame(m, w, tree[p]),
    ensures
        holds_tree(w, space, tree),
{
    assert forall|p: Seq<int>| #[trigger] tree.dom().contains(p) && p.len() > 0 implies leads(w, tree, p) by {
        assert(leads(m, tree, p));
        assert(tree.dom().contains(p.drop_last()));
        lemma_entry_same(m, w, tree[p.drop_last()], p.last());
    }
    assert forall|p: Seq<int>, i: int|
        #![trigger tree.dom().contains(p.push(i))]
        tree.dom().contains(p) && p.len() < 4 && is_slot(p.len() as int, i)
            && !tree.dom().contains(p.push(i)) implies is_vacant(w, tree[p], i) by {
        assert(is_vacant(m, tree[p], i));
        lemma_entry_same(m, w, tree[p], i);
    }
}

/// An entry written where the tree has none puts what it leads to there.
proof fn lemma_entry_added(
    m: MachineView,
    w: MachineView,
    space: AddressSpace,
    tree: Map<Seq<int>, u64>,
    p: Seq<int>,
    i: int,
    n: u64,
)
    requires
        holds_tree(m, space, tree),
        same_shape(m, w),
        tree.dom().contains(p),
        p.len() < 4,
        is_slot(p.len() as int, i),
        !tree.dom().contains(p.push(i)),
        w.owns(n),
        forall|q: Seq<int>| #[trigger] tree.dom().contains(q) ==> tree[q] != n,
        w.entry(tree[p], i) matches Some(e) && paging::present(e) && paging::address_of(e) == n && (
        p.len() < 3 ==> !paging::huge(e)),
        forall|q: Seq<int>, j: int|
            #![trigger w.entry(tree[q], j)]
            tree.dom().contains(q) && q.len() < 4 && 0 <= j < 512 && !(q == p && j == i) ==> w.entry(
                tree[q],
                j,
            ) == m.entry(tree[q], j),
        p.len() < 3 ==> forall|j: int| 0 <= j < 512 ==> is_vacant(w, n, j),
    ensures
        holds_tree(w, space, tree.insert(p.push(i), n)),
{
    let grown = tree.insert(p.push(i), n);
    assert(p.push(i).drop_last() =~= p);
    assert(p.push(i).last() == i);
    assert(Seq::<int>::empty() != p.push(i)) by {
        assert(p.push(i).len() > 0);
    }
    assert(p != p.push(i)) by {
        assert(p.push(i).len() == p.len() + 1);
    }
    assert forall|q: Seq<int>| #[trigger] grown.dom().contains(q) && q.len() > 0 implies leads(
        w,
        grown,
        q,
    ) by {
        if q != p.push(i) {
            assert(tree.dom().contains(q));
            assert(leads(m, tree, q));
            let up = q.drop_last();
            assert(tree.dom().contains(up));
            assert(up.push(q.last()) =~= q);
            assert(!(up == p && q.last() == i));
            assert(up != p.push(i));
            assert(w.entry(tree[up], q.last()) == m.entry(tree[up], q.last()));
        }
    }
    assert forall|q: Seq<int>, j: int|
        #![trigger grown.dom().contains(q.push(j))]
        grown.dom().contains(q) && q.len() < 4 && is_slot(q.len() as int, j)
            && !grown.dom().contains(q.push(j)) implies is_vacant(w, grown[q], j) by {
        if q != p.push(i) {
            assert(tree.dom().contains(q));
            assert(!tree.dom().contains(q.push(j)));
            assert(is_vacant(m, tree[q], j));
            assert(!(q == p && j == i));
            assert(w.entry(tree[q], j) == m.entry(tree[q], j));
        }
    }
}

/// What a step that makes sure of a table does to the bytes of other frames.
proof fn lemma_step_bytes(m: MachineView, table: u64, index: int, user: bool, f: u64)
    requires
        m.sound(),
        0 <= index < 512,
        m.owns(table),
        m.owns(f),
        f != table,
        m.step(table, index, true, user).1 matches Ok(Some(_)),
    ensures
        same_frame(m, m.step(table, index, true, user).0, f),
        m.step(table, index, true, user).0.ram.len() == m.ram.len(),
{
    let e = m.entry(table, index)->0;
    if !paging::present(e) {
        paging::lemma_next_frame(m.frames);
        let p = m.frames.candidate(0)->0;
        let n = (p * 4096) as u64;
        assert(n == p * 4096 && n / 4096 == p);
        assert(!m.owns(n));
    }
}

/// The tree after a step that makes sure of a table.
proof fn lemma_grown(
    m: MachineView,
    space: AddressSpace,
    tree: Map<Seq<int>, u64>,
    extra: u64,
    p: Seq<int>,
    i: int,
    user: bool,
) -> (grown: Map<Seq<int>, u64>)
    requires
        m.sound(),
        holds_tree(m, space, tree),
        m.owns(extra),
        forall|q: Seq<int>| #[trigger] tree.dom().contains(q) ==> tree[q] != extra,
        tree.dom().contains(p),
        p.len() < 3,
        is_slot(p.len() as int, i),
        m.step(tree[p], i, true, user).1 matches Ok(Some(_)),
    ensures
        ({
            let w = m.step(tree[p], i, true, user).0;
            let n = m.step(tree[p], i, true, user).1->Ok_0->0;
            &&& w.sound()
            &&& same_shape(m, w)
            &&& holds_tree(w, space, grown)
            &&& grown.dom().contains(p.push(i))
            &&& grown[p.push(i)] == n
            &&& forall|q: Seq<int>| #[trigger] tree.dom().contains(q) ==> grown.dom().contains(q) && grown[q]
                == tree[q]
            &&& forall|q: Seq<int>| #[trigger] grown.dom().contains(q) && q.len() == 4 ==> tree.dom().contains(q)
            &&& forall|q: Seq<int>| #[trigger] grown.dom().contains(q) ==> grown[q] != extra
            &&& forall|f: u64| m.owns(f) && f != tree[p] ==> #[trigger] same_frame(m, w, f)
        }),
{
    let table = tree[p];
    let (w, r) = m.step(table, i, true, user);
    let n = r->Ok_0->0;
    let used = Set::new(|t: u64| t == extra || exists|q: Seq<int>| tree.dom().contains(q) && tree[q] == t);
    assert(used.contains(table));
    assert forall|t: u64| used.contains(t) implies #[trigger] m.owns(t) by {
        if t != extra {
            let q = choose|q: Seq<int>| tree.dom().contains(q) && tree[q] == t;
            assert(tree.dom().contains(q));
        }
    }
    paging::lemma_step(m, table, i, user, used);
    assert forall|f: u64| m.owns(f) && f != table implies #[trigger] same_frame(m, w, f) by {
        lemma_step_bytes(m, table, i, user, f);
    }
    lemma_step_bytes(m, table, i, user, extra);
    let e = m.entry(table, i)->0;
    if paging::present(e) {
        if !tree.dom().contains(p.push(i)) {
            assert(is_vacant(m, tree[p], i));
        }
        assert(leads(m, tree, p.push(i)));
        assert(p.push(i).drop_last() =~= p);
        tree
    } else {
        if tree.dom().contains(p.push(i)) {
            assert(leads(m, tree, p.push(i)));
            assert(p.push(i).drop_last() =~= p);
        }
        assert forall|q: Seq<int>| #[trigger] tree.dom().contains(q) implies tree[q] != n by {
            assert(used.contains(tree[q]));
        }
        assert forall|q: Seq<int>, j: int|
            #![trigger w.entry(tree[q], j)]
            tree.dom().contains(q) && q.len() < 4 && 0 <= j < 512 && !(q == p && j == i) implies w.entry(
            tree[q],
            j,
        ) == m.entry(tree[q], j) by {
            assert(used.contains(tree[q]));
            if tree[q] == table {
                assert(q == p);
            }
        }
        assert forall|j: int| 0 <= j < 512 implies is_vacant(w, n, j) by {
            assert(w.entry(n, j) == Some(0u64) || !w.reachable(n, j));
        }
        lemma_entry_added(m, w, space, tree, p, i, n);
        assert(used.contains(extra));
        tree.insert(p.push(i), n)
    }
}

/// The tree after the tables of an address were made.
#[verifier::rlimit(60)]
proof fn lemma_walked(
    m: MachineView,
    space: AddressSpace,
    tree: Map<Seq<int>, u64>,
    page: u64,
    phys: u64,
    user: bool,
) -> (grown: Map<Seq<int>, u64>)
    requires
        m.sound(),
        holds_tree(m, space, tree),
        m.owns(phys),
        forall|q: Seq<int>| #[trigger] tree.dom().contains(q) ==> tree[q] != phys,
        page < 0x8000_0000_0000,
        m.walk(space, page, true, user).1 matches Ok(Some(_)),
    ensures
        ({
            let w = m.walk(space, page, true, user).0;
            let p3 = path_of(page).drop_last();
            &&& w.sound()
            &&& same_shape(m, w)
            &&& holds_tree(w, space, grown)
            &&& grown.dom().contains(p3)
            &&& grown[p3] == m.walk(space, page, true, user).1->Ok_0->0
            &&& forall|q: Seq<int>| #[trigger] tree.dom().contains(q) ==> grown.dom().contains(q) && grown[q]
                == tree[q]
            &&& forall|q: Seq<int>| #[trigger] grown.dom().contains(q) && q.len() == 4 ==> tree.dom().contains(q)
            &&& forall|q: Seq<int>| #[trigger] grown.dom().contains(q) ==> grown[q] != phys
            &&& forall|q: Seq<int>| #[trigger] tree.dom().contains(q) && q.len() == 4 ==> same_frame(
                m,
                w,
                tree[q],
            )
            &&& same_frame(m, w, phys)
        }),
{
    let (i4, i3, i2) = (
        paging::index_pml4(page),
        paging::index_pdpt(page),
        paging::index_pd(page),
    );
    let p0 = Seq::<int>::empty();
    let p1 = p0.push(i4);
    let p2 = p1.push(i3);
    let p3 = p2.push(i2);
    assert(p3 =~= path_of(page).drop_last());
    assert(i4 < 256) by {
        assert(page / 0x80_0000_0000 < 256);
    }
    let m1 = m.step(space.pml4_phys, i4, true, user).0;
    let g1 = lemma_grown(m, space, tree, phys, p0, i4, user);
    let m2 = m1.step(g1[p1], i3, true, user).0;
    let g2 = lemma_grown(m1, space, g1, phys, p1, i3, user);
    let m3 = m2.step(g2[p2], i2, true, user).0;
    let g3 = lemma_grown(m2, space, g2, phys, p2, i2, user);
    assert(m.walk(space, page, true, user).0 == m3);
    assert(p0.len() == 0 && p1.len() == 1 && p2.len() == 2);
    assert forall|q: Seq<int>| #[trigger] tree.dom().contains(q) && q.len() == 4 implies same_frame(
        m,
        m3,
        tree[q],
    ) by {
        assert(g1.dom().contains(q) && g2.dom().contains(q));
        let f = tree[q];
        assert(m.owns(f) && m1.owns(f) && m2.owns(f));
        assert(tree.dom().contains(p0) && f != tree[p0]);
        assert(g1.dom().contains(p1) && f != g1[p1]);
        assert(g2.dom().contains(p2) && f != g2[p2]);
        lemma_same_thrice(m, m1, m2, m3, f);
    }
    assert(m1.owns(phys) && m2.owns(phys));
    assert(tree.dom().contains(p0) && g1.dom().contains(p1) && g2.dom().contains(p2));
    lemma_same_thrice(m, m1, m2, m3, phys);
    g3
}

proof fn lemma_same_thrice(a: MachineView, b: MachineView, c: MachineView, d: MachineView, f: u64)
    requires
        same_frame(a, b, f),
        same_frame(b, c, f),
        same_frame(c, d, f),
    ensures
        same_frame(a, d, f),
{
    assert forall|x: int| f <= x < f + 4096 implies #[trigger] d.ram[x] == a.ram[x] by {
        assert(b.ram[x] == a.ram[x] && c.ram[x] == b.ram[x]);
    }
}

/// The tree after the last entry of a page was written.
proof fn lemma_page_added(
    m3: MachineView,
    space: AddressSpace,
    g3: Map<Seq<int>, u64>,
    p3: Seq<int>,
    i1: int,
    phys: u64,
    value: u64,
)
    requires
        m3.sound(),
        holds_tree(m3, space, g3),
        g3.dom().contains(p3),
        p3.len() == 3,
        0 <= i1 < 512,
        m3.owns(phys),
        forall|q: Seq<int>| #[trigger] g3.dom().contains(q) ==> g3[q] != phys,
        m3.entry(g3[p3], i1) matches Some(e) && !paging::present(e),
        paging::present(value),
        paging::address_of(value) == phys,
    ensures
        ({
            let w = m3.with_entry(g3[p3], i1, value);
            &&& same_shape(m3, w)
            &&& w.frames == m3.frames
            &&& !g3.dom().contains(p3.push(i1))
            &&& holds_tree(w, space, g3.insert(p3.push(i1), phys))
            &&& forall|f: u64| m3.owns(f) && f != g3[p3] ==> #[trigger] same_frame(m3, w, f)
        }),
{
    let t1 = g3[p3];
    let p4 = p3.push(i1);
    let w = m3.with_entry(t1, i1, value);
    assert(m3.owns(t1));
    if g3.dom().contains(p4) {
        assert(leads(m3, g3, p4));
        assert(p4.drop_last() =~= p3);
    }
    assert forall|q: Seq<int>, j: int|
        #![trigger w.entry(g3[q], j)]
        g3.dom().contains(q) && q.len() < 4 && 0 <= j < 512 && !(q == p3 && j == i1) implies w.entry(
        g3[q],
        j,
    ) == m3.entry(g3[q], j) by {
        assert(m3.owns(g3[q]));
        paging::lemma_entry_write(m3, t1, i1, value, g3[q], j);
        if g3[q] == t1 {
            assert(q == p3);
        }
    }
    paging::lemma_entry_write(m3, t1, i1, value, t1, i1);
    assert(w.ram.len() == m3.ram.len());
    assert forall|t: u64| m3.owns(t) implies #[trigger] w.owns(t) by {}
    lemma_entry_added(m3, w, space, g3, p3, i1, phys);
    assert forall|f: u64| m3.owns(f) && f != t1 implies #[trigger] same_frame(m3, w, f) by {
        assert(f + 4096 <= t1 || t1 + 4096 <= f);
        assert(f + 4096 <= m3.ram.len());
        assert forall|x: int| f <= x < f + 4096 implies #[trigger] w.ram[x] == m3.ram[x] by {}
    }
}

proof fn lemma_mapped_parts(m: MachineView, space: AddressSpace, page: u64, phys: u64, flags: u64)
    requires
        m.mapped(space, page, phys, flags).1 is Ok,
    ensures
        ({
            let (m3, r) = m.walk(space, page, true, paging::for_user(flags));
            &&& r matches Ok(Some(t1))
            &&& m3.entry(t1, paging::index_pt(page)) matches Some(e) && !paging::present(e)
            &&& m.mapped(space, page, phys, flags).0 == m3.with_entry(
                t1,
                paging::index_pt(page),
                paging::address_of(phys) | flags | 1u64,
            )
            &&& phys % 4096 == 0
        }),
{
}

/// The tree after a page was mapped to a frame that was in none of its places:
/// the tree has the page, and no other page is new or changed.
#[verifier::rlimit(60)]
pub proof fn lemma_mapped(
    m: MachineView,
    space: AddressSpace,
    tree: Map<Seq<int>, u64>,
    page: u64,
    phys: u64,
    flags: u64,
) -> (grown: Map<Seq<int>, u64>)
    requires
        m.sound(),
        holds_tree(m, space, tree),
        m.owns(phys),
        forall|q: Seq<int>| #[trigger] tree.dom().contains(q) ==> tree[q] != phys,
        page < 0x8000_0000_0000,
        phys < 0x10_0000_0000_0000,
        flags % 0x10_0000_0000_0000 < 4096,
        m.mapped(space, page, phys, flags).1 is Ok,
    ensures
        ({
            let w = m.mapped(space, page, phys, flags).0;
            &&& w.sound()
            &&& same_shape(m, w)
            &&& holds_tree(w, space, grown)
            &&& !tree.dom().contains(path_of(page))
            &&& grown.dom().contains(path_of(page))
            &&& grown[path_of(page)] == phys
            &&& forall|q: Seq<int>| #[trigger] tree.dom().contains(q) ==> grown.dom().contains(q) && grown[q]
                == tree[q]
            &&& forall|q: Seq<int>| #[trigger] grown.dom().contains(q) && q.len() == 4 && q != path_of(page)
                ==> tree.dom().contains(q)
            &&& forall|q: Seq<int>| #[trigger] tree.dom().contains(q) && q.len() == 4 ==> same_frame(
                m,
                w,
                tree[q],
            )
            &&& same_frame(m, w, phys)
        }),
{
    let user = paging::for_user(flags);
    let i1 = paging::index_pt(page);
    let p3 = path_of(page).drop_last();
    let p4 = p3.push(i1);
    assert(p4 =~= path_of(page));
    lemma_mapped_parts(m, space, page, phys, flags);
    let g3 = lemma_walked(m, space, tree, page, phys, user);
    let m3 = m.walk(space, page, true, user).0;
    let t1 = g3[p3];
    let value = paging::address_of(phys) | flags | 1u64;
    paging::lemma_leaf(phys, flags);
    let w = m3.with_entry(t1, i1, value);
    assert(g3.dom().contains(p3));
    assert(m3.owns(phys));
    lemma_page_added(m3, space, g3, p3, i1, phys, value);
    assert forall|q: Seq<int>| #[trigger] tree.dom().contains(q) && q.len() == 4 implies same_frame(
        m,
        w,
        tree[q],
    ) by {
        assert(g3.dom().contains(q));
        assert(q != p3);
        assert(m3.owns(tree[q]));
        assert(same_frame(m, m3, tree[q]) && same_frame(m3, w, tree[q]));
        lemma_same_thrice(m, m, m3, w, tree[q]);
    }
    assert(same_frame(m3, w, phys));
    lemma_same_thrice(m, m, m3, w, phys);
    g3.insert(p4, phys)
}

/// An address whose page the tree has stands for a place in that page.
pub proof fn lemma_translated(
    m: MachineView,
    space: AddressSpace,
    tree: Map<Seq<int>, u64>,
    address: u64,
)
    requires
        holds_tree(m, space, tree),
        address < 0x8000_0000_0000,
    ensures
        tree.dom().contains(path_of(address)) ==> m.translated(space, address) == Some(
            Translation {
                physical_address: (tree[path_of(address)] + address % 4096) as u64,
                page_size: 4096,
            },
        ),
        !tree.dom().contains(path_of(address)) ==> m.translated(space, address) is None,
{
    let p0 = Seq::<int>::empty();
    let p1 = p0.push(paging::index_pml4(address));
    let p2 = p1.push(paging::index_pdpt(address));
    let p3 = p2.push(paging::index_pd(address));
    let p4 = p3.push(paging::index_pt(address));
    assert(p4 =~= path_of(address));
    assert(p4.drop_last() =~= p3 && p3.drop_last() =~= p2 && p2.drop_last() =~= p1 && p1.drop_last()
        =~= p0);
    assert(paging::index_pml4(address) < 256) by {
        assert(address / 0x80_0000_0000 < 256);
    }
    if tree.dom().contains(p4) {
        assert(leads(m, tree, p4));
        assert(leads(m, tree, p3));
        assert(leads(m, tree, p2));
        assert(leads(m, tree, p1));
    } else if !tree.dom().contains(p1) {
        assert(is_vacant(m, tree[p0], paging::index_pml4(address)));
    } else if !tree.dom().contains(p2) {
        assert(leads(m, tree, p1));
        assert(is_vacant(m, tree[p1], paging::index_pdpt(address)));
    } else if !tree.dom().contains(p3) {
        assert(leads(m, tree, p1) && leads(m, tree, p2));
        assert(is_vacant(m, tree[p2], paging::index_pd(address)));
    } else {
        assert(leads(m, tree, p1) && leads(m, tree, p2) && leads(m, tree, p3));
        assert(is_vacant(m, tree[p3], paging::index_pt(address)));
    }
}

/// Addresses of programs go the same way exactly if they are in one page.
pub proof fn lemma_paths(a: u64, b: u64)
    requires
        a < 0x8000_0000_0000,
        b < 0x8000_0000_0000,
    ensures
        path_of(a) == path_of(b) <==> a / 4096 == b / 4096,
{
    let (x, y) = (a / 4096, b / 4096);
    assert(a / 0x20_0000 == x / 512 && a / 0x4000_0000 == x / 0x4_0000 && a / 0x80_0000_0000 == x
        / 0x800_0000);
    assert(b / 0x20_0000 == y / 512 && b / 0x4000_0000 == y / 0x4_0000 && b / 0x80_0000_0000 == y
        / 0x800_0000);
    if path_of(a) == path_of(b) {
        assert(path_of(a)[0] == path_of(b)[0] && path_of(a)[1] == path_of(b)[1] && path_of(a)[2]
            == path_of(b)[2] && path_of(a)[3] == path_of(b)[3]);
        assert(x / 0x800_0000 < 512 && y / 0x800_0000 < 512);
        assert(x / 0x800_0000 == y / 0x800_0000);
        assert(x / 0x4_0000 / 512 == x / 0x800_0000 && y / 0x4_0000 / 512 == y / 0x800_0000);
        assert(x / 0x4_0000 == y / 0x4_0000);
        assert(x / 512 / 512 == x / 0x4_0000 && y / 512 / 512 == y / 0x4_0000);
        assert(x / 512 == y / 512);
    }
}

proof fn lemma_copied_above(m: MachineView, from: u64, to: u64, i: int)
    requires
        256 <= i,
        to % 4096 == 0,
        m.copied_from(from, to, i).1 is Ok,
    ensures
        ({
            let w = m.copied_from(from, to, i).0;
            &&& w.hhdm == m.hhdm
            &&& w.frames == m.frames
            &&& w.ram.len() == m.ram.len()
            &&& forall|j: int| 0 <= j < 256 ==> #[trigger] w.entry(to, j) == m.entry(to, j)
        }),
    decreases 512 - i,
{
    if i < 512 {
        let e = m.entry(from, i)->0;
        let next = m.with_entry(to, i, e);
        assert forall|j: int| 0 <= j < 256 implies #[trigger] next.entry(to, j) == m.entry(to, j) by {
            paging::lemma_entry_write(m, to, i, e, to, j);
        }
        lemma_copied_above(next, from, to, i + 1);
    }
}

/// A frame that is taken was no table or page, and taking and clearing it
/// changes none.
pub proof fn lemma_frame_taken(m: MachineView)
    requires
        m.sound(),
        m.frame_taken() is Some,
    ensures
        ({
            let (m1, phys) = m.frame_taken()->0;
            let w = m1.page_zeroed(phys);
            &&& w.sound()
            &&& same_shape(m, w)
            &&& !m.owns(phys)
            &&& w.owns(phys)
            &&& phys < 0x10_0000_0000
            &&& forall|f: u64| m.owns(f) ==> #[trigger] same_frame(m, w, f)
            &&& forall|x: int| phys <= x < phys + 4096 ==> #[trigger] w.ram[x] == 0
        }),
{
    paging::lemma_next_frame(m.frames);
    let p = m.frames.candidate(0)->0;
    let n = (p * 4096) as u64;
    let (m1, phys) = m.frame_taken()->0;
    let w = m1.page_zeroed(phys);
    assert(n == p * 4096 && n % 4096 == 0 && n / 4096 == p);
    assert forall|t: u64| m.owns(t) implies #[trigger] w.owns(t) by {
        let q = (t / 4096) as int;
        assert(m.frames.frames[q].allocated);
    }
    assert forall|f: u64| m.owns(f) implies #[trigger] same_frame(m, w, f) by {
        assert(f != n);
        assert(f + 4096 <= n || n + 4096 <= f);
        assert(f + 4096 <= m.ram.len());
        assert forall|x: int| f <= x < f + 4096 implies #[trigger] w.ram[x] == m.ram[x] by {}
    }
    assert(n + 4096 <= m.ram.len());
    assert forall|x: int| phys <= x < phys + 4096 implies #[trigger] w.ram[x] == 0 by {}
}

/// A new space has one table, and nothing for programs in it.
pub proof fn lemma_space_created(m: MachineView)
    requires
        m.sound(),
        m.space_created().1 is Ok,
    ensures
        ({
            let (w, r) = m.space_created();
            let space = r->Ok_0;
            &&& w.sound()
            &&& w.hhdm == m.hhdm
            &&& w.ram.len() == m.ram.len()
            &&& holds_tree(w, space, Map::empty().insert(Seq::empty(), space.pml4_phys))
        }),
{
    lemma_frame_taken(m);
    let (m1, phys) = m.frame_taken()->0;
    let clear = m1.page_zeroed(phys);
    let space = m.space_created().1->Ok_0;
    let w = m.space_created().0;
    lemma_copied_above(clear, paging::address_of(m.cr3), phys, 256);
    let tree = Map::<Seq<int>, u64>::empty().insert(Seq::empty(), phys);
    assert(w.owns(phys));
    assert forall|p: Seq<int>, i: int|
        #![trigger tree.dom().contains(p.push(i))]
        tree.dom().contains(p) && p.len() < 4 && is_slot(p.len() as int, i)
            && !tree.dom().contains(p.push(i)) implies is_vacant(w, tree[p], i) by {
        assert(w.entry(phys, i) == clear.entry(phys, i));
        reveal(paging::word_at);
        if clear.reachable(phys, i) {
            let at = phys + i * 8;
            assert(clear.ram[at] == 0 && clear.ram[at + 1] == 0 && clear.ram[at + 2] == 0
                && clear.ram[at + 3] == 0 && clear.ram[at + 4] == 0 && clear.ram[at + 5] == 0
                && clear.ram[at + 6] == 0 && clear.ram[at + 7] == 0);
            assert(clear.entry(phys, i) == Some(0u64));
        }
    }
    assert(tree.dom() =~= set![Seq::<int>::empty()]);
}

} // verus!
