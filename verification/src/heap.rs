//! The kernel heap: caches of objects of one size, and whole frames for what
//! is larger.
use vstd::prelude::*;

pub mod laws;

use crate::bytes::{self, get_le64, push_le64, put_vec};
use crate::memory::{self, PAGE_SIZE, PhysFrame};
use crate::paging::{self, Machine, MachineView, MapError};

verus! {

pub const HEAP_BASE: u64 = 0xffff_ff00_0000_0000;

pub const HEAP_SIZE: usize = 33_554_432;

#[derive(Clone, Copy, Debug, PartialEq, Eq, Structural)]
pub struct HeapStats {
    pub base: u64,
    pub size: usize,
    pub used: usize,
    pub free: usize,
}

#[derive(Clone, Copy, Debug, PartialEq, Eq, Structural)]
pub enum HeapInitError {
    AlreadyInitialized,
    OutOfMemory,
    Mapping(MapError),
}

// ---------------------------------------------------------------------------
// Words behind addresses
// ---------------------------------------------------------------------------
/// The place in memory of a word at an address of the direct map.
pub open spec fn word_place(m: MachineView, address: u64) -> Option<int> {
    match m.hhdm {
        Some(base) => if address >= base && address - base + 8 <= m.ram.len() {
            Some(address - base)
        } else {
            None
        },
        None => None,
    }
}

fn find_word(machine: &Machine, address: u64) -> (r: Option<usize>)
    ensures
        match r {
            Some(p) => word_place(machine@, address) == Some(p as int) && p + 8
                <= machine.ram.len(),
            None => word_place(machine@, address) is None,
        },
{
    match paging::virt_to_phys(machine, address) {
        None => None,
        Some(phys) => {
            let length: u64 = machine.ram.len() as u64;
            if length < 8 || phys > length - 8 {
                None
            } else {
                Some(phys as usize)
            }
        },
    }
}

// ---------------------------------------------------------------------------
// Caches
// ---------------------------------------------------------------------------
/// A cache of objects of one size: a page that is being carved, and a list of
/// objects that were freed, each of which holds the address of the next.
#[derive(Clone, Copy, Debug, PartialEq, Eq, Structural)]
pub struct KMemCache {
    pub object_size: u64,
    pub alignment: u64,
    pub current_page: Option<u64>,
    pub next_offset: u64,
    pub freelist: Option<u64>,
    pub alloc_count: u64,
    pub reuse_count: u64,
    pub free_count: u64,
}

pub open spec fn larger(a: u64, b: u64) -> u64 {
    if a >= b {
        a
    } else {
        b
    }
}

/// The room that an object takes: at least a word, and a multiple of its
/// alignment.
pub open spec fn room(object_size: u64, alignment: u64) -> int {
    let align = larger(alignment, 8) as int;
    (larger(object_size, 8) + align - 1) / align * align
}

pub open spec fn one_more(n: u64) -> u64 {
    if n == u64::MAX {
        0
    } else {
        (n + 1) as u64
    }
}

/// An object taken from a cache: the last one that was freed, the next one of
/// the page that is being carved, or the first of a new page.
pub open spec fn taken(c: KMemCache, m: MachineView) -> (KMemCache, MachineView, Option<u64>) {
    let size = room(c.object_size, c.alignment);
    match c.freelist {
        Some(object) => match word_place(m, object) {
            None => (c, m, None),
            Some(p) => {
                let next = bytes::le64_at(m.ram, p) as u64;
                (
                    KMemCache {
                        freelist: if next != 0 {
                            Some(next)
                        } else {
                            None
                        },
                        alloc_count: one_more(c.alloc_count),
                        reuse_count: one_more(c.reuse_count),
                        ..c
                    },
                    m,
                    Some(object),
                )
            },
        },
        None => if c.current_page is Some && c.next_offset + size <= 4096 && c.current_page->0
            + c.next_offset <= u64::MAX {
            (
                KMemCache {
                    next_offset: (c.next_offset + size) as u64,
                    alloc_count: one_more(c.alloc_count),
                    ..c
                },
                m,
                Some((c.current_page->0 + c.next_offset) as u64),
            )
        } else {
            match m.frame_taken() {
                None => (c, m, None),
                Some((m1, phys)) => match m1.virt(phys) {
                    None => (c, m1, None),
                    Some(page) => (
                        KMemCache {
                            current_page: Some(page),
                            next_offset: size as u64,
                            alloc_count: one_more(c.alloc_count),
                            ..c
                        },
                        m1,
                        Some(page),
                    ),
                },
            }
        },
    }
}

/// An object given back to a cache.
pub open spec fn given_back(c: KMemCache, m: MachineView, object: u64) -> (KMemCache, MachineView) {
    match (object, word_place(m, object)) {
        (0, _) => (c, m),
        (_, None) => (c, m),
        (_, Some(p)) => {
            let next = match c.freelist {
                Some(next) => next,
                None => 0,
            };
            (
                KMemCache {
                    freelist: Some(object),
                    free_count: one_more(c.free_count),
                    ..c
                },
                MachineView { ram: bytes::splice(m.ram, p, bytes::le64_bytes(next)), ..m },
            )
        },
    }
}

impl KMemCache {
    /// Whether objects fit a page.
    pub open spec fn wf(self) -> bool {
        self.object_size <= 4096 && self.alignment <= 4096
    }

    pub fn new(object_size: u64, alignment: u64) -> (r: Self)
        ensures
            r == (KMemCache {
                object_size,
                alignment,
                current_page: None,
                next_offset: 0,
                freelist: None,
                alloc_count: 0,
                reuse_count: 0,
                free_count: 0,
            }),
    {
        KMemCache {
            object_size,
            alignment,
            current_page: None,
            next_offset: 0,
            freelist: None,
            alloc_count: 0,
            reuse_count: 0,
            free_count: 0,
        }
    }

    pub fn allocate(&mut self, machine: &mut Machine) -> (r: Option<u64>)
        requires
            old(self).wf(),
            old(machine).wf(),
        ensures
            final(self).wf(),
            final(machine).wf(),
            final(machine).same_place(old(machine)),
            (*final(self), final(machine)@, r) == taken(*old(self), old(machine)@),
    {
        if let Some(object) = self.freelist {
            return match find_word(machine, object) {
                None => None,
                Some(p) => {
                    let next: u64 = get_le64(machine.ram.as_slice(), p);
                    self.freelist = if next != 0 {
                        Some(next)
                    } else {
                        None
                    };
                    self.alloc_count = self.alloc_count.wrapping_add(1);
                    self.reuse_count = self.reuse_count.wrapping_add(1);
                    Some(object)
                },
            };
        }
        let align: u64 = if self.alignment >= 8 {
            self.alignment
        } else {
            8
        };
        let raw: u64 = if self.object_size >= 8 {
            self.object_size
        } else {
            8
        };
        proof {
            assert((raw + align - 1) / (align as int) * align <= raw + align - 1)
                by (nonlinear_arith)
                requires
                    raw >= 0,
                    align > 0,
            ;
            assert((raw + align - 1) / (align as int) >= 0) by (nonlinear_arith)
                requires
                    raw >= 0,
                    align > 0,
            ;
        }
        let size: u64 = (raw + align - 1) / align * align;
        if let Some(page) = self.current_page {
            if size <= 4096 && self.next_offset <= 4096 - size && self.next_offset <= u64::MAX
                - page {
                let object: u64 = page + self.next_offset;
                self.next_offset = self.next_offset + size;
                self.alloc_count = self.alloc_count.wrapping_add(1);
                return Some(object);
            }
        }
        match paging::take_frame(machine) {
            None => None,
            Some(phys) => match paging::phys_to_virt(machine, phys) {
                None => None,
                Some(page) => {
                    self.current_page = Some(page);
                    self.next_offset = size;
                    self.alloc_count = self.alloc_count.wrapping_add(1);
                    Some(page)
                },
            },
        }
    }

    pub fn free(&mut self, machine: &mut Machine, object: u64)
        requires
            old(self).wf(),
            old(machine).wf(),
        ensures
            final(self).wf(),
            final(machine).wf(),
            final(machine).same_place(old(machine)),
            (*final(self), final(machine)@) == given_back(*old(self), old(machine)@, object),
    {
        if object == 0 {
            return;
        }
        let next: u64 = match self.freelist {
            Some(next) => next,
            None => 0,
        };
        match find_word(machine, object) {
            None => {},
            Some(p) => {
                let mut word: Vec<u8> = Vec::new();
                push_le64(&mut word, next);
                assert(word@ =~= bytes::le64_bytes(next));
                put_vec(&mut machine.ram, p, word.as_slice());
                self.freelist = Some(object);
                self.free_count = self.free_count.wrapping_add(1);
            },
        }
    }

    /// How many objects were taken, how many of them had been used before, and
    /// how many were given back.
    pub fn stats(&self) -> (r: (u64, u64, u64))
        ensures
            r == (self.alloc_count, self.reuse_count, self.free_count),
    {
        (self.alloc_count, self.reuse_count, self.free_count)
    }
}

/// The object that was given back last is the next one that is taken, and the
/// list is then as it was.
pub proof fn law_freed_object_reused(c: KMemCache, m: MachineView, object: u64)
    requires
        object != 0,
        word_place(m, object) is Some,
        c.freelist != Some(0u64),
    ensures
        ({
            let (c1, m1) = given_back(c, m, object);
            let (c2, m2, again) = taken(c1, m1);
            &&& again == Some(object)
            &&& c2.freelist == c.freelist
            &&& m2 == m1
        }),
{
    let p = word_place(m, object)->0;
    let next = match c.freelist {
        Some(next) => next,
        None => 0,
    };
    let ram = bytes::splice(m.ram, p, bytes::le64_bytes(next));
    let a = m.ram.take(p);
    let b = m.ram.skip(p + 8);
    assert(ram =~= a + bytes::le64_bytes(next) + b);
    crate::bytes::le_round_trip(a, b, 0, 0, next);
}

// ---------------------------------------------------------------------------
// The heap
// ---------------------------------------------------------------------------
/// The caches of the heap, from 32 to 2048 bytes, and how much was handed out
/// and came back.
#[derive(Debug)]
pub struct KernelHeap {
    pub initialized: bool,
    pub caches: [KMemCache; 7],
    pub total_allocated: u64,
    pub total_freed: u64,
}

#[verifier::ext_equal]
pub struct HeapView {
    pub initialized: bool,
    pub caches: Seq<KMemCache>,
    pub total_allocated: u64,
    pub total_freed: u64,
}

impl View for KernelHeap {
    type V = HeapView;

    open spec fn view(&self) -> HeapView {
        HeapView {
            initialized: self.initialized,
            caches: self.caches@,
            total_allocated: self.total_allocated,
            total_freed: self.total_freed,
        }
    }
}

/// The size of a class of objects.
pub open spec fn class_size(class: int) -> u64 {
    if class == 0 {
        32
    } else if class == 1 {
        64
    } else if class == 2 {
        128
    } else if class == 3 {
        256
    } else if class == 4 {
        512
    } else if class == 5 {
        1024
    } else {
        2048
    }
}

/// The class whose objects are large enough; 7 if none are.
pub open spec fn class_of(size: u64) -> int {
    if size <= 32 {
        0
    } else if size <= 64 {
        1
    } else if size <= 128 {
        2
    } else if size <= 256 {
        3
    } else if size <= 512 {
        4
    } else if size <= 1024 {
        5
    } else if size <= 2048 {
        6
    } else {
        7
    }
}

fn find_class(size: u64) -> (r: usize)
    ensures
        r == class_of(size),
        r <= 7,
{
    if size <= 32 {
        0
    } else if size <= 64 {
        1
    } else if size <= 128 {
        2
    } else if size <= 256 {
        3
    } else if size <= 512 {
        4
    } else if size <= 1024 {
        5
    } else if size <= 2048 {
        6
    } else {
        7
    }
}

fn size_of_class(class: usize) -> (r: u64)
    requires
        class < 7,
    ensures
        r == class_size(class as int),
{
    match class {
        0 => 32,
        1 => 64,
        2 => 128,
        3 => 256,
        4 => 512,
        5 => 1024,
        _ => 2048,
    }
}

/// The smallest block of frames, as a power of two, that holds `pages`.
pub open spec fn order_from(pages: int, order: int) -> int
    decreases 64 - order,
{
    if order >= 53 || memory::span(order) >= pages {
        order
    } else {
        order_from(pages, order + 1)
    }
}

/// The order of the block for a size.
pub open spec fn order_of(size: u64) -> int {
    order_from((size + 4095) / 4096, 0)
}

/// Its order and its size in bytes.
fn find_order(size: u64) -> (r: (usize, u128))
    ensures
        r.0 == order_of(size),
        r.0 <= 53,
        r.1 == memory::span(order_of(size)) * 4096,
{
    let pages: u128 = (size as u128 + 4095) / 4096;
    let mut order: usize = 0;
    let mut span: u128 = 1;
    assert(memory::span(0) == 1);
    while order < 53 && span < pages
        invariant
            order <= 53,
            pages == (size + 4095) / 4096,
            pages <= 0x10_0000_0000_0000,
            span == memory::span(order as int),
            order > 0 ==> span <= 2 * pages,
            order == 0 ==> span == 1,
            order_of(size) == order_from(pages as int, order as int),
        decreases 53 - order,
    {
        assert(memory::span(order + 1) == 2 * memory::span(order as int));
        span = span * 2;
        order += 1;
    }
    (order, span * 4096)
}

/// What is counted of a block.
pub open spec fn counted(total: u64, size: int) -> u64 {
    ((total + size) % 0x1_0000_0000_0000_0000) as u64
}

fn count(total: u64, size: u128) -> (r: u64)
    requires
        size <= 0x1_0000_0000_0000_0000_0000,
    ensures
        r == counted(total, size as int),
{
    ((total as u128 + size) % 0x1_0000_0000_0000_0000) as u64
}

/// Memory of a size and alignment, as an address; zero if there is none.
/// Nothing at all is at an address that is only aligned.
pub open spec fn heap_taken(h: HeapView, m: MachineView, size: u64, align: u64) -> (
    HeapView,
    MachineView,
    u64,
) {
    let needed = larger(size, align);
    let class = class_of(needed);
    if size == 0 {
        (h, m, align)
    } else if !h.initialized {
        (h, m, 0)
    } else if class < 7 {
        match taken(h.caches[class], m) {
            (c, m1, None) => (HeapView { caches: h.caches.update(class, c), ..h }, m1, 0),
            (c, m1, Some(address)) => (
                HeapView {
                    caches: h.caches.update(class, c),
                    total_allocated: if address != 0 {
                        counted(h.total_allocated, class_size(class) as int)
                    } else {
                        h.total_allocated
                    },
                    ..h
                },
                m1,
                address,
            ),
        }
    } else {
        let order = order_of(needed);
        match m.frames.candidate(order) {
            None => (h, m, 0),
            Some(p) => {
                let m1 = MachineView { frames: m.frames.handed_out(order), ..m };
                match m1.virt((p * 4096) as u64) {
                    None => (h, m1, 0),
                    Some(address) => (
                        HeapView {
                            total_allocated: if address != 0 {
                                counted(h.total_allocated, memory::span(order) * 4096)
                            } else {
                                h.total_allocated
                            },
                            ..h
                        },
                        m1,
                        address,
                    ),
                }
            },
        }
    }
}

/// Memory given back.
pub open spec fn heap_given_back(h: HeapView, m: MachineView, address: u64, size: u64, align: u64) -> (
    HeapView,
    MachineView,
) {
    let needed = larger(size, align);
    let class = class_of(needed);
    if address == 0 || size == 0 {
        (h, m)
    } else if class < 7 {
        let (c, m1) = given_back(h.caches[class], m, address);
        (
            HeapView {
                caches: h.caches.update(class, c),
                total_freed: counted(h.total_freed, class_size(class) as int),
                ..h
            },
            m1,
        )
    } else {
        (
            HeapView {
                total_freed: counted(h.total_freed, memory::span(order_of(needed)) * 4096),
                ..h
            },
            match m.hhdm {
                Some(base) if address >= base => MachineView {
                    frames: memory::freed(m.frames, PhysFrame((address - base) as u64)),
                    ..m
                },
                _ => m,
            },
        )
    }
}

impl KernelHeap {
    pub open spec fn wf(&self) -> bool {
        forall|i: int| 0 <= i < 7 ==> (#[trigger] self.caches@[i]).wf()
    }

    pub fn new() -> (r: Self)
        ensures
            r.wf(),
            !r.initialized,
            r.total_allocated == 0,
            r.total_freed == 0,
            forall|i: int|
                0 <= i < 7 ==> (#[trigger] r.caches@[i]) == (KMemCache {
                    object_size: class_size(i),
                    alignment: class_size(i),
                    current_page: None,
                    next_offset: 0,
                    freelist: None,
                    alloc_count: 0,
                    reuse_count: 0,
                    free_count: 0,
                }),
    {
        KernelHeap {
            initialized: false,
            caches: [
                KMemCache::new(32, 32),
                KMemCache::new(64, 64),
                KMemCache::new(128, 128),
                KMemCache::new(256, 256),
                KMemCache::new(512, 512),
                KMemCache::new(1024, 1024),
                KMemCache::new(2048, 2048),
            ],
            total_allocated: 0,
            total_freed: 0,
        }
    }

    pub fn allocate(&mut self, machine: &mut Machine, size: u64, align: u64) -> (r: u64)
        requires
            old(self).wf(),
            old(machine).wf(),
        ensures
            final(self).wf(),
            final(machine).wf(),
            (final(self)@, final(machine)@, r) == heap_taken(
                old(self)@,
                old(machine)@,
                size,
                align,
            ),
    {
        if size == 0 {
            return align;
        }
        if !self.initialized {
            return 0;
        }
        let needed: u64 = if size >= align {
            size
        } else {
            align
        };
        let class: usize = find_class(needed);
        if class < 7 {
            let mut cache: KMemCache = self.caches[class];
            let object = cache.allocate(machine);
            self.caches[class] = cache;
            return match object {
                None => 0,
                Some(address) => {
                    if address != 0 {
                        self.total_allocated = count(
                            self.total_allocated,
                            size_of_class(class) as u128,
                        );
                    }
                    address
                },
            };
        }
        let (order, bytes) = find_order(needed);
        let ghost v = machine.memory@;
        proof {
            lemma_span_bound(order_of(needed));
        }
        match machine.memory.allocator.alloc_order(order) {
            None => 0,
            Some(pfn) => {
                proof {
                    memory::law_handed_out_was_unused(v, order as int);
                    memory::lemma_handed_out_length(v, order as int);
                    memory::lemma_span_positive(order as int);
                }
                match paging::phys_to_virt(machine, pfn as u64 * PAGE_SIZE) {
                    None => 0,
                    Some(address) => {
                        if address != 0 {
                            self.total_allocated = count(self.total_allocated, bytes);
                        }
                        address
                    },
                }
            },
        }
    }

    pub fn free(&mut self, machine: &mut Machine, address: u64, size: u64, align: u64)
        requires
            old(self).wf(),
            old(machine).wf(),
        ensures
            final(self).wf(),
            final(machine).wf(),
            (final(self)@, final(machine)@) == heap_given_back(
                old(self)@,
                old(machine)@,
                address,
                size,
                align,
            ),
    {
        if address == 0 || size == 0 {
            return;
        }
        let needed: u64 = if size >= align {
            size
        } else {
            align
        };
        let class: usize = find_class(needed);
        if class < 7 {
            let mut cache: KMemCache = self.caches[class];
            cache.free(machine, address);
            self.caches[class] = cache;
            self.total_freed = count(self.total_freed, size_of_class(class) as u128);
            return;
        }
        let (_, bytes) = find_order(needed);
        proof {
            lemma_span_bound(order_of(needed));
            if machine@.hhdm is Some {
                let base = machine@.hhdm->0;
                memory::lemma_freed_length(
                    machine.memory@,
                    PhysFrame((address - base) as u64),
                );
            }
        }
        if let Some(phys) = paging::virt_to_phys(machine, address) {
            let _ = memory::free_frame(&mut machine.memory, PhysFrame(phys));
        }
        self.total_freed = count(self.total_freed, bytes);
    }
}

proof fn lemma_span_bound(order: int)
    requires
        order <= 53,
    ensures
        memory::span(order) <= 0x20_0000_0000_0000,
    decreases order,
{
    reveal_with_fuel(memory::span, 54);
}

/// Makes the heap ready for use, once.
pub fn init(heap: &mut KernelHeap) -> (r: Result<HeapStats, HeapInitError>)
    ensures
        final(heap)@ == (HeapView { initialized: true, ..old(heap)@ }),
        r == if old(heap).initialized {
            Err::<HeapStats, HeapInitError>(HeapInitError::AlreadyInitialized)
        } else {
            Ok(stats_of(old(heap)@))
        },
{
    if heap.initialized {
        return Err(HeapInitError::AlreadyInitialized);
    }
    heap.initialized = true;
    Ok(stats(heap))
}

/// How much of the heap is used.
pub open spec fn stats_of(h: HeapView) -> HeapStats {
    let used = if h.total_allocated >= h.total_freed {
        h.total_allocated - h.total_freed
    } else {
        0
    };
    HeapStats {
        base: HEAP_BASE,
        size: HEAP_SIZE,
        used: used as usize,
        free: if used <= HEAP_SIZE {
            (HEAP_SIZE - used) as usize
        } else {
            0
        },
    }
}

pub fn stats(heap: &KernelHeap) -> (r: HeapStats)
    ensures
        r == stats_of(heap@),
{
    let used: u64 = heap.total_allocated.saturating_sub(heap.total_freed);
    HeapStats {
        base: HEAP_BASE,
        size: HEAP_SIZE,
        used: used as usize,
        free: if used <= HEAP_SIZE as u64 {
            (HEAP_SIZE as u64 - used) as usize
        } else {
            0
        },
    }
}

// ---------------------------------------------------------------------------
// Caches for frequent objects
// ---------------------------------------------------------------------------
/// The caches of objects that come and go often.
#[derive(Debug)]
pub struct ObjectCaches {
    pub task_struct: KMemCache,
    pub vma: KMemCache,
    pub file_descriptor: KMemCache,
    pub dentry: KMemCache,
}

impl ObjectCaches {
    pub open spec fn wf(&self) -> bool {
        self.task_struct.wf() && self.vma.wf() && self.file_descriptor.wf() && self.dentry.wf()
    }

    pub fn new() -> (r: Self)
        ensures
            r.wf(),
            r.task_struct.object_size == 768 && r.task_struct.alignment == 16,
            r.vma.object_size == 64 && r.vma.alignment == 8,
            r.file_descriptor.object_size == 128 && r.file_descriptor.alignment == 8,
            r.dentry.object_size == 128 && r.dentry.alignment == 8,
    {
        ObjectCaches {
            task_struct: KMemCache::new(768, 16),
            vma: KMemCache::new(64, 8),
            file_descriptor: KMemCache::new(128, 8),
            dentry: KMemCache::new(128, 8),
        }
    }
}

pub fn alloc_task(caches: &mut ObjectCaches, machine: &mut Machine) -> (r: Option<u64>)
    requires
        old(caches).wf(),
        old(machine).wf(),
    ensures
        final(caches).wf(),
        final(machine).wf(),
        (final(caches).task_struct, final(machine)@, r) == taken(
            old(caches).task_struct,
            old(machine)@,
        ),
        *final(caches) == (ObjectCaches {
            task_struct: final(caches).task_struct,
            ..*old(caches)
        }),
{
    caches.task_struct.allocate(machine)
}

pub fn free_task(caches: &mut ObjectCaches, machine: &mut Machine, object: u64)
    requires
        old(caches).wf(),
        old(machine).wf(),
    ensures
        final(caches).wf(),
        final(machine).wf(),
        (final(caches).task_struct, final(machine)@) == given_back(
            old(caches).task_struct,
            old(machine)@,
            object,
        ),
        *final(caches) == (ObjectCaches {
            task_struct: final(caches).task_struct,
            ..*old(caches)
        }),
{
    caches.task_struct.free(machine, object)
}

pub fn alloc_vma(caches: &mut ObjectCaches, machine: &mut Machine) -> (r: Option<u64>)
    requires
        old(caches).wf(),
        old(machine).wf(),
    ensures
        final(caches).wf(),
        final(machine).wf(),
        (final(caches).vma, final(machine)@, r) == taken(old(caches).vma, old(machine)@),
        *final(caches) == (ObjectCaches { vma: final(caches).vma, ..*old(caches) }),
{
    caches.vma.allocate(machine)
}

pub fn free_vma(caches: &mut ObjectCaches, machine: &mut Machine, object: u64)
    requires
        old(caches).wf(),
        old(machine).wf(),
    ensures
        final(caches).wf(),
        final(machine).wf(),
        (final(caches).vma, final(machine)@) == given_back(
            old(caches).vma,
            old(machine)@,
            object,
        ),
        *final(caches) == (ObjectCaches { vma: final(caches).vma, ..*old(caches) }),
{
    caches.vma.free(machine, object)
}

pub fn alloc_file_descriptor(caches: &mut ObjectCaches, machine: &mut Machine) -> (r: Option<u64>)
    requires
        old(caches).wf(),
        old(machine).wf(),
    ensures
        final(caches).wf(),
        final(machine).wf(),
        (final(caches).file_descriptor, final(machine)@, r) == taken(
            old(caches).file_descriptor,
            old(machine)@,
        ),
        *final(caches) == (ObjectCaches {
            file_descriptor: final(caches).file_descriptor,
            ..*old(caches)
        }),
{
    caches.file_descriptor.allocate(machine)
}

pub fn free_file_descriptor(caches: &mut ObjectCaches, machine: &mut Machine, object: u64)
    requires
        old(caches).wf(),
        old(machine).wf(),
    ensures
        final(caches).wf(),
        final(machine).wf(),
        (final(caches).file_descriptor, final(machine)@) == given_back(
            old(caches).file_descriptor,
            old(machine)@,
            object,
        ),
        *final(caches) == (ObjectCaches {
            file_descriptor: final(caches).file_descriptor,
            ..*old(caches)
        }),
{
    caches.file_descriptor.free(machine, object)
}

pub fn alloc_dentry(caches: &mut ObjectCaches, machine: &mut Machine) -> (r: Option<u64>)
    requires
        old(caches).wf(),
        old(machine).wf(),
    ensures
        final(caches).wf(),
        final(machine).wf(),
        (final(caches).dentry, final(machine)@, r) == taken(old(caches).dentry, old(machine)@),
        *final(caches) == (ObjectCaches { dentry: final(caches).dentry, ..*old(caches) }),
{
    caches.dentry.allocate(machine)
}

pub fn free_dentry(caches: &mut ObjectCaches, machine: &mut Machine, object: u64)
    requires
        old(caches).wf(),
        old(machine).wf(),
    ensures
        final(caches).wf(),
        final(machine).wf(),
        (final(caches).dentry, final(machine)@) == given_back(
            old(caches).dentry,
            old(machine)@,
            object,
        ),
        *final(caches) == (ObjectCaches { dentry: final(caches).dentry, ..*old(caches) }),
{
    caches.dentry.free(machine, object)
}

/// What the check of a cache found.
#[derive(Clone, Copy, Debug, PartialEq, Eq, Structural)]
pub enum CacheFault {
    NoMemory,
    Duplicate,
    NotReused,
}

/// Checks a cache: two objects differ, and one that is given back comes again.
pub fn self_check(cache: &mut KMemCache, machine: &mut Machine) -> (r: Result<(), CacheFault>)
    requires
        old(cache).wf(),
        old(machine).wf(),
    ensures
        final(cache).wf(),
        final(machine).wf(),
        ({
            let (c1, m1, p1) = taken(*old(cache), old(machine)@);
            let (c2, m2, p2) = taken(c1, m1);
            r == if p1 is None || p2 is None {
                Err::<(), CacheFault>(CacheFault::NoMemory)
            } else if p1 == p2 {
                Err(CacheFault::Duplicate)
            } else {
                let (c3, m3) = given_back(c2, m2, p1->0);
                let (c4, m4, p3) = taken(c3, m3);
                if p3 is None {
                    Err(CacheFault::NoMemory)
                } else if p3 != p1 {
                    Err(CacheFault::NotReused)
                } else {
                    Ok(())
                }
            }
        }),
{
    let p1: u64 = match cache.allocate(machine) {
        None => {
            return Err(CacheFault::NoMemory);
        },
        Some(p) => p,
    };
    let p2: u64 = match cache.allocate(machine) {
        None => {
            return Err(CacheFault::NoMemory);
        },
        Some(p) => p,
    };
    if p1 == p2 {
        return Err(CacheFault::Duplicate);
    }
    cache.free(machine, p1);
    let p3: u64 = match cache.allocate(machine) {
        None => {
            return Err(CacheFault::NoMemory);
        },
        Some(p) => p,
    };
    if p3 != p1 {
        return Err(CacheFault::NotReused);
    }
    cache.free(machine, p2);
    cache.free(machine, p3);
    Ok(())
}

} // verus!
