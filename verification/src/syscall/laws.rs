//! What holds of system calls over several of them.
use vstd::prelude::*;

use crate::paging::{AddressSpace, MachineView};
use crate::scheduler::SchedulerView;
use crate::scheduler::birth::CloneRequest;
use crate::scheduler::descriptors;
use crate::scheduler::io;
use crate::scheduler::laws;
use crate::syscall::{KernelView, SYSCALL_ERROR, StepView};
use crate::syscall::linux_files;
use crate::syscall::linux_tasks;
use crate::syscall::memory;
use crate::syscall::native;

verus! {

// ---------------------------------------------------------------------------
// Memory of the running program
// ---------------------------------------------------------------------------
/// Where byte `k` of a range of the running program's addresses is, if it may
/// be written.
pub open spec fn place_in(m: MachineView, address: u64, k: int) -> Option<int> {
    if 0 <= address + k <= u64::MAX {
        memory::place(m, (address + k) as u64, true)
    } else {
        None
    }
}

/// Whether a physical byte is one of a range of the running program's
/// addresses.
pub open spec fn is_in_range(m: MachineView, address: u64, n: int, place: int) -> bool {
    exists|k: int| 0 <= k < n && #[trigger] place_in(m, address, k) == Some(place)
}

/// Whether memory is as it was outside of a range.
pub open spec fn same_outside(m: MachineView, address: u64, n: int, ram: Seq<u8>) -> bool {
    &&& ram.len() == m.ram.len()
    &&& forall|i: int|
        0 <= i < ram.len() && !is_in_range(m, address, n, i) ==> #[trigger] ram[i] == m.ram[i]
}

/// A range of addresses that the running program can use as memory: each byte
/// may be written and has a place of its own, and none of them is part of what
/// leads there.
pub open spec fn is_memory(m: MachineView, address: u64, n: int) -> bool {
    &&& forall|k: int|
        0 <= k < n ==> (#[trigger] place_in(m, address, k) matches Some(p) && 0 <= p
            < m.ram.len())
    &&& forall|j: int, k: int|
        0 <= j < k < n ==> #[trigger] place_in(m, address, j) != #[trigger] place_in(
            m,
            address,
            k,
        )
    &&& forall|ram: Seq<u8>, k: int|
        0 <= k < n && same_outside(m, address, n, ram) ==> #[trigger] place_in(
            MachineView { ram, ..m },
            address,
            k,
        ) == place_in(m, address, k)
}

/// Bytes written from byte `done` of a range on, when `i` of them are.
proof fn lemma_given_from(
    m: MachineView,
    address: u64,
    all: Seq<u8>,
    ram: Seq<u8>,
    done: int,
    bytes: Seq<u8>,
    i: int,
) -> (after: Seq<u8>)
    requires
        is_memory(m, address, all.len() as int),
        same_outside(m, address, all.len() as int, ram),
        0 <= done,
        done + bytes.len() <= all.len(),
        address + done <= u64::MAX,
        bytes == all.subrange(done, done + bytes.len()),
        0 <= i <= bytes.len(),
        forall|k: int|
            0 <= k < done + i ==> ram[(#[trigger] place_in(m, address, k))->0] == all[k],
    ensures
        memory::given(MachineView { ram, ..m }, (address + done) as u64, bytes, i) == (
            MachineView { ram: after, ..m },
            true,
        ),
        same_outside(m, address, all.len() as int, after),
        forall|k: int|
            0 <= k < done + bytes.len() ==> after[(#[trigger] place_in(m, address, k))->0]
                == all[k],
    decreases bytes.len() - i,
{
    if i == bytes.len() {
        ram
    } else {
        let now = MachineView { ram, ..m };
        let at = done + i;
        let p = place_in(m, address, at)->0;
        assert(place_in(now, address, at) == place_in(m, address, at));
        assert(place_in(m, address, at) is Some);
        assert(is_in_range(m, address, all.len() as int, p));
        let next = ram.update(p, bytes[i]);
        assert(same_outside(m, address, all.len() as int, next));
        assert forall|k: int| 0 <= k < at + 1 implies next[(#[trigger] place_in(
            m,
            address,
            k,
        ))->0] == all[k] by {
            if k < at {
                assert(place_in(m, address, k) != place_in(m, address, at));
                assert(place_in(m, address, k) is Some);
            }
        }
        let after = lemma_given_from(m, address, all, next, done, bytes, i + 1);
        assert(MachineView { ram: now.ram.update(p, bytes[i]), ..now } == MachineView {
            ram: next,
            ..m
        });
        after
    }
}

proof fn lemma_read_at(m: MachineView, address: u64, n: int, ram: Seq<u8>, k: int)
    requires
        is_memory(m, address, n),
        same_outside(m, address, n, ram),
        0 <= k < n,
    ensures
        address + k <= u64::MAX,
        memory::place(MachineView { ram, ..m }, (address + k) as u64, false) == place_in(
            m,
            address,
            k,
        ),
{
    reveal(memory::place);
    let now = MachineView { ram, ..m };
    assert(place_in(now, address, k) == place_in(m, address, k));
    assert(place_in(m, address, k) is Some);
}

proof fn lemma_read_back(m: MachineView, address: u64, all: Seq<u8>, ram: Seq<u8>, n: nat)
    requires
        is_memory(m, address, all.len() as int),
        same_outside(m, address, all.len() as int, ram),
        n <= all.len(),
        forall|k: int|
            0 <= k < all.len() ==> ram[(#[trigger] place_in(m, address, k))->0] == all[k],
    ensures
        memory::bytes_at(MachineView { ram, ..m }, address, n) == Some(all.take(n as int)),
    decreases n,
{
    if n == 0 {
        assert(all.take(0) =~= Seq::<u8>::empty());
    } else {
        lemma_read_back(m, address, all, ram, (n - 1) as nat);
        lemma_read_at(m, address, all.len() as int, ram, n - 1);
        assert(place_in(m, address, n - 1) is Some);
        assert(all.take(n as int) =~= all.take(n - 1).push(all[n - 1]));
    }
}

/// What the kernel writes to memory of the running program it reads back from
/// there; memory elsewhere is as it was.
pub proof fn law_given_then_taken(m: MachineView, address: u64, bytes: Seq<u8>)
    requires
        is_memory(m, address, bytes.len() as int),
    ensures
        ({
            let (after, ok) = memory::given(m, address, bytes, 0);
            &&& ok
            &&& memory::bytes_at(after, address, bytes.len()) == Some(bytes)
            &&& bytes.len() <= 65536 ==> memory::taken(after, address, bytes.len() as u64) == Some(
                bytes,
            )
            &&& same_outside(m, address, bytes.len() as int, after.ram)
            &&& after == MachineView { ram: after.ram, ..m }
        }),
{
    assert(MachineView { ram: m.ram, ..m } == m);
    assert(bytes.subrange(0, bytes.len() as int) =~= bytes);
    let ram = lemma_given_from(m, address, bytes, m.ram, 0, bytes, 0);
    lemma_read_back(m, address, bytes, ram, bytes.len());
    assert(bytes.take(bytes.len() as int) =~= bytes);
}

// ---------------------------------------------------------------------------
// Files in memory
// ---------------------------------------------------------------------------
/// Where a call has mapped memory, if it has.
pub open spec fn mapped_at(step: StepView) -> Option<u64> {
    match step {
        StepView::Done(value) => if value == SYSCALL_ERROR {
            None
        } else {
            Some(value)
        },
        StepView::Protect { value, .. } => Some(value),
        _ => None,
    }
}

/// Whether a descriptor of the running program is of a file that it may read.
pub open spec fn reads_file(k: KernelView, fd: u64, f: usize) -> bool {
    &&& io::readable_file(k.scheduler, fd) == Some(f)
    &&& f < k.scheduler->0.objects.files.len()
}

proof fn lemma_file_mapped(
    m: MachineView,
    k: KernelView,
    fd: u64,
    f: usize,
    base: u64,
    length: u64,
    start: int,
    done: int,
    all: Seq<u8>,
) -> (ram: Seq<u8>)
    requires
        is_memory(m, base, all.len() as int),
        reads_file(k, fd, f),
        ({
            let file = k.scheduler->0.objects.files[f as int];
            &&& 0 <= start <= file.contents.len()
            &&& all == file.contents.subrange(start, start + all.len())
            &&& all.len() == (if length <= file.contents.len() - start {
                length as int
            } else {
                file.contents.len() - start
            })
            &&& file.offset == start + done
        }),
        0 <= done <= all.len(),
        k.machine == (MachineView { ram: k.machine.ram, ..m }),
        same_outside(m, base, all.len() as int, k.machine.ram),
        forall|i: int|
            0 <= i < done ==> k.machine.ram[(#[trigger] place_in(m, base, i))->0] == all[i],
    ensures
        linux_files::file_mapped(k, fd, base, length, done).machine == (MachineView { ram, ..m }),
        same_outside(m, base, all.len() as int, ram),
        forall|i: int| 0 <= i < all.len() ==> ram[(#[trigger] place_in(m, base, i))->0] == all[i],
    decreases all.len() - done,
{
    let s = k.scheduler->0;
    let file = s.objects.files[f as int];
    if done < all.len() {
        assert(place_in(m, base, done) is Some);
        assert(base + done <= u64::MAX);
        let chunk = if length - done <= 256 {
            length - done
        } else {
            256
        };
        let end = io::at_most(file.offset + chunk, file.contents.len() as int);
        let bytes = file.contents.subrange(file.offset, end);
        assert(bytes =~= all.subrange(done, done + bytes.len()));
        let s1 = io::with_file(s, f, crate::scheduler::FileView { offset: end, ..file });
        assert(io::descriptor_read(k.scheduler, fd, chunk) == Some(
            (s1, io::ReadingView::Bytes(bytes)),
        ));
        assert(bytes.len() > 0);
        let after = lemma_given_from(m, base, all, k.machine.ram, done, bytes, 0);
        let k2 = KernelView {
            machine: MachineView { ram: after, ..m },
            ..k.with_scheduler(s1)
        };
        if bytes.len() < chunk {
            after
        } else {
            assert(descriptors::descriptor_in(k2.scheduler, fd) == descriptors::descriptor_in(
                k.scheduler,
                fd,
            ));
            lemma_file_mapped(m, k2, fd, f, base, length, start, done + bytes.len(), all)
        }
    } else {
        if done < length && base + done <= u64::MAX {
            let chunk = if length - done <= 256 {
                length - done
            } else {
                256
            };
            let end = io::at_most(file.offset + chunk, file.contents.len() as int);
            let bytes = file.contents.subrange(file.offset, end);
            let s1 = io::with_file(s, f, crate::scheduler::FileView { offset: end, ..file });
            assert(io::descriptor_read(k.scheduler, fd, chunk) == Some(
                (s1, io::ReadingView::Bytes(bytes)),
            ));
            assert(bytes.len() == 0);
        }
        k.machine.ram
    }
}

/// A file that was mapped from an offset on is read there: byte `i` of the
/// mapping is byte `offset + i` of the file, as far as both go, whether the
/// program may write there or not.
pub proof fn law_mapped_file_is_read(
    k: KernelView,
    addr: u64,
    length: u64,
    prot: u64,
    flags: u64,
    fd: u64,
    offset: u64,
    f: usize,
    base: u64,
)
    requires
        flags / 0x20 % 2 == 0,
        fd != u64::MAX,
        reads_file(k, fd, f),
        k.scheduler->0.objects.files[f as int].contents.len() <= i64::MAX,
        mapped_at(linux_files::user_map(k, addr, length, prot, flags, fd, offset).1) == Some(base),
        is_memory(
            linux_files::memory_mapped(k, addr, length, prot | 2, flags).0.machine,
            base,
            length as int,
        ),
    ensures
        ({
            let contents = k.scheduler->0.objects.files[f as int].contents;
            let after = linux_files::user_map(k, addr, length, prot, flags, fd, offset).0;
            forall|i: int|
                0 <= i < length && offset + i < contents.len() ==> #[trigger] memory::bytes_at(
                    after.machine,
                    (base + i) as u64,
                    1,
                ) == Some(seq![contents[offset + i]])
        }),
{
    let contents = k.scheduler->0.objects.files[f as int].contents;
    let (k1, mapped) = linux_files::memory_mapped(k, addr, length, prot | 2, flags);
    let after = linux_files::user_map(k, addr, length, prot, flags, fd, offset).0;
    if offset < contents.len() {
        let n = if length <= contents.len() - offset {
            length as int
        } else {
            contents.len() - offset
        };
        let m = k1.machine;
        let all = contents.subrange(offset as int, offset + n);
        assert(mapped is Ok && mapped->Ok_0 == base);
        assert(descriptors::descriptor_in(k1.scheduler, fd) == descriptors::descriptor_in(
            k.scheduler,
            fd,
        ));
        let k2 = native::user_seek(k1, fd, offset as i64, 0).0;
        assert(k2.scheduler->0.objects.files[f as int].offset == offset);
        assert(descriptors::descriptor_in(k2.scheduler, fd) == descriptors::descriptor_in(
            k.scheduler,
            fd,
        ));
        lemma_part_is_memory(m, base, length as int, n);
        assert(MachineView { ram: m.ram, ..m } == m);
        let ram = lemma_file_mapped(m, k2, fd, f, base, length, offset as int, 0, all);
        assert(after.machine == MachineView { ram, ..m });
        assert forall|i: int| 0 <= i < length && offset + i < contents.len() implies #[trigger] memory::bytes_at(
            after.machine,
            (base + i) as u64,
            1,
        ) == Some(seq![contents[offset + i]]) by {
            lemma_read_at(m, base, n, ram, i);
            assert(place_in(m, base, i) is Some);
            assert(ram[place_in(m, base, i)->0] == all[i]);
            reveal_with_fuel(memory::bytes_at, 2);
            assert(Seq::<u8>::empty().push(all[i]) =~= seq![contents[offset + i]]);
        }
    }
}

/// Part of memory is memory.
pub(crate) proof fn lemma_part_is_memory(m: MachineView, address: u64, n: int, part: int)
    requires
        is_memory(m, address, n),
        part <= n,
    ensures
        is_memory(m, address, part),
{
    assert forall|ram: Seq<u8>, k: int|
        0 <= k < part && same_outside(m, address, part, ram) implies #[trigger] place_in(
        MachineView { ram, ..m },
        address,
        k,
    ) == place_in(m, address, k) by {
        assert(same_outside(m, address, n, ram)) by {
            assert forall|i: int| 0 <= i < ram.len() && !is_in_range(m, address, n, i) implies #[trigger] ram[i]
                == m.ram[i] by {
                if is_in_range(m, address, part, i) {
                    let k = choose|k: int|
                        0 <= k < part && #[trigger] place_in(m, address, k) == Some(i);
                    assert(place_in(m, address, k) == Some(i));
                }
            }
        }
    }
}

// ---------------------------------------------------------------------------
// Clones
// ---------------------------------------------------------------------------
/// A clone goes on behind the call that made it, on the stack that was asked
/// for, with the registers of the caller and zero as the result of the call;
/// the caller's own registers stay, and it gets the number of the clone.
pub proof fn law_clone_resumes_behind_call(
    before: KernelView,
    after: KernelView,
    q: CloneRequest,
    copy: Result<AddressSpace, ()>,
    s: SchedulerView,
    tid: u64,
)
    requires
        before.scheduler == Some(s),
        0 <= s.current < s.tasks.len(),
        before.shared.next_pid != 0,
        linux_tasks::clone_done(before, after, q, copy, Ok(tid)),
    ensures
        tid != 0,
        after.cpu == before.cpu,
        after.scheduler matches Some(t) && exists|i: int|
            {
                let child = #[trigger] t.tasks[i];
                let f = before.cpu.frame;
                let sp = if q.child_stack != 0 {
                    q.child_stack
                } else {
                    before.cpu.user_rsp
                };
                &&& laws::one_added(s.tasks, t.tasks, i)
                &&& child.tid == tid
                &&& child.context.return_value == 0
                &&& child.context.instruction_pointer == f.rcx
                &&& child.context.stack_pointer == sp
                &&& child.context.rbx == f.rbx && child.context.rbp == f.rbp
                &&& child.context.r12 == f.r12 && child.context.r13 == f.r13
                &&& child.context.r14 == f.r14 && child.context.r15 == f.r15
                &&& child.context.rdi == f.rdi && child.context.rsi == f.rsi
                &&& child.context.rdx == f.rdx && child.context.r8 == f.r8
                &&& child.context.r9 == f.r9 && child.context.r10 == f.r10
                &&& child.interrupt_context.rax == 0
                &&& child.interrupt_context.instruction_pointer == f.rcx
                &&& child.interrupt_context.stack_pointer == sp
                &&& child.interrupt_context.code_segment % 4 == 3
            },
{
    let context = crate::syscall::context_of(before.cpu.frame, before.cpu.user_rsp);
    let interrupt = crate::syscall::child_registers(
        before.cpu.frame,
        if q.child_stack != 0 {
            q.child_stack
        } else {
            before.cpu.user_rsp
        },
    );
    laws::law_clone_returns_twice(
        before.machine,
        s,
        before.shared,
        q,
        context,
        interrupt,
        copy,
    );
    let t = after.scheduler->0;
    let i = choose|i: int|
        laws::one_added(s.tasks, t.tasks, i) && (#[trigger] t.tasks[i]).tid == tid
            && t.tasks[i].context.return_value == 0 && t.tasks[i].interrupt_context.rax == 0
            && laws::same_but_result(t.tasks[i].context, context)
            && t.tasks[i].context.instruction_pointer == interrupt.instruction_pointer
            && t.tasks[i].interrupt_context.instruction_pointer == interrupt.instruction_pointer
            && t.tasks[i].interrupt_context.code_segment == interrupt.code_segment
            && t.tasks[i].context.stack_pointer == (if q.child_stack != 0 {
            q.child_stack
        } else {
            context.stack_pointer
        }) && t.tasks[i].interrupt_context.stack_pointer == t.tasks[i].context.stack_pointer;
    assert(t.tasks[i].tid == tid);
}

/// The pages of a program have the protection that it asked for: it can always
/// read them, it can write them exactly if it asked to, and what is in them can
/// be run exactly if it asked to.
pub proof fn law_protection_as_asked(prot: u64)
    ensures
        ({
            let flags = linux_files::page_flags(prot);
            &&& flags / 4 % 2 == 1
            &&& flags / 2 % 2 == 1 <==> prot / 2 % 2 == 1
            &&& flags / 0x8000_0000_0000_0000 == 0 <==> prot / 4 % 2 == 1
        }),
{
}

} // verus!
