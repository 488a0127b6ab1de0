//! Where a system call leads: back to the program, or to another task.
use vstd::prelude::*;

use crate::scheduler::io::{self, block_pipe_current};
use crate::scheduler::lifecycle::{self, exit_current, exit_group_current};
use crate::scheduler::switch::{self, futex_wait_current, wait_current, yield_current, Target};
use crate::scheduler::{self, SchedulerView, Shared, TaskState};
use crate::paging::MachineView;
use crate::syscall::files::{self, user_path};
use crate::syscall::{
    self, user_context, CpuLocal, Kernel, KernelView, UserContext, SYSCALL_RETURN_BLOCK,
    SYSCALL_RETURN_EXEC, SYSCALL_RETURN_EXIT, SYSCALL_RETURN_FUTEX_WAIT,
    SYSCALL_RETURN_THREAD_EXIT, SYSCALL_RETURN_WAIT, SYSCALL_RETURN_YIELD,
};

verus! {

/// Where a system call leads.
#[derive(Clone, Copy, Debug)]
pub enum Leaving {
    /// Back to the program, with this value.
    Back(u64),
    /// To the task that runs now.
    Run(Target),
    /// To nothing: no task is left.
    Idle,
    /// To another program in place of this one.
    Exec,
}

/// The registers that the program had at its call.
pub open spec fn called_with(k: KernelView) -> UserContext {
    syscall::context_of(k.cpu.frame, k.cpu.user_rsp)
}

/// The kernel with a task chosen.
pub open spec fn chosen(k: KernelView, s: SchedulerView) -> (KernelView, Leaving) {
    (k.with_scheduler(s), Leaving::Run(switch::target(s, s.current)))
}

/// The kernel after a task is gone, with what is left.
pub open spec fn after_exit(k: KernelView, m: MachineView, s: SchedulerView, shared: Shared) -> (
    KernelView,
    Leaving,
) {
    if s.task().state == TaskState::Runnable {
        (
            KernelView { machine: m, scheduler: Some(s), shared, ..k },
            Leaving::Run(switch::target(s, s.current)),
        )
    } else {
        (KernelView { machine: m, scheduler: None, shared, ..k }, Leaving::Idle)
    }
}

/// The task that waits for a child, as it is put aside.
pub open spec fn put_aside(k: KernelView) -> SchedulerView {
    let s = k.scheduler->0;
    s.with_current(
        switch::registers_parked(
            s.task(),
            called_with(k),
            TaskState::Waiting { child_pid: k.cpu.frame.rdi, status_ptr: k.cpu.frame.rsi },
        ),
    )
}

/// Where a call with a value leads, and the kernel from there on.
pub open spec fn left(k: KernelView, value: u64) -> (KernelView, Leaving) {
    let s = k.scheduler->0;
    let c = called_with(k);
    if value == SYSCALL_RETURN_EXIT {
        let (m1, s1) = lifecycle::group_left(k.machine, s, k.cpu.exit_code);
        let (m, s2, shared) = lifecycle::exited(m1, s1, k.shared, k.cpu.exit_code);
        after_exit(k, m, s2, shared)
    } else if value == SYSCALL_RETURN_THREAD_EXIT {
        let (m, s1, shared) = lifecycle::exited(k.machine, s, k.shared, k.cpu.exit_code);
        after_exit(k, m, s1, shared)
    } else if value == SYSCALL_RETURN_YIELD {
        chosen(k, switch::yielded(s, c))
    } else if value == SYSCALL_RETURN_WAIT {
        chosen(k, switch::child_waiting(s, k.cpu.frame.rdi, k.cpu.frame.rsi, c))
    } else if value == SYSCALL_RETURN_BLOCK {
        let k1 = KernelView { cpu: CpuLocal { block_descriptor: 0, ..k.cpu }, ..k };
        match io::wait_key(Some(s), k.cpu.block_descriptor) {
            None => (
                k1,
                Leaving::Run(Target { context: c, ..switch::target(s, s.current) }),
            ),
            Some(id) => chosen(k1, switch::pipe_blocked(s, id, c)),
        }
    } else if value == SYSCALL_RETURN_FUTEX_WAIT {
        let k1 = KernelView { cpu: CpuLocal { futex_uaddr: 0, futex_bitset: 0, ..k.cpu }, ..k };
        chosen(k1, switch::futex_waiting(s, k.cpu.futex_uaddr, k.cpu.futex_bitset, c))
    } else if value == SYSCALL_RETURN_EXEC {
        (k, Leaving::Exec)
    } else {
        (k, Leaving::Back(value))
    }
}

/// Goes where the value of a call leads. A task that waits for a child needs
/// another one that can run.
pub fn leave(k: &mut Kernel, value: u64) -> (r: Leaving)
    requires
        old(k).wf(),
        old(k)@.scheduler matches Some(s) && s.task().process is Some,
        value == SYSCALL_RETURN_WAIT ==> switch::next_runnable(put_aside(old(k)@).tasks, put_aside(old(k)@).current) is Some,
    ensures
        final(k).wf(),
        (final(k)@, r) == left(old(k)@, value),
{
    let context = user_context(&k.cpu.frame, k.cpu.user_rsp);
    let code: u64 = k.cpu.exit_code;
    if value == SYSCALL_RETURN_EXIT {
        return match exit_group_current(&mut k.machine, &mut k.scheduler, &mut k.shared, code) {
            Some(target) => Leaving::Run(target),
            None => Leaving::Idle,
        };
    }
    if value == SYSCALL_RETURN_THREAD_EXIT {
        return match exit_current(&mut k.machine, &mut k.scheduler, &mut k.shared, code) {
            Some(target) => Leaving::Run(target),
            None => Leaving::Idle,
        };
    }
    if value == SYSCALL_RETURN_BLOCK {
        let descriptor: u64 = k.cpu.block_descriptor;
        k.cpu.block_descriptor = 0;
        return Leaving::Run(block_pipe_current(&mut k.scheduler, descriptor, context));
    }
    if value == SYSCALL_RETURN_EXEC {
        return Leaving::Exec;
    }
    let child: u64 = k.cpu.frame.rdi;
    let status: u64 = k.cpu.frame.rsi;
    let address: u64 = k.cpu.futex_uaddr;
    let bitset: u32 = k.cpu.futex_bitset;
    if value == SYSCALL_RETURN_FUTEX_WAIT {
        k.cpu.futex_uaddr = 0;
        k.cpu.futex_bitset = 0;
    }
    match &mut k.scheduler {
        None => Leaving::Idle,
        Some(s) => {
            if value == SYSCALL_RETURN_YIELD {
                Leaving::Run(yield_current(s, context))
            } else if value == SYSCALL_RETURN_WAIT {
                Leaving::Run(wait_current(s, child, status, context))
            } else if value == SYSCALL_RETURN_FUTEX_WAIT {
                Leaving::Run(futex_wait_current(s, address, bitset, context))
            } else {
                Leaving::Back(value)
            }
        },
    }
}

/// The path of the program that is to take the place of the one that runs.
pub fn exec_path(k: &Kernel) -> (r: Option<Vec<u8>>)
    ensures
        match r {
            Some(path) => files::path_at(k.machine@, k.cpu.frame.rdi, k.cpu.frame.rsi) == Some(
                path@,
            ),
            None => files::path_at(k.machine@, k.cpu.frame.rdi, k.cpu.frame.rsi) is None,
        },
{
    user_path(&k.machine, k.cpu.frame.rdi, k.cpu.frame.rsi)
}

} // verus!
