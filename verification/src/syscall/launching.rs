//! Programs that a native program starts, once their files are there.
use vstd::prelude::*;

use crate::bytes::copy_range;
use crate::paging::MachineView;
use crate::process::loading;
use crate::process::{
    self, load_elf, load_elf_with_args, load_elf_with_args_and_env, load_linux_elf, ProcessError,
    ProcessPersonality, ProcessView, ProgramView,
};
use crate::scheduler::birth::{self, spawn_current, spawn_with_stdio_current};
use crate::scheduler::{self, Shared};
use crate::store::Store;
use crate::syscall::native::{self, is_linux_path};
use crate::syscall::{Kernel, KernelView, Launch, LaunchView, Step, StepView, SYSCALL_ERROR};

verus! {

/// What a started program is: one for Linux has no arguments, and of the
/// others it depends on how they are started what they are given.
pub open spec fn program_of(
    launch: LaunchView,
    image: Seq<u8>,
    interpreter: Option<Seq<u8>>,
) -> ProgramView {
    let native = !native::is_linux(launch.path);
    ProgramView {
        bytes: image,
        args: if native && (launch.with_args == 1 || launch.with_args == 2) {
            launch.arguments
        } else {
            Seq::empty()
        },
        environment: if native && launch.with_args == 2 {
            launch.environment
        } else {
            Seq::empty()
        },
        interpreter,
    }
}

/// The personality of a program, by where it is.
pub open spec fn personality_of(path: Seq<u8>) -> ProcessPersonality {
    if native::is_linux(path) {
        ProcessPersonality::LinuxX86_64Static
    } else {
        ProcessPersonality::NativeVanta
    }
}

/// What loading a started program gives. One for Linux is loaded only if the
/// broker of that personality accepts its file.
pub open spec fn launch_loaded(
    m: MachineView,
    launch: LaunchView,
    image: Seq<u8>,
    interpreter: Option<Seq<u8>>,
    accepted: bool,
) -> (MachineView, Result<ProcessView, ProcessError>) {
    if native::is_linux(launch.path) && !accepted {
        (m, Err(ProcessError::LinuxElf))
    } else {
        program_of(launch, image, interpreter).loaded(m, personality_of(launch.path))
    }
}

/// A process given up: nobody could have it.
pub open spec fn given_up(k: KernelView, v: ProcessView) -> KernelView {
    KernelView { machine: process::cleaned_up(k.machine, v).0, ..k }
}

/// The counters when a child was started.
pub open spec fn child_counted(shared: Shared) -> Shared {
    Shared {
        next_pid: scheduler::after(shared.next_pid),
        foreground_pid: shared.next_pid,
        ..shared
    }
}

/// The counters when there was no room for a child.
pub open spec fn child_refused(shared: Shared) -> Shared {
    Shared { next_pid: scheduler::after(shared.next_pid), ..shared }
}

/// A child started with given descriptors of the running task, and its number;
/// none where one of them is not open or there is no room.
pub open spec fn child_with(k: KernelView, v: ProcessView, launch: LaunchView) -> (
    KernelView,
    Option<u64>,
) {
    match k.scheduler {
        None => (given_up(k, v), None),
        Some(s) => match (
            birth::all_redirected(s.table(), launch.stdin, launch.stdout, launch.stderr),
            birth::room(s.tasks),
        ) {
            (Some(table), Some(place)) => (
                KernelView {
                    scheduler: Some(birth::spawned(s, k.shared, v, table, place)),
                    shared: child_counted(k.shared),
                    ..k
                },
                Some(k.shared.next_pid),
            ),
            (Some(_), None) => (
                KernelView { shared: child_refused(k.shared), ..given_up(k, v) },
                None,
            ),
            (None, _) => (given_up(k, v), None),
        },
    }
}

/// A child started with the descriptors of the running task, and its number;
/// none where there is no room.
pub open spec fn plain_child(k: KernelView, v: ProcessView) -> (KernelView, Option<u64>) {
    match k.scheduler {
        None => (given_up(k, v), None),
        Some(s) => match birth::room(s.tasks) {
            Some(place) => (
                KernelView {
                    scheduler: Some(birth::spawned(s, k.shared, v, s.table(), place)),
                    shared: child_counted(k.shared),
                    ..k
                },
                Some(k.shared.next_pid),
            ),
            None => (KernelView { shared: child_refused(k.shared), ..given_up(k, v) }, None),
        },
    }
}

/// How a launch with given descriptors ends, when its file was read or not: the
/// program gets the number of the child. What fails is tried again as a plain
/// launch of the same file.
pub open spec fn launched(
    k: KernelView,
    launch: LaunchView,
    image: Option<Seq<u8>>,
    interpreter: Option<Seq<u8>>,
    accepted: bool,
) -> (KernelView, StepView) {
    let again = StepView::Spawn { path: launch.path };
    match image {
        None => (k, again),
        Some(bytes) => match launch_loaded(k.machine, launch, bytes, interpreter, accepted) {
            (machine, Err(_)) => (KernelView { machine, ..k }, again),
            (machine, Ok(v)) => match child_with(KernelView { machine, ..k }, v, launch) {
                (after, Some(pid)) => (
                    after,
                    if pid == SYSCALL_ERROR {
                        again
                    } else {
                        StepView::Done(pid)
                    },
                ),
                (after, None) => (after, again),
            },
        },
    }
}

/// How a plain launch ends, when its file was read or not: with the number of
/// the child, or an error.
pub open spec fn plainly_launched(
    k: KernelView,
    image: Option<Seq<u8>>,
    interpreter: Option<Seq<u8>>,
) -> (KernelView, u64) {
    match image {
        None => (k, SYSCALL_ERROR),
        Some(bytes) => {
            let program = ProgramView {
                bytes,
                args: Seq::empty(),
                environment: Seq::empty(),
                interpreter,
            };
            match program.loaded(k.machine, ProcessPersonality::NativeVanta) {
                (machine, Err(_)) => (KernelView { machine, ..k }, SYSCALL_ERROR),
                (machine, Ok(v)) => match plain_child(KernelView { machine, ..k }, v) {
                    (after, Some(pid)) => (after, pid),
                    (after, None) => (after, SYSCALL_ERROR),
                },
            }
        },
    }
}

pub open spec fn bytes_of(file: Option<&[u8]>) -> Option<Seq<u8>> {
    match file {
        Some(bytes) => Some(bytes@),
        None => None,
    }
}

fn texts<'a>(store: &'a Store<Vec<u8>>) -> (r: Vec<&'a [u8]>)
    ensures
        process::texts_of(r@) == store@,
{
    let mut all: Vec<&'a [u8]> = Vec::new();
    let mut i: usize = 0;
    while i < store.len()
        invariant
            i <= store@.len(),
            process::texts_of(all@) == store@.take(i as int),
        decreases store@.len() - i,
    {
        let ghost before = process::texts_of(all@);
        all.push(store.get(i).as_slice());
        assert(process::texts_of(all@) =~= before.push(store@[i as int]));
        assert(store@.take(i + 1) =~= store@.take(i as int).push(store@[i as int]));
        i += 1;
    }
    assert(store@.take(i as int) =~= store@);
    all
}

proof fn lemma_no_texts(none: Seq<&[u8]>)
    requires
        none.len() == 0,
    ensures
        process::texts_of(none) == Seq::<Seq<u8>>::empty(),
{
    assert(process::texts_of(none) =~= Seq::<Seq<u8>>::empty());
}

/// Goes on with a launch with given descriptors, when its file was read or not.
pub fn launch_answered(
    k: &mut Kernel,
    launch: &Launch,
    image: Option<&[u8]>,
    interpreter: Option<&[u8]>,
    accepted: bool,
) -> (r: Step)
    requires
        old(k).wf(),
    ensures
        final(k).wf(),
        (final(k)@, r@) == launched(
            old(k)@,
            launch@,
            bytes_of(image),
            bytes_of(interpreter),
            accepted,
        ),
{
    let path = launch.path.as_slice();
    let again = Step::Spawn { path: copy_range(path, 0, path.len()) };
    assert(again@->Spawn_path =~= launch@.path);
    let bytes = match image {
        None => {
            return again;
        },
        Some(bytes) => bytes,
    };
    proof {
        let none: &[&[u8]] = &[];
        lemma_no_texts(none@);
    }
    let ghost before = k@;
    let ghost loaded = launch_loaded(
        before.machine,
        launch@,
        bytes@,
        bytes_of(interpreter),
        accepted,
    );
    let process = if is_linux_path(path) {
        load_linux_elf(&mut k.machine, bytes, interpreter, accepted)
    } else if launch.with_args == 2 {
        let arguments = texts(&launch.arguments);
        let environment = texts(&launch.environment);
        load_elf_with_args_and_env(
            &mut k.machine,
            bytes,
            arguments.as_slice(),
            environment.as_slice(),
            interpreter,
        )
    } else if launch.with_args == 1 {
        let arguments = texts(&launch.arguments);
        load_elf_with_args(&mut k.machine, bytes, arguments.as_slice(), interpreter)
    } else {
        load_elf(&mut k.machine, bytes, interpreter)
    };
    assert(k.machine@ == loaded.0);
    assert(match process {
        Ok(p) => loaded.1 == Ok::<ProcessView, ProcessError>(p@),
        Err(e) => loaded.1 == Err::<ProcessView, ProcessError>(e),
    });
    match process {
        Err(_) => again,
        Ok(process) => {
            let started = spawn_with_stdio_current(
                &mut k.machine,
                &mut k.scheduler,
                &mut k.shared,
                process,
                launch.stdin,
                launch.stdout,
                launch.stderr,
            );
            match started {
                Ok(pid) => if pid == SYSCALL_ERROR {
                    again
                } else {
                    Step::Done(pid)
                },
                Err(()) => again,
            }
        },
    }
}

/// Goes on with a plain launch, when its file was read or not.
pub fn spawn_answered(k: &mut Kernel, image: Option<&[u8]>, interpreter: Option<&[u8]>) -> (r: u64)
    requires
        old(k).wf(),
    ensures
        final(k).wf(),
        (final(k)@, r) == plainly_launched(old(k)@, bytes_of(image), bytes_of(interpreter)),
{
    let bytes = match image {
        None => {
            return SYSCALL_ERROR;
        },
        Some(bytes) => bytes,
    };
    proof {
        let none: &[&[u8]] = &[];
        lemma_no_texts(none@);
    }
    match load_elf(&mut k.machine, bytes, interpreter) {
        Err(_) => SYSCALL_ERROR,
        Ok(process) => match spawn_current(
            &mut k.machine,
            &mut k.scheduler,
            &mut k.shared,
            process,
        ) {
            Ok(pid) => pid,
            Err(()) => SYSCALL_ERROR,
        },
    }
}

/// A program under `/compat/linux/` is started as one for Linux and no other
/// is, and a launch with given descriptors never ends in an error: it gives the
/// number of a child, or is tried again.
pub proof fn law_personality_by_path(
    k: KernelView,
    launch: LaunchView,
    image: Seq<u8>,
    interpreter: Option<Seq<u8>>,
    accepted: bool,
    v: ProcessView,
)
    requires
        launch_loaded(k.machine, launch, image, interpreter, accepted).1 == Ok::<
            ProcessView,
            ProcessError,
        >(v),
    ensures
        native::is_linux(launch.path) ==> accepted,
        v.personality == personality_of(launch.path),
        launched(k, launch, Some(image), interpreter, accepted).1 matches StepView::Done(pid)
            ==> pid != SYSCALL_ERROR,
{
    let program = program_of(launch, image, interpreter);
    loading::law_personality_kept(program, k.machine, personality_of(launch.path));
}

} // verus!
