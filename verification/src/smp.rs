//! The start of other processors and the work that waits for them.
use vstd::prelude::*;

use crate::process::Process;

verus! {

#[derive(Clone, Copy, Debug, PartialEq, Eq, Structural)]
pub struct SmpInfo {
    pub reported_cpus: usize,
    pub prepared_cpus: usize,
    pub requested_aps: usize,
    pub online_aps: usize,
    pub bsp_lapic_id: u32,
    pub x2apic_enabled: bool,
    pub work_completed: usize,
}

/// What the boot loader reports of processors: the numbers of all, that of the
/// first, and flags.
#[derive(Debug)]
pub struct MpReport {
    pub lapic_ids: Vec<u32>,
    pub bsp_lapic_id: u32,
    pub flags: u32,
}

/// What processors share.
pub struct SmpState {
    pub ap_online: usize,
    pub work_ready: bool,
    pub work_completed: usize,
    pub work_queue: usize,
    pub user_tasks: Vec<Process>,
    pub user_tasks_dispatched: usize,
    pub ap_timer_ticks: usize,
}

impl SmpState {
    pub open spec fn is_idle(&self) -> bool {
        &&& self.ap_online == 0
        &&& !self.work_ready
        &&& self.work_completed == 0
        &&& self.work_queue == 0
        &&& self.user_tasks@ == Seq::<Process>::empty()
        &&& self.user_tasks_dispatched == 0
        &&& self.ap_timer_ticks == 0
    }

    pub fn new() -> (r: Self)
        ensures
            r.is_idle(),
    {
        let user_tasks: Vec<Process> = Vec::new();
        assert(user_tasks@ =~= Seq::<Process>::empty());
        SmpState {
            ap_online: 0,
            work_ready: false,
            work_completed: 0,
            work_queue: 0,
            user_tasks,
            user_tasks_dispatched: 0,
            ap_timer_ticks: 0,
        }
    }
}

/// How many processors there are: at least one.
pub fn reported_cpu_count(report: Option<&MpReport>) -> (r: usize)
    ensures
        r == match report {
            None => 1,
            Some(report) => if report.lapic_ids@.len() == 0 {
                1
            } else {
                report.lapic_ids@.len() as int
            },
        },
{
    match report {
        None => 1,
        Some(report) => if report.lapic_ids.len() == 0 {
            1
        } else {
            report.lapic_ids.len()
        },
    }
}

/// The processors to start, by their places, among the first `upto`: all but
/// the first one, as long as something is prepared for them. The one at place
/// `i` of the result gets slot `i + 1`.
pub open spec fn to_start(ids: Seq<u32>, bsp: u32, prepared: int, upto: int) -> Seq<usize>
    decreases upto,
{
    if upto <= 0 {
        Seq::empty()
    } else {
        let before = to_start(ids, bsp, prepared, upto - 1);
        if ids[upto - 1] != bsp && before.len() + 1 < prepared {
            before.push((upto - 1) as usize)
        } else {
            before
        }
    }
}

/// Makes the shared state ready and says which processors to start.
pub fn plan_bootstrap(state: &mut SmpState, report: &MpReport, prepared_cpus: usize) -> (r: Vec<
    usize,
>)
    ensures
        final(state).is_idle(),
        r@ == to_start(
            report.lapic_ids@,
            report.bsp_lapic_id,
            prepared_cpus as int,
            report.lapic_ids@.len() as int,
        ),
{
    *state = SmpState::new();
    let mut chosen: Vec<usize> = Vec::new();
    let mut i: usize = 0;
    assert(chosen@ =~= Seq::<usize>::empty());
    while i < report.lapic_ids.len()
        invariant
            i <= report.lapic_ids@.len(),
            chosen@.len() <= i,
            chosen@ == to_start(
                report.lapic_ids@,
                report.bsp_lapic_id,
                prepared_cpus as int,
                i as int,
            ),
        decreases report.lapic_ids@.len() - i,
    {
        if report.lapic_ids[i] != report.bsp_lapic_id && prepared_cpus > 0 && chosen.len()
            < prepared_cpus - 1 {
            chosen.push(i);
        }
        i += 1;
    }
    chosen
}

/// Opens the queue of work for the processors that were started.
pub fn open_work(state: &mut SmpState, requested_aps: usize)
    ensures
        *final(state) == (SmpState {
            work_queue: requested_aps,
            work_ready: true,
            ..*old(state)
        }),
{
    state.work_queue = requested_aps;
    state.work_ready = true;
}

/// What came of the start of other processors.
pub fn bootstrap(
    state: &SmpState,
    report: Option<&MpReport>,
    prepared_cpus: usize,
    requested_aps: usize,
) -> (r: SmpInfo)
    ensures
        r == match report {
            None => SmpInfo {
                reported_cpus: 1,
                prepared_cpus,
                requested_aps: 0,
                online_aps: 0,
                bsp_lapic_id: 0,
                x2apic_enabled: false,
                work_completed: 0,
            },
            Some(report) => SmpInfo {
                reported_cpus: report.lapic_ids@.len() as usize,
                prepared_cpus,
                requested_aps,
                online_aps: state.ap_online,
                bsp_lapic_id: report.bsp_lapic_id,
                x2apic_enabled: report.flags % 2 == 1,
                work_completed: state.work_completed,
            },
        },
{
    match report {
        None => SmpInfo {
            reported_cpus: 1,
            prepared_cpus,
            requested_aps: 0,
            online_aps: 0,
            bsp_lapic_id: 0,
            x2apic_enabled: false,
            work_completed: 0,
        },
        Some(report) => SmpInfo {
            reported_cpus: report.lapic_ids.len(),
            prepared_cpus,
            requested_aps,
            online_aps: state.ap_online,
            bsp_lapic_id: report.bsp_lapic_id,
            x2apic_enabled: report.flags % 2 == 1,
            work_completed: state.work_completed,
        },
    }
}

/// Takes one piece of work, if there is one.
pub fn take_work(state: &mut SmpState) -> (r: bool)
    ensures
        r == (old(state).work_queue > 0),
        *final(state) == if r {
            SmpState { work_queue: (old(state).work_queue - 1) as usize, ..*old(state) }
        } else {
            *old(state)
        },
{
    if state.work_queue == 0 {
        return false;
    }
    state.work_queue = state.work_queue - 1;
    true
}

/// A processor reports that it runs.
pub fn note_online(state: &mut SmpState)
    ensures
        *final(state) == (SmpState {
            ap_online: one_more(old(state).ap_online),
            ..*old(state)
        }),
{
    state.ap_online = state.ap_online.wrapping_add(1);
}

/// A processor reports that it did its work.
pub fn note_work_completed(state: &mut SmpState)
    ensures
        *final(state) == (SmpState {
            work_completed: one_more(old(state).work_completed),
            ..*old(state)
        }),
{
    state.work_completed = state.work_completed.wrapping_add(1);
}

pub open spec fn one_more(n: usize) -> usize {
    if n == usize::MAX {
        0
    } else {
        (n + 1) as usize
    }
}

/// Hands tasks to the other processors, if any run.
pub fn enqueue_user_tasks(state: &mut SmpState, tasks: Vec<Process>) -> (r: bool)
    requires
        old(state).user_tasks_dispatched + tasks@.len() <= usize::MAX,
    ensures
        r == (old(state).ap_online != 0),
        final(state).user_tasks@ == if r {
            old(state).user_tasks@ + tasks@
        } else {
            old(state).user_tasks@
        },
        final(state).user_tasks_dispatched == if r {
            old(state).user_tasks_dispatched + tasks@.len()
        } else {
            old(state).user_tasks_dispatched as int
        },
        *final(state) == (SmpState {
            user_tasks: final(state).user_tasks,
            user_tasks_dispatched: final(state).user_tasks_dispatched,
            ..*old(state)
        }),
{
    if state.ap_online == 0 {
        return false;
    }
    let count: usize = tasks.len();
    let mut more = tasks;
    let ghost before = state.user_tasks@;
    state.user_tasks.append(&mut more);
    assert(state.user_tasks@ =~= before + tasks@);
    state.user_tasks_dispatched = state.user_tasks_dispatched + count;
    true
}

/// Takes all tasks that wait, if there are any.
pub fn take_user_tasks(state: &mut SmpState) -> (r: Option<Vec<Process>>)
    ensures
        match r {
            Some(tasks) => tasks@ == old(state).user_tasks@ && tasks@.len() > 0,
            None => old(state).user_tasks@.len() == 0,
        },
        final(state).user_tasks@ == Seq::<Process>::empty(),
        *final(state) == (SmpState { user_tasks: final(state).user_tasks, ..*old(state) }),
{
    if state.user_tasks.len() == 0 {
        assert(state.user_tasks@ =~= Seq::<Process>::empty());
        return None;
    }
    let mut tasks: Vec<Process> = Vec::new();
    core::mem::swap(&mut tasks, &mut state.user_tasks);
    assert(state.user_tasks@ =~= Seq::<Process>::empty());
    Some(tasks)
}

pub fn dispatched_user_tasks(state: &SmpState) -> (r: usize)
    ensures
        r == state.user_tasks_dispatched,
{
    state.user_tasks_dispatched
}

/// Whether a processor is not the first.
pub fn is_application_processor(cpu_index: usize) -> (r: bool)
    ensures
        r == (cpu_index != 0),
{
    cpu_index != 0
}

pub fn note_ap_timer_tick(state: &mut SmpState)
    ensures
        *final(state) == (SmpState {
            ap_timer_ticks: one_more(old(state).ap_timer_ticks),
            ..*old(state)
        }),
{
    state.ap_timer_ticks = state.ap_timer_ticks.wrapping_add(1);
}

/// Every processor that is started gets a slot of its own that was prepared,
/// and the first one is not started again.
pub proof fn law_slots_prepared(ids: Seq<u32>, bsp: u32, prepared: int, upto: int)
    requires
        0 <= upto <= ids.len(),
        ids.len() <= usize::MAX,
    ensures
        ({
            let chosen = to_start(ids, bsp, prepared, upto);
            &&& chosen.len() == 0 || chosen.len() < prepared
            &&& forall|i: int|
                0 <= i < chosen.len() ==> (#[trigger] chosen[i]) < upto && ids[chosen[i] as int]
                    != bsp
            &&& forall|i: int, j: int| 0 <= i < j < chosen.len() ==> chosen[i] < chosen[j]
        }),
    decreases upto,
{
    if upto > 0 {
        law_slots_prepared(ids, bsp, prepared, upto - 1);
    }
}

} // verus!
