//! Time: a hierarchical timer wheel and the system clocks.
//!
//! The wheel has a level of 256 slots of one tick, and three levels of 64
//! slots, each slot as wide as the level below; timers further ahead wait
//! aside.
use vstd::prelude::*;

verus! {

pub const LVL0_SPAN: u64 = 256;

pub const LVL1_SPAN: u64 = 16_384;

pub const LVL2_SPAN: u64 = 1_048_576;

pub const LVL3_SPAN: u64 = 67_108_864;

/// The slots of all levels one after the other, and the place aside.
const SLOTS: usize = 449;

const OVERFLOW: usize = 448;

#[derive(Clone, Copy, Debug, PartialEq, Eq, Structural)]
pub enum TimerKind {
    Sleep { tid: u64 },
    ITimerReal { pid: u64, interval_ticks: u64 },
}

#[derive(Clone, Copy, Debug, PartialEq, Eq, Structural)]
pub struct TimerEntry {
    pub id: u64,
    pub target_tick: u64,
    pub kind: TimerKind,
}

pub struct TimerWheel {
    pub current_tick: u64,
    pub slots: Vec<Vec<TimerEntry>>,
    pub next_timer_id: u64,
}

#[verifier::ext_equal]
pub struct WheelView {
    pub current_tick: u64,
    pub slots: Seq<Seq<TimerEntry>>,
    pub next_timer_id: u64,
}

// ---------------------------------------------------------------------------
// Slots
// ---------------------------------------------------------------------------
/// The ticks from now to a target; none if it has passed.
pub open spec fn ahead(target: u64, now: u64) -> int {
    if target > now {
        target - now
    } else {
        0
    }
}

/// The slot of a timer, by how far ahead it is.
pub open spec fn slot_of(target: u64, now: u64) -> int {
    let d = ahead(target, now);
    if d < 256 {
        (target % 256) as int
    } else if d < 16_384 {
        256 + target / 256 % 64
    } else if d < 1_048_576 {
        320 + target / 16_384 % 64
    } else if d < 67_108_864 {
        384 + target / 1_048_576 % 64
    } else {
        448
    }
}

pub open spec fn inserted(slots: Seq<Seq<TimerEntry>>, e: TimerEntry, now: u64) -> Seq<
    Seq<TimerEntry>,
> {
    let k = slot_of(e.target_tick, now);
    slots.update(k, slots[k].push(e))
}

pub open spec fn all_inserted(slots: Seq<Seq<TimerEntry>>, entries: Seq<TimerEntry>, now: u64) -> Seq<
    Seq<TimerEntry>,
>
    decreases entries.len(),
{
    if entries.len() == 0 {
        slots
    } else {
        all_inserted(inserted(slots, entries[0], now), entries.skip(1), now)
    }
}

/// The timers of a slot sorted into slots again.
pub open spec fn cascaded(slots: Seq<Seq<TimerEntry>>, k: int, now: u64) -> Seq<Seq<TimerEntry>> {
    all_inserted(slots.update(k, Seq::empty()), slots[k], now)
}

/// The sequence without its element `i`, with the last in its place.
pub open spec fn swap_removed(s: Seq<TimerEntry>, i: int) -> Seq<TimerEntry> {
    s.update(i, s.last()).drop_last()
}

/// The timers aside, from number `i` on, sorted into slots as far as they are
/// near enough.
pub open spec fn promoted(slots: Seq<Seq<TimerEntry>>, i: int, now: u64) -> Seq<Seq<TimerEntry>>
    decreases slots[448].len() - i,
{
    let waiting = slots[448];
    if i < 0 || i >= waiting.len() || slots.len() != 449 {
        slots
    } else if ahead(waiting[i].target_tick, now) < 67_108_864 {
        promoted(
            inserted(slots.update(448, swap_removed(waiting, i)), waiting[i], now),
            i,
            now,
        )
    } else {
        promoted(slots, i + 1, now)
    }
}

pub open spec fn due(e: TimerEntry, now: u64) -> bool {
    e.target_tick <= now
}

/// The slots when a tick begins: what comes near is sorted down.
pub open spec fn sorted_down(slots: Seq<Seq<TimerEntry>>, now: u64) -> Seq<Seq<TimerEntry>> {
    let s1 = if now % 256 == 0 {
        cascaded(slots, 256 + now / 256 % 64, now)
    } else {
        slots
    };
    let s2 = if now % 16_384 == 0 {
        cascaded(s1, 320 + now / 16_384 % 64, now)
    } else {
        s1
    };
    if now % 1_048_576 == 0 {
        promoted(cascaded(s2, 384 + now / 1_048_576 % 64, now), 0, now)
    } else {
        s2
    }
}

pub open spec fn due_of(s: Seq<TimerEntry>, now: u64) -> Seq<TimerEntry> {
    s.filter(|e: TimerEntry| due(e, now))
}

pub open spec fn not_due_of(s: Seq<TimerEntry>, now: u64) -> Seq<TimerEntry> {
    s.filter(|e: TimerEntry| !due(e, now))
}

impl WheelView {
    /// The wheel after one tick.
    pub open spec fn advanced(self) -> WheelView {
        let now = self.current_tick.wrapping_add(1);
        let slots = sorted_down(self.slots, now);
        let k = (now % 256) as int;
        WheelView {
            current_tick: now,
            slots: slots.update(k, not_due_of(slots[k], now)),
            ..self
        }
    }

    /// The timers that fire on the next tick.
    pub open spec fn fired(self) -> Seq<TimerEntry> {
        let now = self.current_tick.wrapping_add(1);
        due_of(sorted_down(self.slots, now)[(now % 256) as int], now)
    }

    pub open spec fn added(self, target: u64, kind: TimerKind) -> WheelView {
        WheelView {
            slots: inserted(
                self.slots,
                TimerEntry { id: self.next_timer_id, target_tick: target, kind },
                self.current_tick,
            ),
            next_timer_id: self.next_timer_id.wrapping_add(1),
            ..self
        }
    }

    pub open spec fn without(self, place: (int, int)) -> WheelView {
        WheelView {
            slots: self.slots.update(place.0, self.slots[place.0].remove(place.1)),
            ..self
        }
    }
}

/// What a timer is looked for by.
pub enum Wanted {
    Sleep(u64),
    ITimer(u64),
    Id(u64),
}

pub open spec fn is_wanted(e: TimerEntry, wanted: Wanted) -> bool {
    match wanted {
        Wanted::Sleep(t) => e.kind matches TimerKind::Sleep { tid } && tid == t,
        Wanted::ITimer(p) => e.kind matches TimerKind::ITimerReal { pid, .. } && pid == p,
        Wanted::Id(id) => e.id == id,
    }
}

/// The place of the first wanted timer of a slot, from number `i` on; the
/// length if there is none.
pub open spec fn place_in(s: Seq<TimerEntry>, wanted: Wanted, i: int) -> int
    decreases s.len() - i,
{
    if i < 0 || i >= s.len() {
        s.len() as int
    } else if is_wanted(s[i], wanted) {
        i
    } else {
        place_in(s, wanted, i + 1)
    }
}

/// The first wanted timer of the slots from `k` to `end`.
pub open spec fn place_of(slots: Seq<Seq<TimerEntry>>, wanted: Wanted, k: int, end: int) -> Option<
    (int, int),
>
    decreases end - k,
{
    if k >= end {
        None
    } else {
        let i = place_in(slots[k], wanted, 0);
        if i < slots[k].len() {
            Some((k, i))
        } else {
            place_of(slots, wanted, k + 1, end)
        }
    }
}

fn matches_wanted(e: &TimerEntry, wanted: &Wanted) -> (r: bool)
    ensures
        r == is_wanted(*e, *wanted),
{
    match wanted {
        Wanted::Sleep(t) => match e.kind {
            TimerKind::Sleep { tid } => tid == *t,
            _ => false,
        },
        Wanted::ITimer(p) => match e.kind {
            TimerKind::ITimerReal { pid, interval_ticks: _ } => pid == *p,
            _ => false,
        },
        Wanted::Id(id) => e.id == *id,
    }
}

fn find_in(s: &Vec<TimerEntry>, wanted: &Wanted) -> (r: usize)
    ensures
        r == place_in(s@, *wanted, 0),
        r <= s.len(),
        r < s.len() ==> is_wanted(s@[r as int], *wanted),
{
    let mut i: usize = 0;
    while i < s.len()
        invariant
            i <= s.len(),
            place_in(s@, *wanted, 0) == place_in(s@, *wanted, i as int),
        decreases s.len() - i,
    {
        if matches_wanted(&s[i], wanted) {
            return i;
        }
        i += 1;
    }
    i
}

impl TimerWheel {
    pub open spec fn view(&self) -> WheelView {
        WheelView {
            current_tick: self.current_tick,
            slots: self.slots@.map_values(|s: Vec<TimerEntry>| s@),
            next_timer_id: self.next_timer_id,
        }
    }

    pub open spec fn wf(&self) -> bool {
        self.slots.len() == 449
    }

    pub fn new() -> (r: Self)
        ensures
            r.wf(),
            r.current_tick == 0,
            r.next_timer_id == 1,
            r@.slots == Seq::new(449, |k: int| Seq::<TimerEntry>::empty()),
    {
        let mut slots: Vec<Vec<TimerEntry>> = Vec::new();
        let mut k: usize = 0;
        while k < SLOTS
            invariant
                k <= 449,
                slots.len() == k,
                forall|i: int| 0 <= i < k ==> (#[trigger] slots@[i])@ == Seq::<TimerEntry>::empty(),
            decreases 449 - k,
        {
            slots.push(Vec::new());
            k += 1;
        }
        let r = TimerWheel { current_tick: 0, slots, next_timer_id: 1 };
        assert(r@.slots =~= Seq::new(449, |k: int| Seq::<TimerEntry>::empty()));
        r
    }

    fn reinsert(&mut self, entry: TimerEntry)
        requires
            old(self).wf(),
        ensures
            final(self).wf(),
            final(self)@ == (WheelView {
                slots: inserted(old(self)@.slots, entry, old(self).current_tick),
                ..old(self)@
            }),
    {
        let target: u64 = entry.target_tick;
        let delta: u64 = if target > self.current_tick {
            target - self.current_tick
        } else {
            0
        };
        let slot: usize = if delta < LVL0_SPAN {
            (target % 256) as usize
        } else if delta < LVL1_SPAN {
            256 + (target / 256 % 64) as usize
        } else if delta < LVL2_SPAN {
            320 + (target / 16_384 % 64) as usize
        } else if delta < LVL3_SPAN {
            384 + (target / 1_048_576 % 64) as usize
        } else {
            OVERFLOW
        };
        let ghost before = self@;
        assert(slot == slot_of(target, self.current_tick));
        assert(self.slots@[slot as int]@ == before.slots[slot as int]);
        self.slots[slot].push(entry);
        assert(self@.slots =~= inserted(before.slots, entry, before.current_tick));
    }

    pub fn add_timer(&mut self, target_tick: u64, kind: TimerKind) -> (r: u64)
        requires
            old(self).wf(),
        ensures
            final(self).wf(),
            final(self)@ == old(self)@.added(target_tick, kind),
            r == old(self).next_timer_id,
    {
        let id: u64 = self.next_timer_id;
        self.next_timer_id = id.wrapping_add(1);
        self.reinsert(TimerEntry { id, target_tick, kind });
        id
    }

    fn cascade(&mut self, slot: usize)
        requires
            old(self).wf(),
            slot < 449,
        ensures
            final(self).wf(),
            final(self)@ == (WheelView {
                slots: cascaded(old(self)@.slots, slot as int, old(self).current_tick),
                ..old(self)@
            }),
    {
        let ghost before = self@;
        let ghost now = self.current_tick;
        let mut taken: Vec<TimerEntry> = Vec::new();
        core::mem::swap(&mut self.slots[slot], &mut taken);
        assert(taken@ == before.slots[slot as int]);
        assert(self@.slots =~= before.slots.update(slot as int, Seq::empty()));
        let ghost goal = cascaded(before.slots, slot as int, now);
        let mut i: usize = 0;
        assert(taken@.skip(0) =~= taken@);
        while i < taken.len()
            invariant
                i <= taken.len(),
                self.wf(),
                self.current_tick == now,
                self.next_timer_id == before.next_timer_id,
                goal == all_inserted(self@.slots, taken@.skip(i as int), now),
            decreases taken.len() - i,
        {
            proof {
                assert(taken@.skip(i as int)[0] == taken@[i as int]);
                assert(taken@.skip(i as int).skip(1) =~= taken@.skip(i + 1));
            }
            self.reinsert(taken[i]);
            i += 1;
        }
    }

    fn promote(&mut self)
        requires
            old(self).wf(),
        ensures
            final(self).wf(),
            final(self)@ == (WheelView {
                slots: promoted(old(self)@.slots, 0, old(self).current_tick),
                ..old(self)@
            }),
    {
        let ghost before = self@;
        let ghost now = self.current_tick;
        let ghost goal = promoted(before.slots, 0, now);
        let mut i: usize = 0;
        while i < self.slots[OVERFLOW].len()
            invariant
                self.wf(),
                self.current_tick == now,
                self.next_timer_id == before.next_timer_id,
                i <= self.slots@[448]@.len(),
                goal == promoted(self@.slots, i as int, now),
            decreases self.slots@[448]@.len() - i,
        {
            let entry = self.slots[OVERFLOW][i];
            let delta: u64 = if entry.target_tick > self.current_tick {
                entry.target_tick - self.current_tick
            } else {
                0
            };
            let ghost w = self@;
            assert(w.slots[448] == self.slots@[448]@);
            if delta < LVL3_SPAN {
                let taken = self.slots[OVERFLOW].swap_remove(i);
                proof {
                    assert(taken == entry);
                    assert(self.slots@[448]@ =~= swap_removed(w.slots[448], i as int));
                    assert(self@.slots =~= w.slots.update(
                        448,
                        swap_removed(w.slots[448], i as int),
                    ));
                }
                let ghost mid = self@;
                self.reinsert(taken);
                proof {
                    assert(slot_of(entry.target_tick, now) < 448);
                    assert(self@.slots[448] == mid.slots[448]);
                    assert(self@.slots[448] == self.slots@[448]@);
                }
            } else {
                i += 1;
            }
        }
        assert(self@.slots[448] == self.slots@[448]@);
    }
}

proof fn lemma_filter_step(s: Seq<TimerEntry>, i: int, now: u64)
    requires
        0 <= i < s.len(),
    ensures
        due_of(s.take(i + 1), now) == if due(s[i], now) {
            due_of(s.take(i), now).push(s[i])
        } else {
            due_of(s.take(i), now)
        },
        not_due_of(s.take(i + 1), now) == if due(s[i], now) {
            not_due_of(s.take(i), now)
        } else {
            not_due_of(s.take(i), now).push(s[i])
        },
{
    let t = s.take(i + 1);
    assert(t.drop_last() =~= s.take(i));
    assert(t.last() == s[i]);
    reveal(Seq::filter);
}

impl TimerWheel {
    /// One tick: returns the timers that fire.
    pub fn advance_tick(&mut self) -> (r: Vec<TimerEntry>)
        requires
            old(self).wf(),
        ensures
            final(self).wf(),
            final(self)@ == old(self)@.advanced(),
            r@ == old(self)@.fired(),
    {
        self.current_tick = self.current_tick.wrapping_add(1);
        let tick: u64 = self.current_tick;
        if tick % 256 == 0 {
            self.cascade(256 + (tick / 256 % 64) as usize);
        }
        if tick % 16_384 == 0 {
            self.cascade(320 + (tick / 16_384 % 64) as usize);
        }
        if tick % 1_048_576 == 0 {
            self.cascade(384 + (tick / 1_048_576 % 64) as usize);
            self.promote();
        }
        let slot: usize = (tick % 256) as usize;
        let ghost k = slot as int;
        let ghost w = self@;
        assert(w.slots == sorted_down(old(self)@.slots, tick));
        let mut taken: Vec<TimerEntry> = Vec::new();
        core::mem::swap(&mut self.slots[slot], &mut taken);
        assert(taken@ == w.slots[k]);
        let mut expired: Vec<TimerEntry> = Vec::new();
        let mut remaining: Vec<TimerEntry> = Vec::new();
        let mut i: usize = 0;
        assert(due_of(taken@.take(0), tick) =~= Seq::empty() && not_due_of(taken@.take(0), tick)
            =~= Seq::empty()) by {
            reveal(Seq::filter);
        }
        while i < taken.len()
            invariant
                i <= taken.len(),
                tick == self.current_tick,
                expired@ == due_of(taken@.take(i as int), tick),
                remaining@ == not_due_of(taken@.take(i as int), tick),
            decreases taken.len() - i,
        {
            proof {
                lemma_filter_step(taken@, i as int, tick);
            }
            let entry = taken[i];
            if entry.target_tick <= self.current_tick {
                expired.push(entry);
            } else {
                remaining.push(entry);
            }
            i += 1;
        }
        assert(taken@.take(i as int) =~= taken@);
        core::mem::swap(&mut self.slots[slot], &mut remaining);
        assert(self@.slots =~= w.slots.update(k, not_due_of(w.slots[k], tick)));
        expired
    }

    fn find(&self, wanted: &Wanted, end: usize) -> (r: Option<(usize, usize)>)
        requires
            self.wf(),
            end <= 449,
        ensures
            match r {
                Some((k, i)) => place_of(self@.slots, *wanted, 0, end as int) == Some(
                    (k as int, i as int),
                ) && k < end && i < self.slots@[k as int].len() && is_wanted(
                    self.slots@[k as int]@[i as int],
                    *wanted,
                ),
                None => place_of(self@.slots, *wanted, 0, end as int) is None,
            },
    {
        let mut k: usize = 0;
        while k < end
            invariant
                k <= end <= 449,
                self.wf(),
                place_of(self@.slots, *wanted, 0, end as int) == place_of(
                    self@.slots,
                    *wanted,
                    k as int,
                    end as int,
                ),
            decreases end - k,
        {
            assert(self@.slots[k as int] == self.slots@[k as int]@);
            let i: usize = find_in(&self.slots[k], wanted);
            if i < self.slots[k].len() {
                return Some((k, i));
            }
            k += 1;
        }
        None
    }

    fn take(&mut self, k: usize, i: usize) -> (r: TimerEntry)
        requires
            old(self).wf(),
            k < 449,
            i < old(self).slots@[k as int].len(),
        ensures
            final(self).wf(),
            final(self)@ == old(self)@.without((k as int, i as int)),
            r == old(self)@.slots[k as int][i as int],
    {
        let ghost w = self@;
        assert(w.slots[k as int] == self.slots@[k as int]@);
        let entry = self.slots[k].remove(i);
        assert(self@.slots =~= w.slots.update(k as int, w.slots[k as int].remove(i as int)));
        entry
    }

    /// Takes out the first sleep of a task; returns when it would have ended.
    pub fn cancel_sleep_timer(&mut self, target_tid: u64) -> (r: Option<u64>)
        requires
            old(self).wf(),
        ensures
            final(self).wf(),
            match place_of(old(self)@.slots, Wanted::Sleep(target_tid), 0, 449) {
                Some(p) => r == Some(old(self)@.slots[p.0][p.1].target_tick) && final(self)@
                    == old(self)@.without(p),
                None => r is None && *final(self) == *old(self),
            },
    {
        match self.find(&Wanted::Sleep(target_tid), SLOTS) {
            None => None,
            Some((k, i)) => Some(self.take(k, i).target_tick),
        }
    }

    /// Takes out the interval timer of a process; returns its interval and the
    /// ticks that were left.
    pub fn cancel_itimer(&mut self, target_pid: u64) -> (r: Option<(u64, u64)>)
        requires
            old(self).wf(),
        ensures
            final(self).wf(),
            r == old(self)@.itimer(target_pid),
            match place_of(old(self)@.slots, Wanted::ITimer(target_pid), 0, 449) {
                Some(p) => final(self)@ == old(self)@.without(p),
                None => *final(self) == *old(self),
            },
    {
        let now: u64 = self.current_tick;
        match self.find(&Wanted::ITimer(target_pid), SLOTS) {
            None => None,
            Some((k, i)) => {
                let e = self.take(k, i);
                timer_left(&e, now)
            },
        }
    }

    /// The interval of the interval timer of a process, and the ticks left.
    pub fn get_itimer(&self, target_pid: u64) -> (r: Option<(u64, u64)>)
        requires
            self.wf(),
        ensures
            r == self@.itimer(target_pid),
    {
        match self.find(&Wanted::ITimer(target_pid), SLOTS) {
            None => None,
            Some((k, i)) => {
                assert(self@.slots[k as int] == self.slots@[k as int]@);
                timer_left(&self.slots[k][i], self.current_tick)
            },
        }
    }

    /// Moves a timer to another target, on whatever level it is.
    pub fn rearm_itimer_entry(&mut self, entry_id: u64, target_tick: u64)
        requires
            old(self).wf(),
        ensures
            final(self).wf(),
            final(self)@ == old(self)@.rearmed(entry_id, target_tick),
    {
        if let Some((k, i)) = self.find(&Wanted::Id(entry_id), SLOTS) {
            let e = self.take(k, i);
            self.reinsert(TimerEntry { target_tick, ..e });
        }
    }
}

fn timer_left(e: &TimerEntry, now: u64) -> (r: Option<(u64, u64)>)
    ensures
        r == left_of(*e, now),
{
    match e.kind {
        TimerKind::ITimerReal { pid: _, interval_ticks } => {
            let left: u64 = if e.target_tick > now {
                e.target_tick - now
            } else {
                0
            };
            Some((interval_ticks, left))
        },
        _ => None,
    }
}

/// The interval of an interval timer, and the ticks left to it.
pub open spec fn left_of(e: TimerEntry, now: u64) -> Option<(u64, u64)> {
    match e.kind {
        TimerKind::ITimerReal { pid, interval_ticks } => Some(
            (interval_ticks, ahead(e.target_tick, now) as u64),
        ),
        _ => None,
    }
}

impl WheelView {
    pub open spec fn itimer(self, pid: u64) -> Option<(u64, u64)> {
        match place_of(self.slots, Wanted::ITimer(pid), 0, 449) {
            Some(p) => left_of(self.slots[p.0][p.1], self.current_tick),
            None => None,
        }
    }

    pub open spec fn rearmed(self, id: u64, target_tick: u64) -> WheelView {
        match place_of(self.slots, Wanted::Id(id), 0, 449) {
            Some(p) => WheelView {
                slots: inserted(
                    self.without(p).slots,
                    TimerEntry { target_tick, ..self.slots[p.0][p.1] },
                    self.current_tick,
                ),
                ..self
            },
            None => self,
        }
    }

    /// The wheel without the interval timer of a process.
    pub open spec fn itimer_dropped(self, pid: u64) -> WheelView {
        match place_of(self.slots, Wanted::ITimer(pid), 0, 449) {
            Some(p) => self.without(p),
            None => self,
        }
    }
}

// ---------------------------------------------------------------------------
// The system's time
// ---------------------------------------------------------------------------
/// The wheel, the ticks since the start, and the real time at the start in
/// seconds.
pub struct Timers {
    pub wheel: TimerWheel,
    pub global_ticks: u64,
    pub realtime_base_sec: i64,
}

impl Timers {
    pub open spec fn wf(&self) -> bool {
        self.wheel.wf()
    }

    pub fn new() -> (r: Self)
        ensures
            r.wf(),
            r.global_ticks == 0,
            r.realtime_base_sec == 1_700_000_000,
            r.wheel.current_tick == 0,
            r.wheel.next_timer_id == 1,
            r.wheel@.slots == Seq::new(449, |k: int| Seq::<TimerEntry>::empty()),
    {
        Timers { wheel: TimerWheel::new(), global_ticks: 0, realtime_base_sec: 1_700_000_000 }
    }
}

pub open spec fn later(tick: u64, by: u64) -> u64 {
    if tick + by > u64::MAX {
        u64::MAX
    } else {
        (tick + by) as u64
    }
}

/// One tick; returns the timers that fire.
pub fn tick(timers: &mut Timers) -> (r: Vec<TimerEntry>)
    requires
        old(timers).wf(),
    ensures
        final(timers).wf(),
        final(timers).global_ticks == old(timers).global_ticks.wrapping_add(1),
        final(timers).realtime_base_sec == old(timers).realtime_base_sec,
        final(timers).wheel@ == old(timers).wheel@.advanced(),
        r@ == old(timers).wheel@.fired(),
{
    timers.global_ticks = timers.global_ticks.wrapping_add(1);
    timers.wheel.advance_tick()
}

pub fn current_tick(timers: &Timers) -> (r: u64)
    ensures
        r == timers.global_ticks,
{
    timers.global_ticks
}

pub fn current_monotonic_ms(timers: &Timers) -> (r: u64)
    ensures
        r == timers.global_ticks,
{
    current_tick(timers)
}

/// Wakes a task after at least one tick; returns when.
pub fn add_sleep_timer(timers: &mut Timers, tid: u64, duration_ms: u64) -> (r: u64)
    requires
        old(timers).wf(),
    ensures
        final(timers).wf(),
        final(timers).global_ticks == old(timers).global_ticks,
        final(timers).realtime_base_sec == old(timers).realtime_base_sec,
        r == later(
            old(timers).wheel.current_tick,
            if duration_ms == 0 {
                1
            } else {
                duration_ms
            },
        ),
        final(timers).wheel@ == old(timers).wheel@.added(r, TimerKind::Sleep { tid }),
{
    let duration: u64 = if duration_ms == 0 {
        1
    } else {
        duration_ms
    };
    let target: u64 = timers.wheel.current_tick.saturating_add(duration);
    timers.wheel.add_timer(target, TimerKind::Sleep { tid });
    target
}

pub fn cancel_sleep_timer(timers: &mut Timers, tid: u64) -> (r: Option<u64>)
    requires
        old(timers).wf(),
    ensures
        final(timers).wf(),
        final(timers).global_ticks == old(timers).global_ticks,
        final(timers).realtime_base_sec == old(timers).realtime_base_sec,
        match place_of(old(timers).wheel@.slots, Wanted::Sleep(tid), 0, 449) {
            Some(p) => r == Some(old(timers).wheel@.slots[p.0][p.1].target_tick) && final(
                timers).wheel@ == old(timers).wheel@.without(p),
            None => r is None && final(timers).wheel == old(timers).wheel,
        },
{
    timers.wheel.cancel_sleep_timer(tid)
}

/// Sets the interval timer of a process; returns the interval and the ticks
/// left of the one before.
pub fn set_itimer(timers: &mut Timers, pid: u64, which: u32, interval_ms: u64, value_ms: u64) -> (r: (
    u64,
    u64,
))
    requires
        old(timers).wf(),
    ensures
        final(timers).wf(),
        final(timers).global_ticks == old(timers).global_ticks,
        final(timers).realtime_base_sec == old(timers).realtime_base_sec,
        r == (match old(timers).wheel@.itimer(pid) {
            Some(left) => left,
            None => (0, 0),
        }),
        final(timers).wheel@ == if value_ms > 0 && which == 0 {
            old(timers).wheel@.itimer_dropped(pid).added(
                later(old(timers).wheel.current_tick, value_ms),
                TimerKind::ITimerReal { pid, interval_ticks: interval_ms },
            )
        } else {
            old(timers).wheel@.itimer_dropped(pid)
        },
{
    let before = match timers.wheel.cancel_itimer(pid) {
        Some(left) => left,
        None => (0, 0),
    };
    if value_ms > 0 && which == 0 {
        let target: u64 = timers.wheel.current_tick.saturating_add(value_ms);
        timers.wheel.add_timer(target, TimerKind::ITimerReal { pid, interval_ticks: interval_ms });
    }
    before
}

pub fn get_itimer(timers: &Timers, pid: u64, which: u32) -> (r: (u64, u64))
    requires
        timers.wf(),
    ensures
        r == (match timers.wheel@.itimer(pid) {
            Some(left) if which == 0 => left,
            _ => (0, 0),
        }),
{
    if which != 0 {
        return (0, 0);
    }
    match timers.wheel.get_itimer(pid) {
        Some(left) => left,
        None => (0, 0),
    }
}

pub fn rearm_itimer(timers: &mut Timers, entry_id: u64, interval_ticks: u64)
    requires
        old(timers).wf(),
    ensures
        final(timers).wf(),
        final(timers).global_ticks == old(timers).global_ticks,
        final(timers).realtime_base_sec == old(timers).realtime_base_sec,
        final(timers).wheel@ == old(timers).wheel@.rearmed(
            entry_id,
            later(old(timers).wheel.current_tick, interval_ticks),
        ),
{
    let target: u64 = timers.wheel.current_tick.saturating_add(interval_ticks);
    timers.wheel.rearm_itimer_entry(entry_id, target);
}

/// The seconds of a clock, a count from the start of `base` seconds.
pub open spec fn clock_seconds(base: i64, sec: u64) -> u64 {
    if base >= 0 {
        (base as u64).wrapping_add(sec)
    } else {
        sec.wrapping_sub((-base) as u64)
    }
}

/// The time of a clock, in seconds and nanoseconds. Clock 0 is the real time;
/// all others count from the start.
pub fn get_clock_time(timers: &Timers, clock_id: u64) -> (r: (u64, u64))
    ensures
        r.0 == if clock_id == 0 {
            clock_seconds(timers.realtime_base_sec, timers.global_ticks / 1000)
        } else {
            timers.global_ticks / 1000
        },
        r.1 == timers.global_ticks % 1000 * 1_000_000,
{
    let sec: u64 = timers.global_ticks / 1000;
    let nsec: u64 = timers.global_ticks % 1000 * 1_000_000;
    if clock_id != 0 {
        return (sec, nsec);
    }
    let base: i64 = timers.realtime_base_sec;
    if base >= 0 {
        ((base as u64).wrapping_add(sec), nsec)
    } else {
        let back: u64 = (-(base + 1)) as u64 + 1;
        (sec.wrapping_sub(back), nsec)
    }
}

/// Sets the real time.
pub fn set_clock_time(timers: &mut Timers, clock_id: u64, sec: u64, nsec: u64) -> (r: Result<(), ()>)
    requires
        sec <= i64::MAX || sec - old(timers).global_ticks / 1000 > i64::MAX,
    ensures
        r is Ok <==> clock_id == 0,
        r is Err ==> *final(timers) == *old(timers),
        r is Ok ==> final(timers).wheel == old(timers).wheel && final(timers).global_ticks == old(
            timers).global_ticks && final(timers).realtime_base_sec == (if sec <= i64::MAX {
            sec as int
        } else {
            sec - 0x1_0000_0000_0000_0000
        }) - old(timers).global_ticks / 1000,
{
    if clock_id != 0 {
        return Err(());
    }
    let current: i64 = (timers.global_ticks / 1000) as i64;
    let wanted: i64 = if sec <= i64::MAX as u64 {
        sec as i64
    } else {
        -((u64::MAX - sec) as i64) - 1
    };
    timers.realtime_base_sec = wanted - current;
    Ok(())
}

/// The real time that was set is read back.
pub proof fn law_clock_set_then_get(base: int, sec: u64, elapsed: u64)
    requires
        sec <= i64::MAX,
        elapsed <= u64::MAX / 1000,
        base == sec - elapsed,
    ensures
        i64::MIN <= base <= i64::MAX,
        clock_seconds(base as i64, elapsed) == sec,
{
}

// ---------------------------------------------------------------------------
// Timers fire on time
// ---------------------------------------------------------------------------
/// Whether a slot is the right one for a target that has not passed: of the
/// lowest level, the target's own; of a higher one, the target's, which is
/// sorted down before the target comes; aside, a target far ahead.
pub open spec fn right_slot(k: int, t: u64, now: u64) -> bool {
    if k < 256 {
        now <= t <= now + 255 && k == t % 256
    } else if k < 320 {
        now / 256 < t / 256 <= now / 256 + 64 && k - 256 == t / 256 % 64
    } else if k < 384 {
        now / 16_384 < t / 16_384 <= now / 16_384 + 64 && k - 320 == t / 16_384 % 64
    } else if k < 448 {
        now / 1_048_576 < t / 1_048_576 <= now / 1_048_576 + 64 && k - 384 == t / 1_048_576 % 64
    } else {
        t >= now / 1_048_576 * 1_048_576 + 67_108_864
    }
}

pub open spec fn holds(slots: Seq<Seq<TimerEntry>>, e: TimerEntry) -> bool {
    exists|k: int| 0 <= k < slots.len() && (#[trigger] slots[k]).contains(e)
}

impl WheelView {
    /// All timers are still to come, and are in the right slots.
    pub open spec fn in_time(self) -> bool {
        &&& self.slots.len() == 449
        &&& forall|k: int, e: TimerEntry|
            0 <= k < 449 && #[trigger] self.slots[k].contains(e) ==> e.target_tick
                > self.current_tick && right_slot(k, e.target_tick, self.current_tick)
    }
}

spec fn level(k: int) -> int {
    if k < 256 {
        0
    } else if k < 320 {
        1
    } else if k < 384 {
        2
    } else if k < 448 {
        3
    } else {
        4
    }
}

/// The slots while a tick begins: up to level `done` they are right for it,
/// above they still are for the tick before.
spec fn settled(slots: Seq<Seq<TimerEntry>>, now: u64, done: int) -> bool {
    &&& slots.len() == 449
    &&& now > 0
    &&& forall|k: int, e: TimerEntry|
        0 <= k < 449 && #[trigger] slots[k].contains(e) ==> settled_at(k, e.target_tick, now, done)
}

spec fn settled_at(k: int, t: u64, now: u64, done: int) -> bool {
    &&& t >= now
    &&& if level(k) <= done {
        right_slot(k, t, now)
    } else {
        right_slot(k, t, (now - 1) as u64)
    }
}

spec fn width(j: int) -> int {
    if j == 1 {
        256
    } else if j == 2 {
        16_384
    } else {
        1_048_576
    }
}

spec fn first_slot(j: int) -> int {
    if j == 1 {
        256
    } else if j == 2 {
        320
    } else {
        384
    }
}

proof fn lemma_right_slot(t: u64, now: u64)
    requires
        now <= t,
    ensures
        0 <= slot_of(t, now) < 449,
        right_slot(slot_of(t, now), t, now),
        t - now < 256 ==> level(slot_of(t, now)) == 0,
        t - now < 16_384 ==> level(slot_of(t, now)) <= 1,
        t - now < 1_048_576 ==> level(slot_of(t, now)) <= 2,
        t - now < 67_108_864 ==> level(slot_of(t, now)) <= 3,
{
}

proof fn lemma_contains_push(s: Seq<TimerEntry>, x: TimerEntry, e: TimerEntry)
    ensures
        s.push(x).contains(e) == (s.contains(e) || e == x),
{
    let t = s.push(x);
    if s.contains(e) {
        assert(t[s.index_of(e)] == e);
    }
    if e == x {
        assert(t[s.len() as int] == e);
    }
    if t.contains(e) {
        let j = t.index_of(e);
        if j < s.len() {
            assert(s[j] == e);
        }
    }
}

proof fn lemma_inserted(slots: Seq<Seq<TimerEntry>>, x: TimerEntry, now: u64, done: int)
    requires
        settled(slots, now, done),
        x.target_tick >= now,
        level(slot_of(x.target_tick, now)) <= done,
    ensures
        settled(inserted(slots, x, now), now, done),
        forall|e: TimerEntry| #[trigger]
            holds(inserted(slots, x, now), e) == (holds(slots, e) || e == x),
{
    let k = slot_of(x.target_tick, now);
    lemma_right_slot(x.target_tick, now);
    let after = inserted(slots, x, now);
    assert forall|j: int, e: TimerEntry| 0 <= j < 449 && #[trigger] after[j].contains(e) implies settled_at(
        j,
        e.target_tick,
        now,
        done,
    ) by {
        lemma_contains_push(slots[k], x, e);
        if j != k {
            assert(slots[j].contains(e));
        } else if e != x {
            assert(slots[k].contains(e));
        }
    }
    assert forall|e: TimerEntry| #[trigger] holds(after, e) == (holds(slots, e) || e == x) by {
        lemma_contains_push(slots[k], x, e);
        if holds(slots, e) {
            let j = choose|j: int| 0 <= j < slots.len() && (#[trigger] slots[j]).contains(e);
            if j == k {
                assert(after[k].contains(e));
            } else {
                assert(after[j].contains(e));
            }
        }
        if e == x {
            assert(after[k].contains(e));
        }
        if holds(after, e) {
            let j = choose|j: int| 0 <= j < after.len() && (#[trigger] after[j]).contains(e);
            if j != k {
                assert(slots[j].contains(e));
            } else if e != x {
                assert(slots[k].contains(e));
            }
        }
    }
}

proof fn lemma_all_inserted(
    slots: Seq<Seq<TimerEntry>>,
    entries: Seq<TimerEntry>,
    now: u64,
    done: int,
)
    requires
        settled(slots, now, done),
        forall|i: int|
            0 <= i < entries.len() ==> (#[trigger] entries[i]).target_tick >= now && level(
                slot_of(entries[i].target_tick, now),
            ) <= done,
    ensures
        settled(all_inserted(slots, entries, now), now, done),
        forall|e: TimerEntry| #[trigger]
            holds(all_inserted(slots, entries, now), e) == (holds(slots, e) || entries.contains(e)),
    decreases entries.len(),
{
    if entries.len() > 0 {
        let x = entries[0];
        lemma_inserted(slots, x, now, done);
        let mid = inserted(slots, x, now);
        let rest = entries.skip(1);
        assert forall|i: int| 0 <= i < rest.len() implies (#[trigger] rest[i]).target_tick >= now
            && level(slot_of(rest[i].target_tick, now)) <= done by {
            assert(rest[i] == entries[i + 1]);
        }
        lemma_all_inserted(mid, rest, now, done);
        assert forall|e: TimerEntry| #[trigger]
            holds(all_inserted(slots, entries, now), e) == (holds(slots, e) || entries.contains(
                e,
            )) by {
            assert(holds(mid, e) == (holds(slots, e) || e == x));
            if rest.contains(e) {
                assert(entries[rest.index_of(e) + 1] == e);
            }
            if entries.contains(e) && e != x {
                assert(rest[entries.index_of(e) - 1] == e);
            }
        }
    }
}

/// The slots once level `j` was sorted down, if its time has come.
spec fn turned(slots: Seq<Seq<TimerEntry>>, now: u64, j: int) -> Seq<Seq<TimerEntry>> {
    if now as int % width(j) == 0 {
        cascaded(slots, first_slot(j) + now as int / width(j) % 64, now)
    } else {
        slots
    }
}

/// Sorting down one level when its time has come.
proof fn lemma_stage(slots: Seq<Seq<TimerEntry>>, now: u64, j: int)
    requires
        1 <= j <= 3,
        settled(slots, now, j - 1),
    ensures
        settled(turned(slots, now, j), now, j),
        forall|e: TimerEntry| #[trigger] holds(turned(slots, now, j), e) == holds(slots, e),
{
    let u = width(j);
    let b = first_slot(j);
    if now as int % u == 0 {
        let k = b + now as int / u % 64;
        let taken = slots[k];
        let emptied = slots.update(k, Seq::empty());
        assert forall|i: int, e: TimerEntry| 0 <= i < 449 && #[trigger] emptied[i].contains(e) implies settled_at(
            i,
            e.target_tick,
            now,
            j,
        ) by {
            assert(i != k);
            assert(slots[i].contains(e));
            assert(settled_at(i, e.target_tick, now, j - 1));
            if level(i) == j {
                lemma_turn(e.target_tick, now, j, i);
            }
        }
        assert forall|i: int| 0 <= i < taken.len() implies (#[trigger] taken[i]).target_tick >= now
            && level(slot_of(taken[i].target_tick, now)) <= j by {
            assert(slots[k].contains(taken[i]));
            assert(settled_at(k, taken[i].target_tick, now, j - 1));
            lemma_turn(taken[i].target_tick, now, j, k);
            lemma_right_slot(taken[i].target_tick, now);
        }
        lemma_all_inserted(emptied, taken, now, j);
        let after = cascaded(slots, k, now);
        assert forall|e: TimerEntry| #[trigger] holds(after, e) == holds(slots, e) by {
            if holds(slots, e) {
                let i = choose|i: int| 0 <= i < slots.len() && (#[trigger] slots[i]).contains(e);
                if i != k {
                    assert(emptied[i].contains(e));
                }
            }
            if holds(emptied, e) {
                let i = choose|i: int|
                    0 <= i < emptied.len() && (#[trigger] emptied[i]).contains(e);
                assert(i != k);
                assert(slots[i].contains(e));
            }
            if taken.contains(e) {
                assert(slots[k].contains(e));
            }
        }
    } else {
        assert forall|i: int, e: TimerEntry| 0 <= i < 449 && #[trigger] slots[i].contains(e) implies settled_at(
            i,
            e.target_tick,
            now,
            j,
        ) by {
            assert(settled_at(i, e.target_tick, now, j - 1));
            if level(i) == j {
                assert((now - 1) / u == now as int / u) by {
                    if j == 1 {
                        assert((now - 1) / 256 == now as int / 256);
                    } else if j == 2 {
                        assert((now - 1) / 16_384 == now as int / 16_384);
                    } else {
                        assert((now - 1) / 1_048_576 == now as int / 1_048_576);
                    }
                }
            }
        }
    }
}

/// When a level turns, the timers of the slot that comes up are less than one
/// slot ahead, and those of the others more.
proof fn lemma_turn(t: u64, now: u64, j: int, i: int)
    requires
        1 <= j <= 3,
        now > 0,
        now as int % width(j) == 0,
        t >= now,
        level(i) == j,
        right_slot(i, t, (now - 1) as u64),
    ensures
        i == first_slot(j) + now as int / width(j) % 64 ==> t - now < width(j),
        i != first_slot(j) + now as int / width(j) % 64 ==> right_slot(i, t, now),
{
    if j == 1 {
        assert((now - 1) / 256 == now as int / 256 - 1);
        let a = t as int / 256;
        let b = now as int / 256;
        assert(b <= a <= b + 63);
        assert(a % 64 == b % 64 ==> a == b);
    } else if j == 2 {
        assert((now - 1) / 16_384 == now as int / 16_384 - 1);
        let a = t as int / 16_384;
        let b = now as int / 16_384;
        assert(b <= a <= b + 63);
        assert(a % 64 == b % 64 ==> a == b);
    } else {
        assert((now - 1) / 1_048_576 == now as int / 1_048_576 - 1);
        let a = t as int / 1_048_576;
        let b = now as int / 1_048_576;
        assert(b <= a <= b + 63);
        assert(a % 64 == b % 64 ==> a == b);
    }
}

proof fn lemma_swap_removed(s: Seq<TimerEntry>, i: int, e: TimerEntry)
    requires
        0 <= i < s.len(),
    ensures
        s.contains(e) == (swap_removed(s, i).contains(e) || e == s[i]),
{
    let r = swap_removed(s, i);
    if s.contains(e) && e != s[i] {
        let j = s.index_of(e);
        if j == s.len() - 1 {
            assert(r[i] == e);
        } else {
            assert(r[j] == e);
        }
    }
    if r.contains(e) {
        let j = r.index_of(e);
        if j == i {
            assert(s[s.len() - 1] == e);
        } else {
            assert(s[j] == e);
        }
    }
}

/// Sorting in what waits aside: what is left there is far ahead.
proof fn lemma_promoted(slots: Seq<Seq<TimerEntry>>, i: int, now: u64)
    requires
        settled(slots, now, 3),
        0 <= i <= slots[448].len(),
        forall|x: int|
            0 <= x < i ==> (#[trigger] slots[448][x]).target_tick - now >= 67_108_864,
    ensures
        settled(promoted(slots, i, now), now, 3),
        forall|x: int|
            0 <= x < promoted(slots, i, now)[448].len() ==> (#[trigger] promoted(
                slots,
                i,
                now,
            )[448][x]).target_tick - now >= 67_108_864,
        forall|e: TimerEntry| #[trigger] holds(promoted(slots, i, now), e) == holds(slots, e),
    decreases slots[448].len() - i,
{
    let waiting = slots[448];
    if i < waiting.len() {
        let x = waiting[i];
        assert(slots[448].contains(x));
        assert(settled_at(448, x.target_tick, now, 3));
        if ahead(x.target_tick, now) < 67_108_864 {
            let mid = slots.update(448, swap_removed(waiting, i));
            assert forall|k: int, e: TimerEntry| 0 <= k < 449 && #[trigger] mid[k].contains(e) implies settled_at(
                k,
                e.target_tick,
                now,
                3,
            ) by {
                lemma_swap_removed(waiting, i, e);
                assert(slots[k].contains(e));
            }
            lemma_right_slot(x.target_tick, now);
            lemma_inserted(mid, x, now, 3);
            let next = inserted(mid, x, now);
            assert(next[448] == mid[448]);
            assert forall|y: int| 0 <= y < i implies (#[trigger] next[448][y]).target_tick - now
                >= 67_108_864 by {
                assert(next[448][y] == waiting[y]);
                assert(slots[448][y] == waiting[y]);
            }
            lemma_promoted(next, i, now);
            assert forall|e: TimerEntry| #[trigger]
                holds(promoted(slots, i, now), e) == holds(slots, e) by {
                assert(holds(next, e) == (holds(mid, e) || e == x));
                lemma_swap_removed(waiting, i, e);
                if holds(slots, e) {
                    let k = choose|k: int|
                        0 <= k < slots.len() && (#[trigger] slots[k]).contains(e);
                    if k != 448 {
                        assert(mid[k].contains(e));
                    } else if e != x {
                        assert(mid[448].contains(e));
                    }
                }
                if holds(mid, e) {
                    let k = choose|k: int| 0 <= k < mid.len() && (#[trigger] mid[k]).contains(e);
                    assert(slots[k].contains(e));
                }
                if e == x {
                    assert(slots[448].contains(e));
                }
            }
        } else {
            lemma_promoted(slots, i + 1, now);
        }
    }
}

proof fn lemma_due(s: Seq<TimerEntry>, now: u64, e: TimerEntry)
    ensures
        due_of(s, now).contains(e) == (s.contains(e) && due(e, now)),
        not_due_of(s, now).contains(e) == (s.contains(e) && !due(e, now)),
    decreases s.len(),
{
    reveal(Seq::filter);
    if s.len() > 0 {
        let last = s.last();
        let rest = s.drop_last();
        lemma_due(rest, now, e);
        assert(rest.push(last) =~= s);
        lemma_contains_push(rest, last, e);
        lemma_contains_push(due_of(rest, now), last, e);
        lemma_contains_push(not_due_of(rest, now), last, e);
    }
}

proof fn lemma_next_tick(k: int, t: u64, before: u64)
    requires
        before < u64::MAX,
        right_slot(k, t, before),
        t > before,
    ensures
        settled_at(k, t, (before + 1) as u64, 0),
{
}

proof fn lemma_all_settled(k: int, t: u64, now: u64)
    requires
        now > 0,
        settled_at(k, t, now, 3),
        now % 1_048_576 == 0 && k >= 448 ==> t - now >= 67_108_864,
    ensures
        t >= now,
        right_slot(k, t, now),
{
    if k >= 448 {
        if now % 1_048_576 == 0 {
            assert(now / 1_048_576 * 1_048_576 == now);
        } else {
            assert((now - 1) / 1_048_576 == now as int / 1_048_576);
        }
    }
}

/// The slots of a wheel in time, once a tick has begun.
#[verifier::spinoff_prover]
#[verifier::rlimit(100)]
proof fn lemma_sorted_down(w: WheelView)
    requires
        w.in_time(),
        w.current_tick < u64::MAX,
    ensures
        ({
            let now = (w.current_tick + 1) as u64;
            let slots = sorted_down(w.slots, now);
            &&& slots.len() == 449
            &&& forall|k: int, e: TimerEntry|
                0 <= k < 449 && #[trigger] slots[k].contains(e) ==> e.target_tick >= now
                    && right_slot(k, e.target_tick, now)
            &&& forall|e: TimerEntry| #[trigger] holds(slots, e) == holds(w.slots, e)
        }),
{
    let now = (w.current_tick + 1) as u64;
    assert forall|k: int, e: TimerEntry| 0 <= k < 449 && #[trigger] w.slots[k].contains(e) implies settled_at(
        k,
        e.target_tick,
        now,
        0,
    ) by {
        lemma_next_tick(k, e.target_tick, w.current_tick);
    }
    assert(settled(w.slots, now, 0));
    lemma_stage(w.slots, now, 1);
    let s1 = turned(w.slots, now, 1);
    lemma_stage(s1, now, 2);
    let s2 = turned(s1, now, 2);
    lemma_stage(s2, now, 3);
    let s3 = turned(s2, now, 3);
    let slots = sorted_down(w.slots, now);
    if now % 1_048_576 == 0 {
        lemma_promoted(s3, 0, now);
        assert(slots == promoted(s3, 0, now));
        assert forall|k: int, e: TimerEntry| 0 <= k < 449 && #[trigger] slots[k].contains(e) implies e.target_tick
            >= now && right_slot(k, e.target_tick, now) by {
            assert(settled_at(k, e.target_tick, now, 3));
            if k == 448 {
                let x = slots[448].index_of(e);
                assert(slots[448][x] == e);
            }
            lemma_all_settled(k, e.target_tick, now);
        }
    } else {
        assert(slots == s3);
        assert forall|k: int, e: TimerEntry| 0 <= k < 449 && #[trigger] slots[k].contains(e) implies e.target_tick
            >= now && right_slot(k, e.target_tick, now) by {
            assert(settled_at(k, e.target_tick, now, 3));
            lemma_all_settled(k, e.target_tick, now);
        }
    }
    assert forall|e: TimerEntry| #[trigger] holds(slots, e) == holds(w.slots, e) by {
        assert(holds(s1, e) == holds(w.slots, e));
        assert(holds(s2, e) == holds(s1, e));
        assert(holds(s3, e) == holds(s2, e));
    }
}

/// Timers fire on time. If all timers are still to come and in the right
/// slots, a tick fires exactly those whose target it is; the others stay, still
/// to come and in the right slots.
pub proof fn law_timers_fire_on_time(w: WheelView, e: TimerEntry)
    requires
        w.in_time(),
        w.current_tick < u64::MAX,
    ensures
        w.advanced().in_time(),
        w.fired().contains(e) <==> holds(w.slots, e) && e.target_tick == w.current_tick + 1,
        holds(w.advanced().slots, e) <==> holds(w.slots, e) && e.target_tick > w.current_tick + 1,
{
    let now = (w.current_tick + 1) as u64;
    assert(w.current_tick.wrapping_add(1) == now);
    lemma_sorted_down(w);
    let slots = sorted_down(w.slots, now);
    let n = (now % 256) as int;
    let after = w.advanced();
    assert(after.slots == slots.update(n, not_due_of(slots[n], now)));
    lemma_due(slots[n], now, e);
    assert(holds(slots, e) == holds(w.slots, e));
    if holds(slots, e) {
        let k = choose|k: int| 0 <= k < slots.len() && (#[trigger] slots[k]).contains(e);
        assert(right_slot(k, e.target_tick, now));
        if e.target_tick == now {
            assert(k == n);
        } else {
            if k == n {
                assert(after.slots[n].contains(e));
            } else {
                assert(after.slots[k].contains(e));
            }
        }
    }
    if slots[n].contains(e) {
        assert(holds(slots, e));
    }
    if holds(after.slots, e) {
        let k = choose|k: int|
            0 <= k < after.slots.len() && (#[trigger] after.slots[k]).contains(e);
        if k != n {
            assert(slots[k].contains(e));
            assert(right_slot(k, e.target_tick, now));
        }
    }
    assert forall|k: int, x: TimerEntry| 0 <= k < 449 && #[trigger] after.slots[k].contains(x) implies x.target_tick
        > now && right_slot(k, x.target_tick, now) by {
        lemma_due(slots[n], now, x);
        assert(slots[k].contains(x));
        assert(right_slot(k, x.target_tick, now));
    }
}

/// A new timer that is still to come keeps the wheel in time.
pub proof fn law_added_in_time(w: WheelView, target: u64, kind: TimerKind)
    requires
        w.in_time(),
        target > w.current_tick,
    ensures
        w.added(target, kind).in_time(),
        holds(
            w.added(target, kind).slots,
            TimerEntry { id: w.next_timer_id, target_tick: target, kind },
        ),
{
    let x = TimerEntry { id: w.next_timer_id, target_tick: target, kind };
    let k = slot_of(target, w.current_tick);
    lemma_right_slot(target, w.current_tick);
    let after = w.added(target, kind);
    assert forall|j: int, e: TimerEntry| 0 <= j < 449 && #[trigger] after.slots[j].contains(e) implies e.target_tick
        > w.current_tick && right_slot(j, e.target_tick, w.current_tick) by {
        lemma_contains_push(w.slots[k], x, e);
        if j != k || e != x {
            assert(w.slots[j].contains(e));
        }
    }
    lemma_contains_push(w.slots[k], x, x);
    assert(after.slots[k].contains(x));
}

// ---------------------------------------------------------------------------
// Timers fire once
// ---------------------------------------------------------------------------
spec fn one_if(b: bool) -> int {
    if b {
        1
    } else {
        0
    }
}

/// How often a timer is in a slot.
pub open spec fn count_of(s: Seq<TimerEntry>, e: TimerEntry) -> int
    decreases s.len(),
{
    if s.len() == 0 {
        0
    } else {
        count_of(s.drop_last(), e) + if s.last() == e {
            1int
        } else {
            0
        }
    }
}

/// How often a timer is in the slots from number `k` on.
pub open spec fn count_from(slots: Seq<Seq<TimerEntry>>, e: TimerEntry, k: int) -> int
    decreases slots.len() - k,
{
    if k >= slots.len() {
        0
    } else {
        count_of(slots[k], e) + count_from(slots, e, k + 1)
    }
}

impl WheelView {
    /// How often a timer is on the wheel.
    pub open spec fn count(self, e: TimerEntry) -> int {
        count_from(self.slots, e, 0)
    }
}

proof fn lemma_count_push(s: Seq<TimerEntry>, x: TimerEntry, e: TimerEntry)
    ensures
        count_of(s.push(x), e) == count_of(s, e) + one_if(x == e),
{
    assert(s.push(x).drop_last() =~= s);
}

proof fn lemma_count_first(s: Seq<TimerEntry>, e: TimerEntry)
    requires
        s.len() > 0,
    ensures
        count_of(s, e) == one_if(s[0] == e) + count_of(s.skip(1), e),
    decreases s.len(),
{
    if s.len() == 1 {
        assert(s.skip(1) =~= Seq::<TimerEntry>::empty());
        assert(s.drop_last() =~= Seq::<TimerEntry>::empty());
    } else {
        lemma_count_first(s.drop_last(), e);
        assert(s.drop_last().skip(1) =~= s.skip(1).drop_last());
    }
}

proof fn lemma_count_update(s: Seq<TimerEntry>, i: int, x: TimerEntry, e: TimerEntry)
    requires
        0 <= i < s.len(),
    ensures
        count_of(s.update(i, x), e) == count_of(s, e) - one_if(s[i] == e) + one_if(x == e),
    decreases s.len(),
{
    if i == s.len() - 1 {
        assert(s.update(i, x).drop_last() =~= s.drop_last());
    } else {
        lemma_count_update(s.drop_last(), i, x, e);
        assert(s.update(i, x).drop_last() =~= s.drop_last().update(i, x));
    }
}

proof fn lemma_count_remove(s: Seq<TimerEntry>, i: int, e: TimerEntry)
    requires
        0 <= i < s.len(),
    ensures
        count_of(s.remove(i), e) == count_of(s, e) - one_if(s[i] == e),
    decreases s.len(),
{
    if i == s.len() - 1 {
        assert(s.remove(i) =~= s.drop_last());
    } else {
        lemma_count_remove(s.drop_last(), i, e);
        assert(s.remove(i).drop_last() =~= s.drop_last().remove(i));
        assert(s.remove(i).last() == s.last());
    }
}

proof fn lemma_count_split(s: Seq<TimerEntry>, now: u64, e: TimerEntry)
    ensures
        count_of(due_of(s, now), e) + count_of(not_due_of(s, now), e) == count_of(s, e),
    decreases s.len(),
{
    reveal(Seq::filter);
    if s.len() > 0 {
        lemma_count_split(s.drop_last(), now, e);
        lemma_count_push(due_of(s.drop_last(), now), s.last(), e);
        lemma_count_push(not_due_of(s.drop_last(), now), s.last(), e);
    }
}

proof fn lemma_count_contains(s: Seq<TimerEntry>, e: TimerEntry)
    ensures
        count_of(s, e) >= 0,
        count_of(s, e) > 0 <==> s.contains(e),
    decreases s.len(),
{
    if s.len() > 0 {
        lemma_count_contains(s.drop_last(), e);
        assert(s.drop_last().push(s.last()) =~= s);
        lemma_contains_push(s.drop_last(), s.last(), e);
    }
}

proof fn lemma_count_slot(
    slots: Seq<Seq<TimerEntry>>,
    j: int,
    s: Seq<TimerEntry>,
    e: TimerEntry,
    k: int,
)
    requires
        0 <= j < slots.len(),
        0 <= k,
    ensures
        count_from(slots.update(j, s), e, k) == count_from(slots, e, k) + if k <= j {
            count_of(s, e) - count_of(slots[j], e)
        } else {
            0
        },
    decreases slots.len() - k,
{
    if k < slots.len() {
        lemma_count_slot(slots, j, s, e, k + 1);
    }
}

proof fn lemma_count_holds(slots: Seq<Seq<TimerEntry>>, e: TimerEntry, k: int)
    requires
        0 <= k,
    ensures
        count_from(slots, e, k) >= 0,
        count_from(slots, e, k) > 0 <==> exists|j: int|
            k <= j < slots.len() && (#[trigger] slots[j]).contains(e),
    decreases slots.len() - k,
{
    if k < slots.len() {
        lemma_count_holds(slots, e, k + 1);
        lemma_count_contains(slots[k], e);
        if slots[k].contains(e) {
        } else if count_from(slots, e, k) > 0 {
            let j = choose|j: int| k + 1 <= j < slots.len() && (#[trigger] slots[j]).contains(e);
            assert(slots[j].contains(e));
        }
    }
}

proof fn lemma_slot_inside(t: u64, now: u64)
    ensures
        0 <= slot_of(t, now) < 449,
{
}

proof fn lemma_count_inserted(
    slots: Seq<Seq<TimerEntry>>,
    x: TimerEntry,
    now: u64,
    e: TimerEntry,
)
    requires
        slots.len() == 449,
    ensures
        inserted(slots, x, now).len() == 449,
        count_from(inserted(slots, x, now), e, 0) == count_from(slots, e, 0) + one_if(x == e),
{
    let k = slot_of(x.target_tick, now);
    lemma_slot_inside(x.target_tick, now);
    lemma_count_push(slots[k], x, e);
    lemma_count_slot(slots, k, slots[k].push(x), e, 0);
}

proof fn lemma_count_all_inserted(
    slots: Seq<Seq<TimerEntry>>,
    entries: Seq<TimerEntry>,
    now: u64,
    e: TimerEntry,
)
    requires
        slots.len() == 449,
    ensures
        all_inserted(slots, entries, now).len() == 449,
        count_from(all_inserted(slots, entries, now), e, 0) == count_from(slots, e, 0) + count_of(
            entries,
            e,
        ),
    decreases entries.len(),
{
    if entries.len() > 0 {
        lemma_count_inserted(slots, entries[0], now, e);
        lemma_count_first(entries, e);
        lemma_count_all_inserted(inserted(slots, entries[0], now), entries.skip(1), now, e);
    }
}

proof fn lemma_count_cascaded(slots: Seq<Seq<TimerEntry>>, k: int, now: u64, e: TimerEntry)
    requires
        slots.len() == 449,
        0 <= k < 449,
    ensures
        cascaded(slots, k, now).len() == 449,
        count_from(cascaded(slots, k, now), e, 0) == count_from(slots, e, 0),
{
    lemma_count_slot(slots, k, Seq::empty(), e, 0);
    lemma_count_all_inserted(slots.update(k, Seq::empty()), slots[k], now, e);
}

proof fn lemma_count_promoted(slots: Seq<Seq<TimerEntry>>, i: int, now: u64, e: TimerEntry)
    requires
        slots.len() == 449,
    ensures
        promoted(slots, i, now).len() == 449,
        count_from(promoted(slots, i, now), e, 0) == count_from(slots, e, 0),
    decreases slots[448].len() - i,
{
    let waiting = slots[448];
    if 0 <= i < waiting.len() {
        let x = waiting[i];
        if ahead(x.target_tick, now) < 67_108_864 {
            let fewer = swap_removed(waiting, i);
            let taken = slots.update(448, fewer);
            lemma_count_update(waiting, i, waiting.last(), e);
            assert(waiting.update(i, waiting.last()).last() == waiting.last());
            lemma_count_slot(slots, 448, fewer, e, 0);
            lemma_count_inserted(taken, x, now, e);
            lemma_slot_inside(x.target_tick, now);
            lemma_count_promoted(inserted(taken, x, now), i, now, e);
        } else {
            lemma_count_promoted(slots, i + 1, now, e);
        }
    }
}

proof fn lemma_count_sorted_down(slots: Seq<Seq<TimerEntry>>, now: u64, e: TimerEntry)
    requires
        slots.len() == 449,
    ensures
        sorted_down(slots, now).len() == 449,
        count_from(sorted_down(slots, now), e, 0) == count_from(slots, e, 0),
{
    let k1 = 256 + now / 256 % 64;
    let k2 = 320 + now / 16_384 % 64;
    let k3 = 384 + now / 1_048_576 % 64;
    lemma_count_cascaded(slots, k1, now, e);
    let s1 = if now % 256 == 0 {
        cascaded(slots, k1, now)
    } else {
        slots
    };
    lemma_count_cascaded(s1, k2, now, e);
    let s2 = if now % 16_384 == 0 {
        cascaded(s1, k2, now)
    } else {
        s1
    };
    lemma_count_cascaded(s2, k3, now, e);
    lemma_count_promoted(cascaded(s2, k3, now), 0, now, e);
}

/// A timer fires as often as it was added and not taken out: a tick fires all
/// of it if the tick is its target, and leaves all of it else.
pub proof fn law_timers_fire_once(w: WheelView, e: TimerEntry)
    requires
        w.in_time(),
        w.current_tick < u64::MAX,
    ensures
        count_of(w.fired(), e) == if e.target_tick == w.current_tick + 1 {
            w.count(e)
        } else {
            0
        },
        w.advanced().count(e) == if e.target_tick == w.current_tick + 1 {
            0
        } else {
            w.count(e)
        },
{
    let now = (w.current_tick + 1) as u64;
    assert(w.current_tick.wrapping_add(1) == now);
    let slots = sorted_down(w.slots, now);
    let n = (now % 256) as int;
    law_timers_fire_on_time(w, e);
    lemma_count_sorted_down(w.slots, now, e);
    lemma_count_split(slots[n], now, e);
    lemma_count_slot(slots, n, not_due_of(slots[n], now), e, 0);
    lemma_count_contains(w.fired(), e);
    lemma_count_holds(w.advanced().slots, e, 0);
    lemma_count_holds(w.slots, e, 0);
}

/// A timer that is added is on the wheel once more; the others are as often as
/// before.
pub proof fn law_added_once(w: WheelView, target: u64, kind: TimerKind, e: TimerEntry)
    requires
        w.slots.len() == 449,
    ensures
        w.added(target, kind).count(e) == w.count(e) + if e == (TimerEntry {
            id: w.next_timer_id,
            target_tick: target,
            kind,
        }) {
            1int
        } else {
            0
        },
{
    let x = TimerEntry { id: w.next_timer_id, target_tick: target, kind };
    lemma_count_inserted(w.slots, x, w.current_tick, e);
}

/// A timer that is taken out is on the wheel once less; the others are as often
/// as before, and all are still to come and in the right slots.
pub proof fn law_cancelled_in_time(w: WheelView, place: (int, int), e: TimerEntry)
    requires
        w.in_time(),
        0 <= place.0 < 449,
        0 <= place.1 < w.slots[place.0].len(),
    ensures
        w.without(place).in_time(),
        w.without(place).count(e) == w.count(e) - if e == w.slots[place.0][place.1] {
            1int
        } else {
            0
        },
{
    let s = w.slots[place.0];
    let after = w.without(place);
    assert forall|k: int, x: TimerEntry| 0 <= k < 449 && #[trigger] after.slots[k].contains(x) implies x.target_tick
        > w.current_tick && right_slot(k, x.target_tick, w.current_tick) by {
        if k == place.0 {
            lemma_count_contains(s.remove(place.1), x);
            lemma_count_remove(s, place.1, x);
            lemma_count_contains(s, x);
        }
        assert(w.slots[k].contains(x));
    }
    lemma_count_remove(s, place.1, e);
    lemma_count_slot(w.slots, place.0, s.remove(place.1), e, 0);
}

proof fn lemma_place_in(s: Seq<TimerEntry>, wanted: Wanted, i: int)
    requires
        0 <= i <= s.len(),
    ensures
        i <= place_in(s, wanted, i) <= s.len(),
        place_in(s, wanted, i) < s.len() ==> is_wanted(s[place_in(s, wanted, i)], wanted),
    decreases s.len() - i,
{
    if i < s.len() && !is_wanted(s[i], wanted) {
        lemma_place_in(s, wanted, i + 1);
    }
}

proof fn lemma_place_of(slots: Seq<Seq<TimerEntry>>, wanted: Wanted, k: int, end: int)
    requires
        0 <= k,
    ensures
        place_of(slots, wanted, k, end) matches Some(p) ==> k <= p.0 < end && 0 <= p.1
            < slots[p.0].len() && is_wanted(slots[p.0][p.1], wanted),
    decreases end - k,
{
    if k < end {
        lemma_place_in(slots[k], wanted, 0);
        lemma_place_of(slots, wanted, k + 1, end);
    }
}

/// A timer that is set to another tick to come, however far ahead it was, is on
/// the wheel with that target in place of the one it had.
pub proof fn law_rearmed_in_time(w: WheelView, id: u64, target: u64, e: TimerEntry)
    requires
        w.in_time(),
        target > w.current_tick,
    ensures
        w.rearmed(id, target).in_time(),
        match place_of(w.slots, Wanted::Id(id), 0, 449) {
            None => w.rearmed(id, target) == w,
            Some(p) => {
                let was = w.slots[p.0][p.1];
                let is = TimerEntry { target_tick: target, ..was };
                &&& was.id == id
                &&& w.rearmed(id, target).count(e) == w.count(e) - (if e == was {
                    1int
                } else {
                    0
                }) + (if e == is {
                    1int
                } else {
                    0
                })
            },
        },
{
    lemma_place_of(w.slots, Wanted::Id(id), 0, 449);
    if let Some(p) = place_of(w.slots, Wanted::Id(id), 0, 449) {
        let was = w.slots[p.0][p.1];
        let is = TimerEntry { target_tick: target, ..was };
        let v = w.without(p);
        law_cancelled_in_time(w, p, e);
        lemma_count_inserted(v.slots, is, v.current_tick, e);
        let after = w.rearmed(id, target);
        let k = slot_of(target, v.current_tick);
        lemma_right_slot(target, v.current_tick);
        assert forall|j: int, x: TimerEntry| 0 <= j < 449 && #[trigger] after.slots[j].contains(x) implies x.target_tick
            > w.current_tick && right_slot(j, x.target_tick, w.current_tick) by {
            lemma_contains_push(v.slots[k], is, x);
            if j != k || x != is {
                assert(v.slots[j].contains(x));
            }
        }
    }
}

proof fn lemma_none_in(s: Seq<TimerEntry>, wanted: Wanted, i: int)
    requires
        0 <= i <= s.len(),
        forall|j: int| i <= j < s.len() ==> !is_wanted(#[trigger] s[j], wanted),
    ensures
        place_in(s, wanted, i) == s.len(),
    decreases s.len() - i,
{
    if i < s.len() {
        lemma_none_in(s, wanted, i + 1);
    }
}

proof fn lemma_only_in(s: Seq<TimerEntry>, wanted: Wanted, i: int, at: int)
    requires
        0 <= i <= at < s.len(),
        is_wanted(s[at], wanted),
        forall|j: int| i <= j < at ==> !is_wanted(#[trigger] s[j], wanted),
    ensures
        place_in(s, wanted, i) == at,
    decreases at - i,
{
    if i < at {
        lemma_only_in(s, wanted, i + 1, at);
    }
}

proof fn lemma_only_of(slots: Seq<Seq<TimerEntry>>, wanted: Wanted, k: int, slot: int, at: int)
    requires
        0 <= k <= slot < 449,
        slots.len() == 449,
        0 <= at < slots[slot].len(),
        is_wanted(slots[slot][at], wanted),
        forall|a: int, b: int|
            0 <= a < 449 && 0 <= b < slots[a].len() && (a, b) != (slot, at) ==> !is_wanted(
                #[trigger] slots[a][b],
                wanted,
            ),
    ensures
        place_of(slots, wanted, k, 449) == Some((slot, at)),
    decreases slot - k,
{
    if k < slot {
        lemma_none_in(slots[k], wanted, 0);
        lemma_only_of(slots, wanted, k + 1, slot, at);
    } else {
        lemma_only_in(slots[slot], wanted, 0, at);
    }
}

/// A process that has set its interval timer is told its interval and the ticks
/// that are left; once the timer is dropped, there is none, and the timers of
/// others stay.
pub proof fn law_interval_set_then_told(w: WheelView, pid: u64, interval: u64, target: u64)
    requires
        w.slots.len() == 449,
        target >= w.current_tick,
        forall|a: int, b: int|
            0 <= a < 449 && 0 <= b < w.slots[a].len() ==> !is_wanted(
                #[trigger] w.slots[a][b],
                Wanted::ITimer(pid),
            ),
    ensures
        ({
            let set = w.added(target, TimerKind::ITimerReal { pid, interval_ticks: interval });
            &&& set.itimer(pid) == Some((interval, (target - w.current_tick) as u64))
            &&& set.itimer_dropped(pid).slots == w.slots
            &&& set.itimer_dropped(pid).current_tick == w.current_tick
        }),
{
    let set = w.added(target, TimerKind::ITimerReal { pid, interval_ticks: interval });
    let k = slot_of(target, w.current_tick);
    let at = w.slots[k].len() as int;
    assert(0 <= k < 449);
    assert forall|a: int, b: int|
        0 <= a < 449 && 0 <= b < set.slots[a].len() && (a, b) != (k, at) implies !is_wanted(
        #[trigger] set.slots[a][b],
        Wanted::ITimer(pid),
    ) by {
        assert(set.slots[a][b] == w.slots[a][b]);
    }
    lemma_only_of(set.slots, Wanted::ITimer(pid), 0, k, at);
    assert(set.slots[k].remove(at) =~= w.slots[k]);
    assert(set.itimer_dropped(pid).slots =~= w.slots);
}

} // verus!
