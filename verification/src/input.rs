//! What was pressed and moved, in a queue for those who ask.
use vstd::prelude::*;

verus! {

/// How many events wait at most; the oldest makes room.
pub const MAX_EVENTS: usize = 256;

pub const EVENT_MOUSE: u32 = 1;

pub const EVENT_KEY: u32 = 2;

#[derive(Clone, Copy, Debug, PartialEq, Eq, Structural)]
pub struct InputEvent {
    pub event_type: u32,
    pub code: u32,
    pub value: i32,
    pub x: i32,
    pub y: i32,
}

/// Events that wait, the oldest first.
#[derive(Debug)]
pub struct EventQueue {
    pub events: Vec<InputEvent>,
}

impl View for EventQueue {
    type V = Seq<InputEvent>;

    open spec fn view(&self) -> Seq<InputEvent> {
        self.events@
    }
}

pub open spec fn pushed(queue: Seq<InputEvent>, event: InputEvent) -> Seq<InputEvent> {
    if queue.len() >= 256 {
        queue.skip(1).push(event)
    } else {
        queue.push(event)
    }
}

pub open spec fn mouse_event(dx: i32, dy: i32, buttons: u32) -> InputEvent {
    InputEvent { event_type: 1, code: buttons, value: 0, x: dx, y: dy }
}

pub open spec fn key_event(key_code: u32, pressed: bool) -> InputEvent {
    InputEvent {
        event_type: 2,
        code: key_code,
        value: if pressed {
            1
        } else {
            0
        },
        x: 0,
        y: 0,
    }
}

impl EventQueue {
    pub fn new() -> (r: Self)
        ensures
            r@ == Seq::<InputEvent>::empty(),
    {
        let r = EventQueue { events: Vec::new() };
        assert(r@ =~= Seq::<InputEvent>::empty());
        r
    }
}

pub fn push_event(queue: &mut EventQueue, event: InputEvent)
    ensures
        final(queue)@ == pushed(old(queue)@, event),
{
    if queue.events.len() >= MAX_EVENTS {
        let _ = queue.events.remove(0);
        assert(queue@ =~= old(queue)@.skip(1));
    }
    queue.events.push(event);
}

/// The oldest event, which leaves the queue.
pub fn poll_event(queue: &mut EventQueue) -> (r: Option<InputEvent>)
    ensures
        r == if old(queue)@.len() > 0 {
            Some(old(queue)@[0])
        } else {
            None
        },
        final(queue)@ == if old(queue)@.len() > 0 {
            old(queue)@.skip(1)
        } else {
            old(queue)@
        },
{
    if queue.events.len() == 0 {
        return None;
    }
    let event = queue.events.remove(0);
    assert(queue@ =~= old(queue)@.skip(1));
    Some(event)
}

pub fn inject_mouse_motion(queue: &mut EventQueue, dx: i32, dy: i32, buttons: u32)
    ensures
        final(queue)@ == pushed(old(queue)@, mouse_event(dx, dy, buttons)),
{
    push_event(
        queue,
        InputEvent { event_type: EVENT_MOUSE, code: buttons, value: 0, x: dx, y: dy },
    )
}

pub fn inject_key(queue: &mut EventQueue, key_code: u32, pressed: bool)
    ensures
        final(queue)@ == pushed(old(queue)@, key_event(key_code, pressed)),
{
    push_event(
        queue,
        InputEvent {
            event_type: EVENT_KEY,
            code: key_code,
            value: if pressed {
                1
            } else {
                0
            },
            x: 0,
            y: 0,
        },
    )
}

/// No more than so many events ever wait, and the newest is always among them.
pub proof fn law_newest_kept(queue: Seq<InputEvent>, event: InputEvent)
    requires
        queue.len() <= 256,
    ensures
        pushed(queue, event).len() <= 256,
        pushed(queue, event).last() == event,
        queue.len() < 256 ==> pushed(queue, event).drop_last() == queue,
        queue.len() == 256 ==> pushed(queue, event).drop_last() == queue.skip(1),
{
    if queue.len() < 256 {
        assert(pushed(queue, event).drop_last() =~= queue);
    } else {
        assert(pushed(queue, event).drop_last() =~= queue.skip(1));
    }
}

} // verus!
