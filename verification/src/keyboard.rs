//! Scancodes from the keyboard, on their way to those who read them.
use vstd::prelude::*;

use heapless::mpmc::MpMcQueue;
use pc_keyboard::layouts::Us104Key;
use pc_keyboard::{DecodedKey, HandleControl, KeyEvent, PS2Keyboard, ScancodeSet1};

use crate::input::{self, inject_key, EventQueue};

verus! {

// ---------------------------------------------------------------------------
// The queue
// ---------------------------------------------------------------------------
/// The bounded queue of `heapless`.
#[verifier::external_type_specification]
#[verifier::external_body]
#[verifier::reject_recursive_types(T)]
pub struct ExMpMcQueue<T, const N: usize>(MpMcQueue<T, N>);

/// The scancodes in a queue, the oldest first.
pub uninterp spec fn queued(queue: MpMcQueue<u8, 64>) -> Seq<u8>;

/// A queue without scancodes, by `MpMcQueue::new`, which makes an empty queue.
#[verifier::external_body]
fn new_queue() -> (r: MpMcQueue<u8, 64>)
    ensures
        queued(r) == Seq::<u8>::empty(),
{
    MpMcQueue::new()
}

/// Puts a scancode at the end, by `MpMcQueue::enqueue`, which gives the item
/// back where the queue holds as many as it has room for, here 64, and
/// otherwise adds it at the end.
#[verifier::external_body]
fn enqueue(queue: &mut MpMcQueue<u8, 64>, scancode: u8) -> (r: Result<(), u8>)
    ensures
        match r {
            Ok(_) => queued(*old(queue)).len() < 64 && queued(*final(queue)) == queued(
                *old(queue),
            ).push(scancode),
            Err(item) => queued(*old(queue)).len() >= 64 && item == scancode && queued(
                *final(queue),
            ) == queued(*old(queue)),
        },
{
    queue.enqueue(scancode)
}

/// Takes the oldest scancode out, by `MpMcQueue::dequeue`, which returns the
/// item in front, or `None` of an empty queue.
#[verifier::external_body]
fn dequeue(queue: &mut MpMcQueue<u8, 64>) -> (r: Option<u8>)
    ensures
        match r {
            Some(scancode) => queued(*old(queue)).len() > 0 && scancode == queued(*old(queue))[0]
                && queued(*final(queue)) == queued(*old(queue)).skip(1),
            None => queued(*old(queue)).len() == 0 && queued(*final(queue)) == queued(*old(queue)),
        },
{
    queue.dequeue()
}

/// Scancodes that wait for a reader. Only this module reaches the queue.
pub struct Scancodes {
    queue: MpMcQueue<u8, 64>,
}

impl View for Scancodes {
    type V = Seq<u8>;

    closed spec fn view(&self) -> Seq<u8> {
        queued(self.queue)
    }
}

/// What is known of the keyboard.
pub struct KeyboardState {
    pub scancodes: Scancodes,
    pub irq_count: u32,
    pub ctrl_held: bool,
}

/// Whether the control key is held after a scancode.
pub open spec fn held_after(held: bool, scancode: u8) -> bool {
    if scancode == 0x1d {
        true
    } else if scancode == 0x9d {
        false
    } else {
        held
    }
}

impl KeyboardState {
    pub open spec fn waiting(&self) -> Seq<u8> {
        self.scancodes@
    }

    pub fn new() -> (r: Self)
        ensures
            r.waiting() == Seq::<u8>::empty(),
            r.irq_count == 0,
            !r.ctrl_held,
    {
        KeyboardState { scancodes: Scancodes { queue: new_queue() }, irq_count: 0, ctrl_held: false }
    }
}

/// Takes a scancode from the keyboard: it becomes an event and waits for a
/// reader, unless too many wait. The result is whether the program in front is
/// to be interrupted.
pub fn push_scancode(keyboard: &mut KeyboardState, events: &mut EventQueue, scancode: u8) -> (r:
    bool)
    ensures
        r == (scancode == 0x2e && old(keyboard).ctrl_held),
        final(keyboard).ctrl_held == held_after(old(keyboard).ctrl_held, scancode),
        final(keyboard).irq_count == if old(keyboard).irq_count == u32::MAX {
            0
        } else {
            (old(keyboard).irq_count + 1) as u32
        },
        final(keyboard).waiting() == if old(keyboard).waiting().len() < 64 {
            old(keyboard).waiting().push(scancode)
        } else {
            old(keyboard).waiting()
        },
        final(events)@ == input::pushed(old(events)@, input::key_event(scancode as u32, scancode < 128)),
{
    keyboard.irq_count = keyboard.irq_count.wrapping_add(1);
    let interrupt: bool = scancode == 0x2e && keyboard.ctrl_held;
    if scancode == 0x1d {
        keyboard.ctrl_held = true;
    } else if scancode == 0x9d {
        keyboard.ctrl_held = false;
    }
    inject_key(events, scancode as u32, scancode < 128);
    let _ = enqueue(&mut keyboard.scancodes.queue, scancode);
    interrupt
}

/// The oldest scancode that waits.
pub fn pop_scancode(keyboard: &mut KeyboardState) -> (r: Option<u8>)
    ensures
        r == if old(keyboard).waiting().len() > 0 {
            Some(old(keyboard).waiting()[0])
        } else {
            None
        },
        final(keyboard).waiting() == if old(keyboard).waiting().len() > 0 {
            old(keyboard).waiting().skip(1)
        } else {
            old(keyboard).waiting()
        },
        final(keyboard).ctrl_held == old(keyboard).ctrl_held,
        final(keyboard).irq_count == old(keyboard).irq_count,
{
    dequeue(&mut keyboard.scancodes.queue)
}

// ---------------------------------------------------------------------------
// Characters
// ---------------------------------------------------------------------------
/// The decoder of `pc_keyboard`, which knows the keys that are held, for a
/// keyboard of the United States and the first set of scancodes, with the event
/// that it gave last.
#[verifier::external_body]
pub struct KeyDecoder {
    keyboard: PS2Keyboard<Us104Key, ScancodeSet1>,
    event: Option<KeyEvent>,
}

/// What was done with a decoder: it was given a scancode, or the event that the
/// scancode made was looked at.
pub enum KeyStep {
    Fed(u8),
    Looked,
}

/// What a scancode makes.
#[derive(Clone, Copy, Debug, PartialEq, Eq, Structural)]
pub enum Feeding {
    /// A key that was pressed or released.
    Event,
    /// A part of a key.
    Nothing,
    /// No scancode of this set.
    Fault,
}

/// What an event of a key stands for.
#[derive(Clone, Copy, Debug, PartialEq, Eq, Structural)]
pub enum Keystroke {
    Character(char),
    /// A key without a character.
    Key,
}

/// What was done with a decoder, the first step first.
pub uninterp spec fn steps_taken(decoder: KeyDecoder) -> Seq<KeyStep>;

/// What a scancode makes after some steps.
pub uninterp spec fn fed_after(before: Seq<KeyStep>, scancode: u8) -> Feeding;

/// What the event of the last scancode stands for, if for anything.
pub uninterp spec fn keystroke_of(steps: Seq<KeyStep>) -> Option<Keystroke>;

/// Whether the last step made an event.
pub open spec fn has_event(steps: Seq<KeyStep>) -> bool {
    &&& steps.len() > 0
    &&& steps.last() matches KeyStep::Fed(scancode)
    &&& fed_after(steps.drop_last(), scancode) == Feeding::Event
}

/// A scancode decoded: the steps with it, and the character that it stands for,
/// if it does.
pub open spec fn decoded(before: Seq<KeyStep>, scancode: u8) -> (Seq<KeyStep>, Option<char>) {
    let fed = before.push(KeyStep::Fed(scancode));
    match fed_after(before, scancode) {
        Feeding::Event => (
            fed.push(KeyStep::Looked),
            match keystroke_of(fed) {
                Some(Keystroke::Character(c)) => Some(c),
                _ => None,
            },
        ),
        _ => (fed, None),
    }
}

/// A decoder that has been given nothing, by `PS2Keyboard::new`.
#[verifier::external_body]
pub(crate) fn new_decoder() -> (r: KeyDecoder)
    ensures
        steps_taken(r) == Seq::<KeyStep>::empty(),
{
    let keyboard = PS2Keyboard::new(ScancodeSet1::new(), Us104Key, HandleControl::Ignore);
    KeyDecoder { keyboard, event: None }
}

/// Gives a decoder the next scancode, by `PS2Keyboard::add_byte`. A decoder
/// starts in one state and nothing but the steps moves it on, so what a
/// scancode makes depends on the steps before and on it alone.
#[verifier::external_body]
fn feed(decoder: &mut KeyDecoder, scancode: u8) -> (r: Feeding)
    ensures
        r == fed_after(steps_taken(*old(decoder)), scancode),
        steps_taken(*final(decoder)) == steps_taken(*old(decoder)).push(KeyStep::Fed(scancode)),
{
    match decoder.keyboard.add_byte(scancode) {
        Ok(Some(event)) => {
            decoder.event = Some(event);
            Feeding::Event
        },
        Ok(None) => Feeding::Nothing,
        Err(_) => Feeding::Fault,
    }
}

/// What the event of the last scancode stands for, by
/// `PS2Keyboard::process_keyevent`. It depends on the steps alone: they made the
/// event, and they say which keys are held.
#[verifier::external_body]
fn look(decoder: &mut KeyDecoder) -> (r: Option<Keystroke>)
    requires
        has_event(steps_taken(*old(decoder))),
    ensures
        r == keystroke_of(steps_taken(*old(decoder))),
        steps_taken(*final(decoder)) == steps_taken(*old(decoder)).push(KeyStep::Looked),
{
    let event = decoder.event.take()?;
    match decoder.keyboard.process_keyevent(event) {
        Some(DecodedKey::Unicode(c)) => Some(Keystroke::Character(c)),
        Some(DecodedKey::RawKey(_)) => Some(Keystroke::Key),
        None => None,
    }
}

/// The character of the next scancode, if it stands for one.
pub(crate) fn decode(decoder: &mut KeyDecoder, scancode: u8) -> (r: Option<char>)
    ensures
        (steps_taken(*final(decoder)), r) == decoded(steps_taken(*old(decoder)), scancode),
{
    let ghost before = steps_taken(*decoder);
    match feed(decoder, scancode) {
        Feeding::Event => {
            assert(steps_taken(*decoder).drop_last() =~= before);
            match look(decoder) {
                Some(Keystroke::Character(c)) => Some(c),
                _ => None,
            }
        },
        _ => None,
    }
}

} // verus!
