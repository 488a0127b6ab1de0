//! The three-byte packets of a mouse.
use vstd::prelude::*;

use crate::input::{self, inject_mouse_motion, EventQueue};

verus! {

/// What came of a packet so far.
#[derive(Clone, Copy, Debug, PartialEq, Eq, Structural)]
pub struct MousePacket {
    pub index: u8,
    pub first: u8,
    pub second: u8,
}

impl MousePacket {
    pub fn new() -> (r: Self)
        ensures
            r == (MousePacket { index: 0, first: 0, second: 0 }),
    {
        MousePacket { index: 0, first: 0, second: 0 }
    }
}

pub open spec fn flag(byte: u8, power: u8) -> bool {
    byte / power % 2 == 1
}

/// How far a byte says that the mouse moved: a byte that stands for a negative
/// distance is one of two's complement.
pub open spec fn distance(raw: u8, negative: bool) -> int {
    if negative && raw >= 128 {
        raw - 256
    } else {
        raw as int
    }
}

/// The event that a whole packet stands for: up on the table is up on the
/// screen, where distances grow downwards.
pub open spec fn packet_event(flags: u8, raw_x: u8, raw_y: u8) -> crate::input::InputEvent {
    input::mouse_event(
        distance(raw_x, flag(flags, 16)) as i32,
        -distance(raw_y, flag(flags, 32)) as i32,
        (flags % 8) as u32,
    )
}

fn measure(raw: u8, negative: bool) -> (r: i32)
    ensures
        r == distance(raw, negative),
        -128 <= r <= 255,
{
    if negative && raw >= 128 {
        raw as i32 - 256
    } else {
        raw as i32
    }
}

/// Takes the next byte. A packet starts with a byte that says so; its third
/// byte makes an event.
pub fn process_byte(packet: &mut MousePacket, queue: &mut EventQueue, byte: u8)
    ensures
        old(packet).index == 0 ==> final(queue)@ == old(queue)@ && *final(packet) == if flag(
            byte,
            8,
        ) {
            MousePacket { index: 1, first: byte, ..*old(packet) }
        } else {
            *old(packet)
        },
        old(packet).index == 1 ==> final(queue)@ == old(queue)@ && *final(packet) == (MousePacket {
            index: 2,
            second: byte,
            ..*old(packet)
        }),
        old(packet).index == 2 ==> *final(packet) == (MousePacket { index: 0, ..*old(packet) })
            && final(queue)@ == input::pushed(
            old(queue)@,
            packet_event(old(packet).first, old(packet).second, byte),
        ),
        old(packet).index > 2 ==> *final(packet) == *old(packet) && final(queue)@ == old(queue)@,
{
    if packet.index == 0 {
        if byte / 8 % 2 == 0 {
            return;
        }
        packet.first = byte;
        packet.index = 1;
    } else if packet.index == 1 {
        packet.second = byte;
        packet.index = 2;
    } else if packet.index == 2 {
        packet.index = 0;
        let flags: u8 = packet.first;
        let dx: i32 = measure(packet.second, flags / 16 % 2 == 1);
        let dy: i32 = -measure(byte, flags / 32 % 2 == 1);
        inject_mouse_motion(queue, dx, dy, (flags % 8) as u32);
    }
}

/// A move of the mouse is told as it was: a distance that fits a byte of two's
/// complement, with its sign in the flags, comes out the same to the side and
/// turned round up and down, with the three buttons that are held.
pub proof fn law_move_is_told(dx: int, dy: int, buttons: u8, flags: u8, raw_x: u8, raw_y: u8)
    requires
        -128 <= dx <= 127,
        -128 <= dy <= 127,
        buttons < 8,
        raw_x == dx % 256,
        raw_y == dy % 256,
        flags % 8 == buttons,
        flags / 16 % 2 == 1 <==> dx < 0,
        flags / 32 % 2 == 1 <==> dy < 0,
    ensures
        ({
            let e = packet_event(flags, raw_x, raw_y);
            &&& e.x == dx
            &&& e.y == -dy
            &&& e.code == buttons
            &&& e.event_type == 1
        }),
{
}

} // verus!
