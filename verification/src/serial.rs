//! The serial line.
use vstd::prelude::*;

verus! {

/// The first port of the line.
pub const SERIAL_PORT: u16 = 0x3f8;

/// The port that tells the state of the line.
pub const LINE_STATUS_PORT: u16 = 0x3fd;

/// Whether the state of the line says that a byte has come.
pub fn has_byte(line_status: u8) -> (r: bool)
    ensures
        r == (line_status % 2 == 1),
{
    line_status % 2 == 1
}

} // verus!
