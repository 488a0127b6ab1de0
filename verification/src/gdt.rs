//! The segments of the processor, in the order of their table.
use vstd::prelude::*;

verus! {

pub const DOUBLE_FAULT_IST_INDEX: u16 = 0;

const USER_DATA_INDEX: u16 = 5;

const USER_CODE_INDEX: u16 = 6;

/// The selector of a segment: its place in the table and the privilege level
/// that it is used with.
pub open spec fn selector_of(index: u16, level: u16) -> int {
    index * 8 + level
}

fn selector(index: u16, level: u16) -> (r: u16)
    requires
        index < 8192,
        level < 4,
    ensures
        r == selector_of(index, level),
{
    index * 8 + level
}

/// The code and stack segments of user programs. The table holds the code and
/// data segments of the kernel, the task state, which takes two places, then
/// data and code of users.
pub fn user_interrupt_selectors() -> (r: (u64, u64))
    ensures
        r == (selector_of(6, 3) as u64, selector_of(5, 3) as u64),
        r == (0x33u64, 0x2bu64),
{
    (selector(USER_CODE_INDEX, 3) as u64, selector(USER_DATA_INDEX, 3) as u64)
}

/// A selector tells the place in the table and the privilege level.
pub proof fn law_selector_tells(index: u16, level: u16)
    requires
        level < 4,
        index < 0x2000,
    ensures
        selector_of(index, level) / 8 == index,
        selector_of(index, level) % 4 == level,
        selector_of(index, level) / 4 % 2 == 0,
        selector_of(index, level) <= 0xffff,
{
}

} // verus!
