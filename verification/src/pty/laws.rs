//! What holds of terminals over several keys and reads.
use vstd::prelude::*;

use crate::pty::{self, PtyView, Termios};

verus! {

/// Whether a byte is a plain one for a terminal that gives out lines: no
/// control character, and no end of a line.
pub open spec fn is_plain(t: Termios, byte: u8) -> bool {
    &&& byte != 13 && byte != 10 && byte != 0x7f && byte != 0x08
    &&& t.c_cc@[2] != byte && t.c_cc@[4] != byte
    &&& t.c_lflag & 0x1 == 0 || (t.c_cc@[0] != byte && t.c_cc@[1] != byte && t.c_cc@[10] != byte)
}

/// A terminal that gives out lines keeps what is typed until the line ends. The
/// reader then gets the whole line with its end, and the next line starts.
pub proof fn law_line_is_given_out(p: PtyView, line: Seq<u8>)
    requires
        p.termios.c_lflag & 0x2 != 0,
        p.termios.c_lflag & 0x1 == 0,
        forall|i: int| 0 <= i < line.len() ==> is_plain(p.termios, #[trigger] line[i]),
        p.termios.c_cc@[2] != 10,
        p.termios.c_cc@[4] != 10,
    ensures
        ({
            let (mid, none) = pty::all_typed(p, line);
            let (after, signals) = pty::typed(mid, 10);
            &&& mid.line_buf == p.line_buf + line
            &&& mid.master_to_slave == p.master_to_slave
            &&& mid.termios == p.termios
            &&& none.len() == 0
            &&& after.master_to_slave == p.master_to_slave + (p.line_buf + line).push(10)
            &&& after.line_buf.len() == 0
            &&& signals.len() == 0
        }),
    decreases line.len(),
{
    if line.len() == 0 {
        assert(p.line_buf + line =~= p.line_buf);
    } else {
        law_line_is_given_out(p, line.drop_last());
        let mid = pty::all_typed(p, line.drop_last()).0;
        assert(is_plain(p.termios, line[line.len() - 1]));
        assert(p.line_buf + line =~= (p.line_buf + line.drop_last()).push(line.last()));
    }
}

/// A key that erases takes back the last byte of the line that is typed, and
/// only that; what was given out stays.
pub proof fn law_erase_takes_back(p: PtyView, byte: u8)
    requires
        p.termios.c_lflag & 0x2 != 0,
        p.termios.c_lflag & 0x1 == 0,
        is_plain(p.termios, byte),
    ensures
        ({
            let mid = pty::typed(p, byte).0;
            let after = pty::typed(mid, 0x7f).0;
            &&& mid.line_buf == p.line_buf.push(byte)
            &&& after.line_buf == p.line_buf
            &&& after.master_to_slave == p.master_to_slave
        }),
        p.line_buf.len() == 0 ==> pty::typed(p, 0x7f).0 == p,
{
    assert(p.line_buf.push(byte).drop_last() =~= p.line_buf);
}

/// The key that ends input gives out what is typed of a line, without an end.
pub proof fn law_end_of_input(p: PtyView, byte: u8)
    requires
        p.termios.c_lflag & 0x2 != 0,
        p.termios.c_lflag & 0x1 == 0,
        byte != 0,
        p.termios.c_cc@[4] == byte,
        p.termios.c_cc@[2] != byte,
        byte != 0x7f,
        byte != 0x08,
    ensures
        ({
            let after = pty::typed(p, byte).0;
            &&& after.master_to_slave == p.master_to_slave + p.line_buf
            &&& after.line_buf.len() == 0
            &&& after.slave_to_master == p.slave_to_master
        }),
{
    if p.line_buf.len() == 0 {
        assert(p.master_to_slave + p.line_buf =~= p.master_to_slave);
    }
}

/// Keys that raise signals give no input: the interrupt key raises the second
/// signal and drops the line, the quit key the third, the stop key the
/// twentieth. A signal is raised only where a group is in the foreground, and
/// only where the terminal is told to.
pub proof fn law_keys_raise_signals(p: PtyView, byte: u8)
    requires
        byte != 0,
        p.termios.c_cc@[0] != p.termios.c_cc@[10],
        p.termios.c_cc@[0] != p.termios.c_cc@[1],
        p.termios.c_cc@[1] != p.termios.c_cc@[10],
    ensures
        ({
            let (after, raised) = pty::typed(p, byte);
            let t = p.termios;
            let key = byte == t.c_cc@[0] || byte == t.c_cc@[1] || byte == t.c_cc@[10];
            &&& t.c_lflag & 0x1 != 0 && key ==> {
                &&& after.master_to_slave == p.master_to_slave
                &&& after.line_buf == (if byte == t.c_cc@[0] {
                    Seq::empty()
                } else {
                    p.line_buf
                })
                &&& p.fg_pgrp == 0 ==> raised.len() == 0
                &&& p.fg_pgrp != 0 && byte == t.c_cc@[0] ==> raised == seq![2u32]
                &&& p.fg_pgrp != 0 && byte == t.c_cc@[1] ==> raised == seq![3u32]
                &&& p.fg_pgrp != 0 && byte == t.c_cc@[10] ==> raised == seq![20u32]
            }
            &&& t.c_lflag & 0x1 == 0 || !key ==> raised.len() == 0
        }),
{
}

/// What is typed is shown exactly if the terminal echoes.
pub proof fn law_echo(p: PtyView, byte: u8)
    requires
        p.termios.c_lflag & 0x1 == 0,
        is_plain(p.termios, byte),
    ensures
        pty::typed(p, byte).0.slave_to_master == (if p.termios.c_lflag & 0x8 != 0 {
            p.slave_to_master.push(byte)
        } else {
            p.slave_to_master
        }),
{
    assert(p.slave_to_master + seq![byte] =~= p.slave_to_master.push(byte));
}

/// What a program prints comes out in its order; where line ends are completed,
/// each of them gets a carriage return, and otherwise nothing is added.
pub proof fn law_printed_in_order(t: Termios, a: Seq<u8>, b: Seq<u8>)
    ensures
        pty::all_printed(t, a + b) == pty::all_printed(t, a) + pty::all_printed(t, b),
        t.c_oflag & 0x4 == 0 ==> pty::all_printed(t, b) == b,
        (forall|i: int| 0 <= i < b.len() ==> b[i] != 10) ==> pty::all_printed(t, b) == b,
        t.c_oflag & 0x4 != 0 ==> pty::all_printed(t, seq![10u8]) == seq![13u8, 10u8],
    decreases b.len(),
{
    reveal_with_fuel(pty::all_printed, 2);
    if b.len() == 0 {
        assert(a + b =~= a);
        assert(pty::all_printed(t, a) + pty::all_printed(t, b) =~= pty::all_printed(t, a));
        assert(pty::all_printed(t, b) =~= b);
    } else {
        law_printed_in_order(t, a, b.drop_last());
        assert((a + b).drop_last() =~= a + b.drop_last());
        let x = pty::all_printed(t, a);
        let y = pty::all_printed(t, b.drop_last());
        let z = pty::printed(t, b.last());
        assert((x + y) + z =~= x + (y + z));
        assert(b.drop_last().push(b.last()) =~= b);
        if forall|i: int| 0 <= i < b.len() ==> b[i] != 10 {
            assert forall|i: int| 0 <= i < b.drop_last().len() implies b.drop_last()[i] != 10 by {
                assert(b[i] != 10);
            }
            assert(b[b.len() - 1] != 10);
        }
    }
    let one = seq![10u8];
    assert(one.drop_last() =~= Seq::<u8>::empty());
    assert(Seq::<u8>::empty() + seq![13u8, 10u8] =~= seq![13u8, 10u8]);
}

/// A read gives what waits, in its order, as much as there is room for, and
/// leaves the rest. Nothing waits: that is the end if the other side is closed,
/// and otherwise more may come.
pub proof fn law_read_from_terminal(buffer: Seq<u8>, open: bool, first: usize, second: usize)
    ensures
        ({
            let (left, a) = pty::taken(buffer, open, first);
            let (end, b) = pty::taken(left, open, second);
            &&& buffer.len() == 0 ==> left == buffer && (a is Err <==> open) && (a is Ok
                ==> a->Ok_0.len() == 0)
            &&& first < buffer.len() ==> {
                &&& a matches Ok(x)
                &&& b matches Ok(y)
                &&& x.len() == first
                &&& x + y + end == buffer
            }
        }),
{
    if first < buffer.len() {
        let (left, a) = pty::taken(buffer, open, first);
        let (end, b) = pty::taken(left, open, second);
        assert(a->Ok_0 + b->Ok_0 + end =~= buffer);
    }
}

/// A pair is there until both of its sides are closed; the other pairs stay.
pub proof fn law_pair_until_both_closed(table: Map<u64, PtyView>, id: u32, master_first: bool)
    requires
        table.dom().contains(id as u64),
        table[id as u64].master_open,
        table[id as u64].slave_open,
    ensures
        ({
            let mid = pty::side_closed(table, id, master_first);
            let after = pty::side_closed(mid, id, !master_first);
            &&& mid.dom().contains(id as u64)
            &&& mid[id as u64].master_open <==> !master_first
            &&& mid[id as u64].slave_open <==> master_first
            &&& mid[id as u64].master_to_slave == table[id as u64].master_to_slave
            &&& mid[id as u64].slave_to_master == table[id as u64].slave_to_master
            &&& after == table.remove(id as u64)
        }),
{
    let mid = pty::side_closed(table, id, master_first);
    let after = pty::side_closed(mid, id, !master_first);
    assert(after =~= table.remove(id as u64));
}

} // verus!
