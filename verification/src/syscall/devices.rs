//! What programs do with the display and the input devices.
use vstd::prelude::*;

use crate::bytes::{self, push_le32, push_le64};
use crate::framebuffer::{Geometry, Writer, WriterView};
use crate::input::{poll_event, EventQueue, InputEvent};
use crate::paging::{Machine, MachineView};
use crate::syscall::memory::{self, copy_to_user, user_physical_address};
use crate::syscall::signal_frame;
use crate::syscall::SYSCALL_ERROR;

verus! {

// ---------------------------------------------------------------------------
// Records
// ---------------------------------------------------------------------------
/// What a program learns of the display: its width and height, and the bytes
/// of a row and of a pixel.
pub open spec fn info_record(g: Geometry) -> Seq<u8> {
    bytes::le64_bytes(g.width as u64) + bytes::le64_bytes(g.height as u64) + bytes::le64_bytes(
        g.pitch as u64,
    ) + bytes::le64_bytes(g.bpp as u64)
}

/// Tells a program of the display.
pub fn display_info_user(machine: &mut Machine, writer: &Writer, pointer: u64) -> (r: u64)
    requires
        old(machine).wf(),
    ensures
        final(machine).wf(),
        final(machine).same_place(old(machine)),
        ({
            let (m, done) = memory::given(
                old(machine)@,
                pointer,
                info_record(writer.geometry),
                0,
            );
            final(machine)@ == m && r == if done {
                0
            } else {
                SYSCALL_ERROR
            }
        }),
{
    let mut record: Vec<u8> = Vec::new();
    push_le64(&mut record, writer.geometry.width as u64);
    push_le64(&mut record, writer.geometry.height as u64);
    push_le64(&mut record, writer.geometry.pitch as u64);
    push_le64(&mut record, writer.geometry.bpp as u64);
    assert(record@ =~= info_record(writer.geometry));
    if copy_to_user(machine, pointer, record.as_slice()) {
        0
    } else {
        SYSCALL_ERROR
    }
}

/// An event as a program gets it.
pub open spec fn event_record(e: InputEvent) -> Seq<u8> {
    bytes::le32_bytes(e.event_type) + bytes::le32_bytes(e.code) + bytes::le32_bytes(
        e.value as u32,
    ) + bytes::le32_bytes(e.x as u32) + bytes::le32_bytes(e.y as u32)
}

/// Gives a program the oldest event. The event is gone even where the program
/// has no room for it.
pub fn input_poll_user(machine: &mut Machine, queue: &mut EventQueue, pointer: u64) -> (r: u64)
    requires
        old(machine).wf(),
    ensures
        final(machine).wf(),
        final(machine).same_place(old(machine)),
        if old(queue)@.len() == 0 {
            final(queue)@ == old(queue)@ && final(machine)@ == old(machine)@ && r == 0
        } else {
            let (m, done) = memory::given(old(machine)@, pointer, event_record(old(queue)@[0]), 0);
            final(queue)@ == old(queue)@.skip(1) && final(machine)@ == m && r == if done {
                1
            } else {
                SYSCALL_ERROR
            }
        },
{
    match poll_event(queue) {
        None => 0,
        Some(e) => {
            let mut record: Vec<u8> = Vec::new();
            push_le32(&mut record, e.event_type);
            push_le32(&mut record, e.code);
            push_le32(&mut record, e.value as u32);
            push_le32(&mut record, e.x as u32);
            push_le32(&mut record, e.y as u32);
            assert(record@ =~= event_record(e));
            if copy_to_user(machine, pointer, record.as_slice()) {
                1
            } else {
                SYSCALL_ERROR
            }
        },
    }
}

// ---------------------------------------------------------------------------
// Pictures
// ---------------------------------------------------------------------------
/// The memory of a screen with bytes of the program copied to `at`, from the
/// `i`-th of `n` on, up to the first that cannot be read.
pub open spec fn row_copied(
    m: MachineView,
    screen: Seq<u8>,
    pointer: u64,
    at: int,
    n: int,
    i: int,
) -> (Seq<u8>, bool)
    decreases n - i,
{
    if i >= n {
        (screen, true)
    } else if pointer + i > u64::MAX {
        (screen, false)
    } else {
        match memory::place(m, (pointer + i) as u64, false) {
            None => (screen, false),
            Some(p) => row_copied(m, screen.update(at + i, m.ram[p]), pointer, at, n, i + 1),
        }
    }
}

/// The memory of a screen with `down` rows of `across` pixels copied to `x` and
/// `y`, from the `row`-th on. The rows of the program lie `stride` apart.
pub open spec fn rows_copied(
    m: MachineView,
    screen: Seq<u8>,
    g: Geometry,
    x: int,
    y: int,
    across: int,
    down: int,
    pointer: u64,
    stride: int,
    row: int,
) -> (Seq<u8>, bool)
    decreases down - row,
{
    if row >= down {
        (screen, true)
    } else if pointer + row * stride > u64::MAX {
        (screen, false)
    } else {
        let (after, done) = row_copied(
            m,
            screen,
            (pointer + row * stride) as u64,
            g.place(x, y + row),
            across * g.bpp,
            0,
        );
        if done {
            rows_copied(m, after, g, x, y, across, down, pointer, stride, row + 1)
        } else {
            (after, false)
        }
    }
}

pub open spec fn at_most(a: int, b: int) -> int {
    if a < b {
        a
    } else {
        b
    }
}

/// A picture of a program on the screen: the part of it that is inside. A
/// picture that starts outside is refused.
pub open spec fn blitted(
    m: MachineView,
    w: WriterView,
    x: u64,
    y: u64,
    width: u64,
    height: u64,
    pointer: u64,
) -> (WriterView, u64) {
    let g = w.geometry;
    if !g.inside(x as int, y as int) {
        (w, SYSCALL_ERROR)
    } else {
        let (screen, done) = rows_copied(
            m,
            w.memory,
            g,
            x as int,
            y as int,
            at_most(width as int, g.width - x),
            at_most(height as int, g.height - y),
            pointer,
            width * g.bpp,
            0,
        );
        (
            WriterView { memory: screen, ..w },
            if done {
                0
            } else {
                SYSCALL_ERROR
            },
        )
    }
}

fn copy_row(machine: &Machine, screen: &mut Vec<u8>, pointer: u64, at: usize, n: usize) -> (r: bool)
    requires
        at + n <= old(screen).len(),
    ensures
        final(screen).len() == old(screen).len(),
        (final(screen)@, r) == row_copied(
            machine@,
            old(screen)@,
            pointer,
            at as int,
            n as int,
            0,
        ),
{
    let ghost goal = row_copied(machine@, screen@, pointer, at as int, n as int, 0);
    let ghost length = screen.len();
    let mut i: usize = 0;
    while i < n
        invariant
            i <= n,
            at + n <= screen.len(),
            screen.len() == length,
            length == old(screen).len(),
            goal == row_copied(machine@, old(screen)@, pointer, at as int, n as int, 0),
            goal == row_copied(machine@, screen@, pointer, at as int, n as int, i as int),
        decreases n - i,
    {
        if i as u64 > u64::MAX - pointer {
            return false;
        }
        match user_physical_address(machine, pointer + i as u64, false) {
            None => {
                return false;
            },
            Some(p) => {
                screen.set(at + i, machine.ram[p]);
            },
        }
        i += 1;
    }
    true
}

/// A row that starts on the screen ends in its memory.
proof fn lemma_row_inside(g: Geometry, length: int, x: int, y: int, across: int)
    requires
        g.fits(length),
        0 <= x,
        0 <= across,
        x + across <= g.width,
        0 <= y < g.height,
    ensures
        0 <= y * g.pitch,
        0 <= x * g.bpp,
        0 <= across * g.bpp <= g.pitch,
        x * g.bpp + across * g.bpp <= g.pitch,
        y * g.pitch + g.pitch <= length,
        g.place(x, y) + across * g.bpp <= length,
{
    let (w, h, p, b) = (g.width as int, g.height as int, g.pitch as int, g.bpp as int);
    assert(x * b + across * b == (x + across) * b) by (nonlinear_arith);
    assert((x + across) * b <= w * b) by (nonlinear_arith)
        requires
            x + across <= w,
            0 <= b,
    ;
    assert(0 <= x * b && 0 <= across * b && 0 <= y * p) by (nonlinear_arith)
        requires
            0 <= x,
            0 <= across,
            0 <= y,
            0 <= b,
            0 <= p,
    ;
    assert(y * p + p <= h * p) by (nonlinear_arith)
        requires
            y + 1 <= h,
            0 <= p,
    ;
}

/// Puts a picture of a program on the screen.
pub fn display_blit_user(
    machine: &Machine,
    writer: &mut Writer,
    x: u64,
    y: u64,
    width: u64,
    height: u64,
    pointer: u64,
) -> (r: u64)
    requires
        old(writer).wf(),
    ensures
        final(writer).wf(),
        (final(writer)@, r) == blitted(machine@, old(writer)@, x, y, width, height, pointer),
{
    let g = writer.geometry;
    if x >= g.width as u64 || y >= g.height as u64 {
        return SYSCALL_ERROR;
    }
    let column: usize = x as usize;
    let line: usize = y as usize;
    let across: usize = if width < (g.width - column) as u64 {
        width as usize
    } else {
        g.width - column
    };
    let down: usize = if height < (g.height - line) as u64 {
        height as usize
    } else {
        g.height - line
    };
    let stride: Option<u64> = width.checked_mul(g.bpp as u64);
    let ghost step: int = width * g.bpp;
    let ghost before = writer@;
    let ghost goal = rows_copied(
        machine@,
        writer.memory@,
        g,
        column as int,
        line as int,
        across as int,
        down as int,
        pointer,
        step,
        0,
    );
    assert(0 <= step) by (nonlinear_arith)
        requires
            step == width * g.bpp,
            width >= 0,
            g.bpp >= 0,
    ;
    let mut address: u64 = pointer;
    let mut row: usize = 0;
    assert(pointer + 0 * step == pointer);
    while row < down
        invariant
            row <= down,
            before == old(writer)@,
            blitted(machine@, before, x, y, width, height, pointer) == (
                WriterView { memory: goal.0, ..before },
                if goal.1 {
                    0
                } else {
                    SYSCALL_ERROR
                },
            ),
            line + down <= g.height,
            column + across <= g.width,
            0 <= step,
            stride matches Some(s) ==> s == step,
            stride is None ==> step > u64::MAX,
            row < down ==> address == pointer + row * step,
            writer.geometry == g,
            writer.wf(),
            writer@ == (WriterView { memory: writer.memory@, ..before }),
            goal == rows_copied(
                machine@,
                writer.memory@,
                g,
                column as int,
                line as int,
                across as int,
                down as int,
                pointer,
                step,
                row as int,
            ),
        decreases down - row,
    {
        proof {
            lemma_row_inside(
                g,
                writer.memory@.len() as int,
                column as int,
                line + row,
                across as int,
            );
        }
        assert(writer.memory@.len() == writer.memory.len());
        let at: usize = (line + row) * g.pitch + column * g.bpp;
        if !copy_row(machine, &mut writer.memory, address, at, across * g.bpp) {
            return SYSCALL_ERROR;
        }
        proof {
            assert((row + 1) * step == row * step + step) by (nonlinear_arith);
            assert(0 <= row * step) by (nonlinear_arith)
                requires
                    0 <= row,
                    0 <= step,
            ;
        }
        let ghost last = row;
        row += 1;
        if row < down {
            assert(row == last + 1 && pointer + row * step == address + step);
            assert(goal == rows_copied(
                machine@,
                writer.memory@,
                g,
                column as int,
                line as int,
                across as int,
                down as int,
                pointer,
                step,
                row as int,
            ));
            match stride {
                None => {
                    return SYSCALL_ERROR;
                },
                Some(s) => {
                    if s > u64::MAX - address {
                        return SYSCALL_ERROR;
                    }
                    address += s;
                },
            }
        }
    }
    0
}

/// Whether a byte of a screen's memory belongs to an area of it.
pub open spec fn in_area(g: Geometry, x: int, y: int, across: int, down: int, k: int) -> bool {
    exists|row: int|
        0 <= row < down && #[trigger] g.place(x, y + row) <= k < g.place(x, y + row) + across
            * g.bpp
}

proof fn lemma_row_kept(
    m: MachineView,
    screen: Seq<u8>,
    pointer: u64,
    at: int,
    n: int,
    i: int,
    k: int,
)
    requires
        0 <= i,
        0 <= at,
        at + n <= screen.len(),
        0 <= k < screen.len(),
        !(at <= k < at + n),
    ensures
        row_copied(m, screen, pointer, at, n, i).0[k] == screen[k],
        row_copied(m, screen, pointer, at, n, i).0.len() == screen.len(),
    decreases n - i,
{
    if i < n && pointer + i <= u64::MAX {
        if let Some(p) = memory::place(m, (pointer + i) as u64, false) {
            lemma_row_kept(m, screen.update(at + i, m.ram[p]), pointer, at, n, i + 1, k);
        }
    }
}

proof fn lemma_rows_kept(
    m: MachineView,
    screen: Seq<u8>,
    g: Geometry,
    x: int,
    y: int,
    across: int,
    down: int,
    pointer: u64,
    stride: int,
    row: int,
    k: int,
)
    requires
        g.fits(screen.len() as int),
        0 <= x,
        0 <= across,
        x + across <= g.width,
        0 <= y,
        y + down <= g.height,
        0 <= row,
        0 <= k < screen.len(),
        !in_area(g, x, y, across, down, k),
    ensures
        rows_copied(m, screen, g, x, y, across, down, pointer, stride, row).0[k] == screen[k],
    decreases down - row,
{
    if row < down && pointer + row * stride <= u64::MAX {
        let from = (pointer + row * stride) as u64;
        let at = g.place(x, y + row);
        lemma_row_inside(g, screen.len() as int, x, y + row, across);
        lemma_row_kept(m, screen, from, at, across * g.bpp, 0, k);
        let after = row_copied(m, screen, from, at, across * g.bpp, 0).0;
        lemma_rows_kept(m, after, g, x, y, across, down, pointer, stride, row + 1, k);
    }
}

/// A picture changes nothing outside of its place on the screen, whether it
/// could be read to its end or not.
pub proof fn law_picture_stays_in_place(
    m: MachineView,
    w: WriterView,
    x: u64,
    y: u64,
    width: u64,
    height: u64,
    pointer: u64,
    k: int,
)
    requires
        w.geometry.fits(w.memory.len() as int),
        0 <= k < w.memory.len(),
        !in_area(
            w.geometry,
            x as int,
            y as int,
            at_most(width as int, w.geometry.width - x),
            at_most(height as int, w.geometry.height - y),
            k,
        ),
    ensures
        blitted(m, w, x, y, width, height, pointer).0.memory[k] == w.memory[k],
{
    let g = w.geometry;
    if g.inside(x as int, y as int) {
        lemma_rows_kept(
            m,
            w.memory,
            g,
            x as int,
            y as int,
            at_most(width as int, g.width - x),
            at_most(height as int, g.height - y),
            pointer,
            width * g.bpp,
            0,
            k,
        );
    }
}

/// A program learns the display's width, height, bytes in a row and bytes in a
/// pixel, in that order.
pub proof fn law_display_described(g: Geometry)
    requires
        g.width <= u64::MAX,
        g.height <= u64::MAX,
        g.pitch <= u64::MAX,
        g.bpp <= u64::MAX,
    ensures
        ({
            let r = info_record(g);
            &&& r.len() == 32
            &&& bytes::le64_at(r, 0) == g.width
            &&& bytes::le64_at(r, 8) == g.height
            &&& bytes::le64_at(r, 16) == g.pitch
            &&& bytes::le64_at(r, 24) == g.bpp
        }),
{
    let words = seq![g.width as u64, g.height as u64, g.pitch as u64, g.bpp as u64];
    lemma_four_words(words);
}

#[verifier::spinoff_prover]
#[verifier::rlimit(60)]
proof fn lemma_four_words(words: Seq<u64>)
    requires
        words.len() == 4,
    ensures
        ({
            let r = bytes::le64_bytes(words[0]) + bytes::le64_bytes(words[1]) + bytes::le64_bytes(
                words[2],
            ) + bytes::le64_bytes(words[3]);
            &&& r.len() == 32
            &&& bytes::le64_at(r, 0) == words[0]
            &&& bytes::le64_at(r, 8) == words[1]
            &&& bytes::le64_at(r, 16) == words[2]
            &&& bytes::le64_at(r, 24) == words[3]
        }),
{
    let r = bytes::le64_bytes(words[0]) + bytes::le64_bytes(words[1]) + bytes::le64_bytes(words[2])
        + bytes::le64_bytes(words[3]);
    let none = Seq::<u8>::empty();
    assert(none + bytes::le64_bytes(words[0]) =~= bytes::le64_bytes(words[0]));
    reveal_with_fuel(signal_frame::word_bytes, 5);
    assert(r == signal_frame::word_bytes(words, 4));
    signal_frame::law_word_round_trip(words, 4, 0);
    signal_frame::law_word_round_trip(words, 4, 1);
    signal_frame::law_word_round_trip(words, 4, 2);
    signal_frame::law_word_round_trip(words, 4, 3);
}

/// A program learns what kind of event came, of which key or button, what was
/// done, and where, in that order.
#[verifier::spinoff_prover]
#[verifier::rlimit(60)]
pub proof fn law_event_described(e: InputEvent)
    ensures
        ({
            let r = event_record(e);
            &&& r.len() == 20
            &&& bytes::le32_at(r, 0) == e.event_type
            &&& bytes::le32_at(r, 4) == e.code
            &&& e.value >= 0 ==> bytes::le32_at(r, 8) == e.value
            &&& e.x >= 0 ==> bytes::le32_at(r, 12) == e.x
            &&& e.y >= 0 ==> bytes::le32_at(r, 16) == e.y
        }),
{
    let r = event_record(e);
    let none = Seq::<u8>::empty();
    let a = bytes::le32_bytes(e.event_type);
    let b = bytes::le32_bytes(e.code);
    let c = bytes::le32_bytes(e.value as u32);
    let x = bytes::le32_bytes(e.x as u32);
    let y = bytes::le32_bytes(e.y as u32);
    bytes::le_round_trip(none, b + c + x + y, 0, e.event_type, 0);
    assert(none + a + (b + c + x + y) =~= r);
    bytes::le_round_trip(a, c + x + y, 0, e.code, 0);
    assert(a + b + (c + x + y) =~= r);
    bytes::le_round_trip(a + b, x + y, 0, e.value as u32, 0);
    assert((a + b) + c + (x + y) =~= r);
    bytes::le_round_trip(a + b + c, y, 0, e.x as u32, 0);
    assert((a + b + c) + x + y =~= r);
    bytes::le_round_trip(a + b + c + x, none, 0, e.y as u32, 0);
    assert((a + b + c + x) + y + none =~= r);
}

} // verus!
