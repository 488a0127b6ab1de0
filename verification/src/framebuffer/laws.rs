//! What is on the screen after drawing and writing.
use vstd::prelude::*;

use crate::bytes;
use crate::framebuffer::{self, Geometry, WriterView};

verus! {

/// The bytes of a pixel.
pub open spec fn pixel_at(m: Seq<u8>, g: Geometry, x: int, y: int) -> Seq<u8> {
    m.subrange(g.place(x, y), g.place(x, y) + g.bpp)
}

/// The bytes of a colour.
pub open spec fn colour(g: Geometry, rgb: Seq<u8>) -> Seq<u8> {
    bytes::le32_bytes(g.encoded(rgb)).take(g.bpp as int)
}

proof fn lemma_inside(g: Geometry, x: int, y: int, length: int)
    requires
        g.fits(length),
        g.inside(x, y),
    ensures
        0 <= g.place(x, y),
        g.place(x, y) + g.bpp <= (y + 1) * g.pitch,
        (y + 1) * g.pitch <= g.height * g.pitch <= length,
{
    let (w, h, p, b) = (g.width as int, g.height as int, g.pitch as int, g.bpp as int);
    assert(0 <= y * p + x * b) by (nonlinear_arith)
        requires
            0 <= y,
            0 <= x,
            0 <= p,
            0 <= b,
    ;
    assert(x * b + b <= w * b) by (nonlinear_arith)
        requires
            x < w,
            0 <= b,
    ;
    assert((y + 1) * p == y * p + p) by (nonlinear_arith);
    assert((y + 1) * p <= h * p) by (nonlinear_arith)
        requires
            y < h,
            0 <= p,
    ;
}

/// Two pixels do not overlap.
proof fn lemma_apart(g: Geometry, x: int, y: int, u: int, v: int, length: int)
    requires
        g.fits(length),
        g.inside(x, y),
        g.inside(u, v),
        x != u || y != v,
    ensures
        g.place(x, y) + g.bpp <= g.place(u, v) || g.place(u, v) + g.bpp <= g.place(x, y),
{
    let (p, b) = (g.pitch as int, g.bpp as int);
    lemma_inside(g, x, y, length);
    lemma_inside(g, u, v, length);
    if y == v {
        if x < u {
            assert(x * b + b <= u * b) by (nonlinear_arith)
                requires
                    x < u,
                    0 <= b,
            ;
        } else {
            assert(u * b + b <= x * b) by (nonlinear_arith)
                requires
                    u < x,
                    0 <= b,
            ;
        }
    } else if y < v {
        assert((y + 1) * p <= v * p) by (nonlinear_arith)
            requires
                y < v,
                0 <= p,
        ;
        assert(0 <= u * b) by (nonlinear_arith)
            requires
                0 <= u,
                0 <= b,
        ;
    } else {
        assert((v + 1) * p <= y * p) by (nonlinear_arith)
            requires
                v < y,
                0 <= p,
        ;
        assert(0 <= x * b) by (nonlinear_arith)
            requires
                0 <= x,
                0 <= b,
        ;
    }
}

/// A pixel that is set shows its colour; every other shows what it did.
pub proof fn law_pixel_shows(m: Seq<u8>, g: Geometry, x: int, y: int, rgb: Seq<u8>, u: int, v: int)
    requires
        g.fits(m.len() as int),
        g.drawable(),
        g.inside(u, v),
    ensures
        ({
            let after = framebuffer::pixel_set(m, g, x, y, rgb);
            &&& after.len() == m.len()
            &&& pixel_at(after, g, u, v) == (if u == x && v == y {
                colour(g, rgb)
            } else {
                pixel_at(m, g, u, v)
            })
        }),
{
    reveal(framebuffer::pixel_set);
    let after = framebuffer::pixel_set(m, g, x, y, rgb);
    lemma_inside(g, u, v, m.len() as int);
    if g.inside(x, y) {
        lemma_inside(g, x, y, m.len() as int);
        if u == x && v == y {
            assert(pixel_at(after, g, u, v) =~= colour(g, rgb));
        } else {
            lemma_apart(g, x, y, u, v, m.len() as int);
            assert(pixel_at(after, g, u, v) =~= pixel_at(m, g, u, v));
        }
    }
}

proof fn lemma_row(
    m: Seq<u8>,
    g: Geometry,
    x0: int,
    x1: int,
    y: int,
    rgb: Seq<u8>,
    u: int,
    v: int,
)
    requires
        g.fits(m.len() as int),
        g.drawable(),
        g.inside(u, v),
    ensures
        ({
            let after = framebuffer::row_set(m, g, x0, x1, y, rgb);
            &&& after.len() == m.len()
            &&& pixel_at(after, g, u, v) == (if x0 <= u < x1 && v == y {
                colour(g, rgb)
            } else {
                pixel_at(m, g, u, v)
            })
        }),
    decreases x1 - x0,
{
    if x0 < x1 {
        lemma_row(m, g, x0, x1 - 1, y, rgb, u, v);
        law_pixel_shows(
            framebuffer::row_set(m, g, x0, x1 - 1, y, rgb),
            g,
            x1 - 1,
            y,
            rgb,
            u,
            v,
        );
    }
}

/// An area that is filled shows its colour in every pixel of it; every pixel
/// outside of it shows what it did.
pub proof fn law_area_shows(
    m: Seq<u8>,
    g: Geometry,
    x0: int,
    x1: int,
    y0: int,
    y1: int,
    rgb: Seq<u8>,
    u: int,
    v: int,
)
    requires
        g.fits(m.len() as int),
        g.drawable(),
        g.inside(u, v),
    ensures
        ({
            let after = framebuffer::area_set(m, g, x0, x1, y0, y1, rgb);
            &&& after.len() == m.len()
            &&& pixel_at(after, g, u, v) == (if x0 <= u < x1 && y0 <= v < y1 {
                colour(g, rgb)
            } else {
                pixel_at(m, g, u, v)
            })
        }),
    decreases y1 - y0,
{
    if y0 < y1 {
        law_area_shows(m, g, x0, x1, y0, y1 - 1, rgb, u, v);
        lemma_row(
            framebuffer::area_set(m, g, x0, x1, y0, y1 - 1, rgb),
            g,
            x0,
            x1,
            y1 - 1,
            rgb,
            u,
            v,
        );
    }
}

/// A screen that is cleared shows its background everywhere, and writing starts
/// at its upper left corner.
pub proof fn law_cleared_screen(w: WriterView, u: int, v: int)
    requires
        w.geometry.fits(w.memory.len() as int),
        w.geometry.drawable(),
        w.geometry.inside(u, v),
    ensures
        ({
            let after = framebuffer::cleared(w);
            &&& pixel_at(after.memory, w.geometry, u, v) == colour(
                w.geometry,
                seq![0x12u8, 0x12, 0x18],
            )
            &&& after.x == 4
            &&& after.y == 4
        }),
{
    let g = w.geometry;
    law_area_shows(
        w.memory,
        g,
        0,
        g.width as int,
        0,
        g.height as int,
        framebuffer::backdrop(),
        u,
        v,
    );
}

/// A screen that is scrolled shows each pixel 18 rows higher, and its
/// background in the last 18 rows; writing goes on 18 rows higher.
pub proof fn law_scrolled_screen(w: WriterView, u: int, v: int)
    requires
        w.geometry.fits(w.memory.len() as int),
        w.geometry.drawable(),
        w.geometry.inside(u, v),
        w.geometry.height > 18,
        w.geometry.pitch > 0,
        w.y >= 18,
    ensures
        ({
            let g = w.geometry;
            let after = framebuffer::scrolled(w);
            &&& after.memory.len() == w.memory.len()
            &&& pixel_at(after.memory, g, u, v) == (if v < g.height - 18 {
                pixel_at(w.memory, g, u, v + 18)
            } else {
                colour(g, seq![0x12u8, 0x12, 0x18])
            })
            &&& after.x == w.x
            &&& after.y == w.y - 18
        }),
{
    let g = w.geometry;
    let (h, p, b) = (g.height as int, g.pitch as int, g.bpp as int);
    let shift = 18 * p;
    let total = h * p;
    assert(shift < total) by (nonlinear_arith)
        requires
            shift == 18 * p,
            total == h * p,
            18 < h,
            0 < p,
    ;
    let moved = w.memory.subrange(shift, total) + w.memory.skip(total - shift);
    assert(moved.len() == w.memory.len());
    law_area_shows(
        moved,
        g,
        0,
        g.width as int,
        h - 18,
        h,
        framebuffer::backdrop(),
        u,
        v,
    );
    if v < h - 18 {
        lemma_inside(g, u, v, w.memory.len() as int);
        lemma_inside(g, u, v + 18, w.memory.len() as int);
        assert((v + 18) * p == v * p + shift) by (nonlinear_arith)
            requires
                shift == 18 * p,
        ;
        assert(pixel_at(moved, g, u, v) =~= pixel_at(w.memory, g, u, v + 18));
    }
}

/// A character takes seven columns: the next is written right behind it, on the
/// same line, as long as there is room; otherwise on the next line.
pub proof fn law_character_takes_room(w: WriterView, c: char)
    requires
        c != '\n',
        c != '\r',
        c as u32 != 8,
        w.geometry.width >= 22,
        w.x <= w.geometry.width <= usize::MAX - 64,
        w.geometry.height <= usize::MAX - 64,
        w.y <= w.geometry.height,
    ensures
        ({
            let after = framebuffer::char_written(w, c);
            &&& w.x + 11 < w.geometry.width ==> after.x == w.x + 7 && after.y == w.y
            &&& w.x + 11 >= w.geometry.width ==> after.x == 11
            &&& after.geometry == w.geometry
        }),
{
}

/// The end of a line leads to the start of the next one, which is on the
/// screen: the screen is scrolled where it would not be.
pub proof fn law_line_end(w: WriterView)
    requires
        w.geometry.height > 38,
        w.geometry.pitch > 0,
        w.geometry.height <= usize::MAX - 64,
        w.y + 20 < w.geometry.height,
    ensures
        ({
            let after = framebuffer::char_written(w, '\n');
            &&& after.x == 4
            &&& w.y + 38 < w.geometry.height ==> after.y == w.y + 18 && after.memory == w.memory
            &&& w.y + 38 >= w.geometry.height ==> after.y == w.y
            &&& after.y + 20 < w.geometry.height
        }),
{
    let p = w.geometry.pitch as int;
    let h = w.geometry.height as int;
    assert(18 * p < h * p) by (nonlinear_arith)
        requires
            18 < h,
            0 < p,
    ;
}

/// A backspace goes back by one character and wipes it; at the start of a line
/// it does nothing.
pub proof fn law_backspace_wipes(w: WriterView, u: int, v: int)
    requires
        w.geometry.fits(w.memory.len() as int),
        w.geometry.drawable(),
        w.geometry.inside(u, v),
    ensures
        ({
            let after = framebuffer::backspaced(w);
            &&& w.x < 11 ==> after == w
            &&& w.x >= 11 ==> {
                &&& after.x == w.x - 7
                &&& after.y == w.y
                &&& pixel_at(after.memory, w.geometry, u, v) == (if w.x - 7 <= u < w.x && w.y <= v
                    < w.y + 16 {
                    colour(w.geometry, seq![0x12u8, 0x12, 0x18])
                } else {
                    pixel_at(w.memory, w.geometry, u, v)
                })
            }
        }),
{
    if w.x >= 11 {
        law_area_shows(
            w.memory,
            w.geometry,
            w.x - 7,
            w.x as int,
            w.y as int,
            w.y + 16,
            framebuffer::backdrop(),
            u,
            v,
        );
    }
}

/// Text that is written in pieces looks as if it was written at once.
pub proof fn law_text_in_pieces(w: WriterView, first: Seq<char>, second: Seq<char>)
    ensures
        framebuffer::text_written(framebuffer::text_written(w, first), second)
            == framebuffer::text_written(w, first + second),
    decreases second.len(),
{
    if second.len() == 0 {
        assert(first + second =~= first);
    } else {
        law_text_in_pieces(w, first, second.drop_last());
        assert((first + second).drop_last() =~= first + second.drop_last());
    }
}

} // verus!
