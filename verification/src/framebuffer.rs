//! Text on a screen, drawn into its memory.
use vstd::prelude::*;

pub mod laws;

use noto_sans_mono_bitmap::{get_raster, get_raster_width, FontWeight, RasterHeight};

use crate::bytes::{self, push_le32, put_vec};
use crate::store;

verus! {

pub const LINE_HEIGHT: usize = 18;

pub const FONT_HEIGHT: usize = 16;

pub const PADDING: usize = 4;

pub open spec fn backdrop() -> Seq<u8> {
    seq![0x12u8, 0x12, 0x18]
}

pub open spec fn foreground() -> Seq<u8> {
    seq![0xe6u8, 0xe6, 0xe6]
}

// ---------------------------------------------------------------------------
// The font
// ---------------------------------------------------------------------------
/// How dark each pixel of a character is, row by row, in the regular font of
/// sixteen rows; none for a character that the font does not have.
pub uninterp spec fn glyph_of(c: char) -> Option<Seq<Seq<u8>>>;

/// The picture of a character, by `get_raster` of `noto_sans_mono_bitmap`: it
/// depends on the character alone.
#[verifier::external_body]
fn find_glyph(c: char) -> (r: Option<Vec<Vec<u8>>>)
    ensures
        match r {
            Some(rows) => glyph_of(c) == Some(store::views(rows@)),
            None => glyph_of(c) is None,
        },
{
    match get_raster(c, FontWeight::Regular, RasterHeight::Size16) {
        Some(raster) => Some(raster.raster().iter().map(|row| row.to_vec()).collect()),
        None => None,
    }
}

/// How wide characters are, by `get_raster_width` of `noto_sans_mono_bitmap`:
/// seven pixels in the regular font of sixteen rows.
#[verifier::external_body]
fn glyph_width() -> (r: usize)
    ensures
        r == 7,
{
    get_raster_width(FontWeight::Regular, RasterHeight::Size16)
}

// ---------------------------------------------------------------------------
// Pixels
// ---------------------------------------------------------------------------
/// How a screen lies in its memory.
#[derive(Clone, Copy, Debug, PartialEq, Eq, Structural)]
pub struct Geometry {
    pub width: usize,
    pub height: usize,
    pub pitch: usize,
    pub bpp: usize,
    pub red_shift: u32,
    pub green_shift: u32,
    pub blue_shift: u32,
}

impl Geometry {
    /// Whether rows and pixels fit a memory.
    pub open spec fn fits(self, length: int) -> bool {
        &&& self.width * self.bpp <= self.pitch
        &&& self.height * self.pitch <= length
        &&& self.width <= usize::MAX - 64
        &&& self.height <= usize::MAX - 64
        &&& self.red_shift < 32
        &&& self.green_shift < 32
        &&& self.blue_shift < 32
    }

    pub open spec fn encoded(self, rgb: Seq<u8>) -> u32 {
        ((rgb[0] as u32) << self.red_shift) | ((rgb[1] as u32) << self.green_shift) | ((
        rgb[2] as u32) << self.blue_shift)
    }

    pub open spec fn drawable(self) -> bool {
        2 <= self.bpp <= 4
    }

    pub open spec fn place(self, x: int, y: int) -> int {
        y * self.pitch + x * self.bpp
    }

    pub open spec fn inside(self, x: int, y: int) -> bool {
        0 <= x < self.width && 0 <= y < self.height
    }
}

/// The memory with one pixel set; outside of the screen nothing changes.
#[verifier::opaque]
pub open spec fn pixel_set(m: Seq<u8>, g: Geometry, x: int, y: int, rgb: Seq<u8>) -> Seq<u8> {
    if g.inside(x, y) && g.drawable() {
        bytes::splice(m, g.place(x, y), bytes::le32_bytes(g.encoded(rgb)).take(g.bpp as int))
    } else {
        m
    }
}

/// The memory with a part of a row set, from left to right.
pub open spec fn row_set(m: Seq<u8>, g: Geometry, x0: int, x1: int, y: int, rgb: Seq<u8>) -> Seq<u8>
    decreases x1 - x0,
{
    if x1 <= x0 {
        m
    } else {
        pixel_set(row_set(m, g, x0, x1 - 1, y, rgb), g, x1 - 1, y, rgb)
    }
}

/// The memory with an area set, from top to bottom.
pub open spec fn area_set(
    m: Seq<u8>,
    g: Geometry,
    x0: int,
    x1: int,
    y0: int,
    y1: int,
    rgb: Seq<u8>,
) -> Seq<u8>
    decreases y1 - y0,
{
    if y1 <= y0 {
        m
    } else {
        row_set(area_set(m, g, x0, x1, y0, y1 - 1, rgb), g, x0, x1, y1 - 1, rgb)
    }
}

/// A colour between two.
pub open spec fn blended(bg: Seq<u8>, fg: Seq<u8>, a: u8) -> Seq<u8> {
    Seq::new(3, |i: int| ((bg[i] * (255 - a) + fg[i] * a) / 255) as u8)
}

/// The memory with the first pixels of a row of a character drawn.
pub open spec fn glyph_row_set(m: Seq<u8>, g: Geometry, row: Seq<u8>, x: int, y: int, upto: int) -> Seq<
    u8,
>
    decreases upto,
{
    if upto <= 0 {
        m
    } else {
        pixel_set(
            glyph_row_set(m, g, row, x, y, upto - 1),
            g,
            x + upto - 1,
            y,
            blended(backdrop(), foreground(), row[upto - 1]),
        )
    }
}

/// The memory with the first rows of a character drawn.
pub open spec fn glyph_set(m: Seq<u8>, g: Geometry, rows: Seq<Seq<u8>>, x: int, y: int, upto: int) -> Seq<
    u8,
>
    decreases upto,
{
    if upto <= 0 {
        m
    } else {
        glyph_row_set(
            glyph_set(m, g, rows, x, y, upto - 1),
            g,
            rows[upto - 1],
            x,
            y + upto - 1,
            rows[upto - 1].len() as int,
        )
    }
}

proof fn lemma_place(g: Geometry, x: int, y: int, length: int)
    requires
        g.fits(length),
        g.inside(x, y),
    ensures
        0 <= y * g.pitch,
        0 <= x * g.bpp,
        0 <= g.place(x, y),
        g.place(x, y) + g.bpp <= g.height * g.pitch,
        y * g.pitch <= g.height * g.pitch,
        x * g.bpp <= g.pitch,
{
    assert(x * g.bpp + g.bpp <= g.width * g.bpp) by (nonlinear_arith)
        requires
            0 <= x < g.width,
            0 <= g.bpp,
    ;
    assert(y * g.pitch + g.pitch <= g.height * g.pitch) by (nonlinear_arith)
        requires
            0 <= y < g.height,
            0 <= g.pitch,
    ;
    assert(0 <= y * g.pitch) by (nonlinear_arith)
        requires
            0 <= y,
            0 <= g.pitch,
    ;
    assert(0 <= x * g.bpp) by (nonlinear_arith)
        requires
            0 <= x,
            0 <= g.bpp,
    ;
}

// ---------------------------------------------------------------------------
// The writer
// ---------------------------------------------------------------------------
/// A screen and where the next character goes.
#[derive(Debug)]
pub struct Writer {
    pub memory: Vec<u8>,
    pub geometry: Geometry,
    pub x: usize,
    pub y: usize,
}

#[verifier::ext_equal]
pub struct WriterView {
    pub memory: Seq<u8>,
    pub geometry: Geometry,
    pub x: usize,
    pub y: usize,
}

impl View for Writer {
    type V = WriterView;

    open spec fn view(&self) -> WriterView {
        WriterView { memory: self.memory@, geometry: self.geometry, x: self.x, y: self.y }
    }
}

pub open spec fn cleared(w: WriterView) -> WriterView {
    let g = w.geometry;
    WriterView {
        memory: area_set(w.memory, g, 0, g.width as int, 0, g.height as int, backdrop()),
        x: 4,
        y: 4,
        ..w
    }
}

/// The screen moved up by a line; the last rows are wiped.
pub open spec fn scrolled(w: WriterView) -> WriterView {
    let g = w.geometry;
    let shift = 18 * g.pitch;
    let total = g.height * g.pitch;
    if shift >= total {
        cleared(w)
    } else {
        let moved = w.memory.subrange(shift, total) + w.memory.skip(total - shift);
        WriterView {
            memory: area_set(
                moved,
                g,
                0,
                g.width as int,
                g.height - 18,
                g.height as int,
                backdrop(),
            ),
            y: (w.y - 18) as usize,
            ..w
        }
    }
}

pub open spec fn line_ended(w: WriterView) -> WriterView {
    let down = WriterView { x: 4, y: (w.y + 18) as usize, ..w };
    if down.y + 20 >= w.geometry.height {
        scrolled(down)
    } else {
        down
    }
}

pub open spec fn backspaced(w: WriterView) -> WriterView {
    if w.x >= 11 {
        WriterView {
            memory: area_set(
                w.memory,
                w.geometry,
                w.x - 7,
                w.x as int,
                w.y as int,
                w.y + 16,
                backdrop(),
            ),
            x: (w.x - 7) as usize,
            ..w
        }
    } else {
        w
    }
}

/// A line begun anew where a character would not fit.
pub open spec fn room_made(w: WriterView) -> WriterView {
    let edge = if w.geometry.width >= 4 {
        w.geometry.width - 4
    } else {
        0
    };
    if w.x + 7 >= edge {
        line_ended(w)
    } else {
        w
    }
}

/// A picture drawn where the next character goes.
pub open spec fn drawn(w: WriterView, glyph: Option<Seq<Seq<u8>>>) -> WriterView {
    WriterView {
        memory: match glyph {
            Some(rows) => glyph_set(
                w.memory,
                w.geometry,
                rows,
                w.x as int,
                w.y as int,
                rows.len() as int,
            ),
            None => w.memory,
        },
        x: (w.x + 7) as usize,
        ..w
    }
}

pub open spec fn char_written(w: WriterView, c: char) -> WriterView {
    if c == '\n' {
        line_ended(w)
    } else if c == '\r' {
        WriterView { x: 4, ..w }
    } else if c as u32 == 8 {
        backspaced(w)
    } else {
        drawn(room_made(w), glyph_of(c))
    }
}

pub open spec fn text_written(w: WriterView, text: Seq<char>) -> WriterView
    decreases text.len(),
{
    if text.len() == 0 {
        w
    } else {
        char_written(text_written(w, text.drop_last()), text.last())
    }
}

impl Writer {
    pub open spec fn wf(&self) -> bool {
        &&& self.geometry.fits(self.memory@.len() as int)
        &&& self.x <= self.geometry.width + 11
        &&& self.y <= self.geometry.height + 4
    }

    /// A screen that is wiped.
    pub fn new(memory: Vec<u8>, geometry: Geometry) -> (r: Self)
        requires
            geometry.fits(memory@.len() as int),
        ensures
            r.wf(),
            r@ == cleared(WriterView { memory: memory@, geometry, x: 4, y: 4 }),
    {
        let mut writer = Writer { memory, geometry, x: PADDING, y: PADDING };
        writer.clear();
        writer
    }

    fn put_pixel(&mut self, x: usize, y: usize, rgb: [u8; 3])
        requires
            old(self).wf(),
        ensures
            final(self).wf(),
            final(self)@ == (WriterView {
                memory: pixel_set(
                    old(self)@.memory,
                    old(self).geometry,
                    x as int,
                    y as int,
                    rgb@,
                ),
                ..old(self)@
            }),
            final(self).memory@.len() == old(self).memory@.len(),
    {
        let g = self.geometry;
        proof {
            reveal(pixel_set);
        }
        if x >= g.width || y >= g.height {
            return;
        }
        if g.bpp < 2 || g.bpp > 4 {
            return;
        }
        proof {
            lemma_place(g, x as int, y as int, self.memory@.len() as int);
        }
        assert(self.memory@.len() == self.memory.len());
        let place: usize = y * g.pitch + x * g.bpp;
        let value: u32 = ((rgb[0] as u32) << g.red_shift) | ((rgb[1] as u32) << g.green_shift) | ((
        rgb[2] as u32) << g.blue_shift);
        let mut bytes: Vec<u8> = Vec::new();
        push_le32(&mut bytes, value);
        assert(bytes@ =~= bytes::le32_bytes(value));
        put_vec(
            &mut self.memory,
            place,
            vstd::slice::slice_subrange(bytes.as_slice(), 0, g.bpp),
        );
    }

    /// Sets an area.
    fn fill(&mut self, x0: usize, x1: usize, y0: usize, y1: usize, rgb: [u8; 3])
        requires
            old(self).wf(),
            x0 <= x1,
            y0 <= y1,
        ensures
            final(self).wf(),
            final(self).memory@.len() == old(self).memory@.len(),
            final(self)@ == (WriterView {
                memory: area_set(
                    old(self)@.memory,
                    old(self).geometry,
                    x0 as int,
                    x1 as int,
                    y0 as int,
                    y1 as int,
                    rgb@,
                ),
                ..old(self)@
            }),
    {
        let ghost g = self.geometry;
        let ghost before = self@;
        let mut y: usize = y0;
        while y < y1
            invariant
                y0 <= y <= y1,
                x0 <= x1,
                self.wf(),
                g == self.geometry,
                self.memory@.len() == before.memory.len(),
                self@ == (WriterView {
                    memory: area_set(
                        before.memory,
                        g,
                        x0 as int,
                        x1 as int,
                        y0 as int,
                        y as int,
                        rgb@,
                    ),
                    ..before
                }),
            decreases y1 - y,
        {
            let ghost row = self@;
            let mut x: usize = x0;
            while x < x1
                invariant
                    x0 <= x <= x1,
                    self.wf(),
                    g == self.geometry,
                    self.memory@.len() == before.memory.len(),
                    self@ == (WriterView {
                        memory: row_set(row.memory, g, x0 as int, x as int, y as int, rgb@),
                        ..row
                    }),
                decreases x1 - x,
            {
                self.put_pixel(x, y, rgb);
                x += 1;
            }
            y += 1;
        }
    }

    /// Wipes the screen.
    pub fn clear(&mut self)
        requires
            old(self).geometry.fits(old(self).memory@.len() as int),
        ensures
            final(self).wf(),
            final(self).memory@.len() == old(self).memory@.len(),
            final(self)@ == cleared(old(self)@),
    {
        self.x = PADDING;
        self.y = PADDING;
        let rgb: [u8; 3] = [0x12, 0x12, 0x18];
        assert(rgb@ =~= backdrop());
        let width: usize = self.geometry.width;
        let height: usize = self.geometry.height;
        self.fill(0, width, 0, height, rgb);
    }

    fn scroll(&mut self)
        requires
            old(self).geometry.fits(old(self).memory@.len() as int),
            old(self).x <= old(self).geometry.width + 11,
            18 <= old(self).y <= old(self).geometry.height + 22,
        ensures
            final(self).wf(),
            final(self)@ == scrolled(old(self)@),
    {
        let g = self.geometry;
        let ghost before = self.memory@;
        assert(self.memory@.len() == self.memory.len());
        proof {
            assert(g.height * g.pitch >= 0) by (nonlinear_arith)
                requires
                    g.height >= 0,
                    g.pitch >= 0,
            ;
            assert(18 * g.pitch < g.height * g.pitch ==> g.height > 18) by (nonlinear_arith)
                requires
                    g.height >= 0,
                    g.pitch >= 0,
            ;
            assert(g.height > 18 ==> 18 * g.pitch <= g.height * g.pitch) by (nonlinear_arith)
                requires
                    g.height >= 0,
                    g.pitch >= 0,
            ;
            assert(g.height <= 18 ==> 18 * g.pitch >= g.height * g.pitch) by (nonlinear_arith)
                requires
                    g.height >= 0,
                    g.pitch >= 0,
            ;
        }
        if g.height <= LINE_HEIGHT || g.pitch == 0 {
            self.clear();
            return;
        }
        proof {
            assert(18 * g.pitch < g.height * g.pitch) by (nonlinear_arith)
                requires
                    g.height > 18,
                    g.pitch > 0,
            ;
        }
        let total: usize = g.height * g.pitch;
        let shift: usize = LINE_HEIGHT * g.pitch;
        let moved: Vec<u8> = crate::bytes::copy_range(self.memory.as_slice(), shift, total);
        put_vec(&mut self.memory, 0, moved.as_slice());
        assert(self.memory@ =~= before.subrange(shift as int, total as int) + before.skip(
            total - shift,
        ));
        self.y = self.y - LINE_HEIGHT;
        let rgb: [u8; 3] = [0x12, 0x12, 0x18];
        assert(rgb@ =~= backdrop());
        self.fill(0, g.width, g.height - LINE_HEIGHT, g.height, rgb);
    }

    fn newline(&mut self)
        requires
            old(self).wf(),
        ensures
            final(self).wf(),
            final(self)@ == line_ended(old(self)@),
            final(self).x == 4,
    {
        self.x = PADDING;
        self.y = self.y + LINE_HEIGHT;
        if self.y + FONT_HEIGHT + PADDING >= self.geometry.height {
            self.scroll();
        }
    }

    fn backspace(&mut self)
        requires
            old(self).wf(),
        ensures
            final(self).wf(),
            final(self)@ == backspaced(old(self)@),
    {
        let w: usize = glyph_width();
        if self.x >= PADDING + w {
            let right: usize = self.x;
            self.x = self.x - w;
            let rgb: [u8; 3] = [0x12, 0x12, 0x18];
            assert(rgb@ =~= backdrop());
            let top: usize = self.y;
            self.fill(right - w, right, top, top + FONT_HEIGHT, rgb);
        }
    }

    /// Draws a picture where the next character goes.
    pub fn draw(&mut self, glyph: &Option<Vec<Vec<u8>>>)
        requires
            old(self).wf(),
            old(self).x <= old(self).geometry.width + 4,
        ensures
            final(self).wf(),
            final(self)@ == drawn(
                old(self)@,
                match *glyph {
                    Some(rows) => Some(store::views(rows@)),
                    None => None,
                },
            ),
    {
        if let Some(rows) = glyph {
            let ghost g = self.geometry;
            let ghost before = self@;
            let ghost seen = store::views(rows@);
            let mut dy: usize = 0;
            while dy < rows.len()
                invariant
                    dy <= rows.len(),
                    self.wf(),
                    seen == store::views(rows@),
                    g == self.geometry,
                    self.x == before.x,
                    self.y == before.y,
                    self.memory@.len() == before.memory.len(),
                    self@ == (WriterView {
                        memory: glyph_set(
                            before.memory,
                            g,
                            seen,
                            before.x as int,
                            before.y as int,
                            dy as int,
                        ),
                        ..before
                    }),
                decreases rows.len() - dy,
            {
                self.draw_row(rows[dy].as_slice(), dy);
                dy += 1;
            }
        }
        self.x = self.x + glyph_width();
    }

    fn draw_row(&mut self, row: &[u8], dy: usize)
        requires
            old(self).wf(),
        ensures
            final(self).wf(),
            final(self).memory@.len() == old(self).memory@.len(),
            final(self)@ == (WriterView {
                memory: glyph_row_set(
                    old(self)@.memory,
                    old(self).geometry,
                    row@,
                    old(self).x as int,
                    old(self).y + dy,
                    row@.len() as int,
                ),
                ..old(self)@
            }),
    {
        let g = self.geometry;
        let ghost before = self@;
        let mut dx: usize = 0;
        assert(row@.len() == row.len());
        while dx < row.len()
            invariant
                dx <= row@.len(),
                row@.len() == row.len(),
                self.wf(),
                g == self.geometry,
                self.x == before.x,
                self.y == before.y,
                self.memory@.len() == before.memory.len(),
                self@ == (WriterView {
                    memory: glyph_row_set(
                        before.memory,
                        g,
                        row@,
                        before.x as int,
                        before.y + dy,
                        dx as int,
                    ),
                    ..before
                }),
            decreases row@.len() - dx,
        {
            let rgb: [u8; 3] = blend([0x12, 0x12, 0x18], [0xe6, 0xe6, 0xe6], row[dx]);
            proof {
                let bg: [u8; 3] = [0x12, 0x12, 0x18];
                let fg: [u8; 3] = [0xe6, 0xe6, 0xe6];
                assert(bg@ =~= backdrop());
                assert(fg@ =~= foreground());
                reveal(pixel_set);
            }
            if self.x < g.width && dx < g.width - self.x && self.y < g.height && dy < g.height
                - self.y {
                let x: usize = self.x + dx;
                let y: usize = self.y + dy;
                self.put_pixel(x, y, rgb);
            }
            dx += 1;
        }
    }

    pub fn write_char(&mut self, c: char)
        requires
            old(self).wf(),
        ensures
            final(self).wf(),
            final(self)@ == char_written(old(self)@, c),
    {
        if c == '\n' {
            self.newline();
        } else if c == '\r' {
            self.x = PADDING;
        } else if c as u32 == 8 {
            self.backspace();
        } else {
            let edge: usize = if self.geometry.width >= PADDING {
                self.geometry.width - PADDING
            } else {
                0
            };
            if self.x + glyph_width() >= edge {
                self.newline();
            }
            let glyph = find_glyph(c);
            self.draw(&glyph);
        }
    }

    pub fn write_chars(&mut self, text: &[char])
        requires
            old(self).wf(),
        ensures
            final(self).wf(),
            final(self)@ == text_written(old(self)@, text@),
    {
        let mut i: usize = 0;
        assert(text@.take(0) =~= Seq::<char>::empty());
        while i < text.len()
            invariant
                i <= text@.len(),
                self.wf(),
                self@ == text_written(old(self)@, text@.take(i as int)),
            decreases text@.len() - i,
        {
            self.write_char(text[i]);
            i += 1;
            assert(text@.take(i as int).drop_last() =~= text@.take(i - 1));
        }
        assert(text@.take(i as int) =~= text@);
    }
}

fn blend(bg: [u8; 3], fg: [u8; 3], a: u8) -> (r: [u8; 3])
    ensures
        r@ == blended(bg@, fg@, a),
{
    let r: [u8; 3] = [
        blend_channel(bg[0], fg[0], a),
        blend_channel(bg[1], fg[1], a),
        blend_channel(bg[2], fg[2], a),
    ];
    assert(r@ =~= blended(bg@, fg@, a));
    r
}

fn blend_channel(bg: u8, fg: u8, a: u8) -> (r: u8)
    ensures
        r == ((bg * (255 - a) + fg * a) / 255) as u8,
{
    proof {
        assert(bg * (255 - a) <= 255 * (255 - a)) by (nonlinear_arith)
            requires
                0 <= bg <= 255,
                0 <= a <= 255,
        ;
        assert(fg * a <= 255 * a) by (nonlinear_arith)
            requires
                0 <= fg <= 255,
                0 <= a <= 255,
        ;
        assert(0 <= bg * (255 - a) && 0 <= fg * a) by (nonlinear_arith)
            requires
                0 <= bg <= 255,
                0 <= fg <= 255,
                0 <= a <= 255,
        ;
    }
    ((bg as u32 * (255 - a as u32) + fg as u32 * a as u32) / 255) as u8
}

// ---------------------------------------------------------------------------
// Laws
// ---------------------------------------------------------------------------
/// A pixel that is set holds its colour, and the rest of the memory is as it
/// was.
pub proof fn law_pixel_alone(m: Seq<u8>, g: Geometry, x: int, y: int, rgb: Seq<u8>)
    requires
        g.fits(m.len() as int),
        g.inside(x, y),
        g.drawable(),
    ensures
        ({
            let after = pixel_set(m, g, x, y, rgb);
            let p = g.place(x, y);
            &&& after.len() == m.len()
            &&& after.subrange(p, p + g.bpp) == bytes::le32_bytes(g.encoded(rgb)).take(g.bpp as int)
            &&& forall|i: int|
                0 <= i < m.len() && !(p <= i < p + g.bpp) ==> #[trigger] after[i] == m[i]
        }),
{
    reveal(pixel_set);
    lemma_place(g, x, y, m.len() as int);
    let after = pixel_set(m, g, x, y, rgb);
    let p = g.place(x, y);
    assert(after.subrange(p, p + g.bpp) =~= bytes::le32_bytes(g.encoded(rgb)).take(g.bpp as int));
}

/// A colour of full strength is the foreground, and one of none the backdrop.
pub proof fn law_blend_ends(bg: Seq<u8>, fg: Seq<u8>)
    requires
        bg.len() == 3,
        fg.len() == 3,
    ensures
        blended(bg, fg, 0) == bg,
        blended(bg, fg, 255) == fg,
{
    assert forall|i: int| 0 <= i < 3 implies blended(bg, fg, 0)[i] == bg[i] && blended(
        bg,
        fg,
        255,
    )[i] == fg[i] by {
        let (b, f) = (bg[i] as int, fg[i] as int);
        assert((b * 255 + f * 0) / 255 == b);
        assert((b * 0 + f * 255) / 255 == f);
    }
    assert(blended(bg, fg, 0) =~= bg);
    assert(blended(bg, fg, 255) =~= fg);
}

} // verus!
