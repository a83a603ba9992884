//! Tile composition: an RGB888 canvas with solid fills, a one-pixel frame,
//! alpha blending of glyph coverage bitmaps and packing to the device's
//! RGB565 little-endian format; plus the colour and icon names that
//! profiles use.

use vstd::prelude::*;
use vstd::utf8::encode_utf8;
use vstd::utf8::is_char_boundary;

use crate::text::{
    all_digits, char_from_u32, chars_eq, chars_of, codes, digit_value, is_ws, lemma_numeral_digits,
    lemma_numeral_parses, lemma_trim_padded, lower_all, numeral, parse_uint, parse_unsigned, to_ascii_lowercase, trim,
    trim_bounds, codes_of,
};

verus! {

broadcast use vstd::utf8::encode_utf8_valid_utf8;

/// One RGB888 pixel.
pub type Rgb = [u8; 3];

/// Colour of the one-pixel tile frame.
pub open spec fn frame_color() -> Rgb {
    [60, 62, 70]
}

/// Height of the optional accent bar across the top of a key.
pub const ACCENT_H: usize = 5;

/// The tile frame is drawn in (60, 62, 70), and the accent bar is 5 rows
/// tall, with content starting 4 rows below it.
pub proof fn lemma_tile_constants()
    ensures
        frame_color() == [60u8, 62u8, 70u8],
        ACCENT_H == 5,
        ACCENT_H + 4 == 9,
{
}

/// In a framed tile the outermost rows and columns are the frame colour and
/// every pixel inside keeps its colour.
pub proof fn lemma_framed(px: Seq<Rgb>, w: int, h: int, color: Rgb, x: int, y: int)
    requires
        w > 0,
        h > 0,
        px.len() == w * h,
        0 <= x < w,
        0 <= y < h,
    ensures
        (x == 0 || y == 0 || x == w - 1 || y == h - 1) ==> framed(px, w, h, color)[y * w + x] == color,
        (0 < x < w - 1 && 0 < y < h - 1) ==> framed(px, w, h, color)[y * w + x] == px[y * w + x],
        framed(px, w, h, color).len() == px.len(),
{
    assert(0 <= y * w + x < w * h) by (nonlinear_arith)
        requires
            0 <= x < w,
            0 <= y < h,
    ;
    assert((y * w + x) % w == x && (y * w + x) / w == y) by (nonlinear_arith)
        requires
            0 <= x < w,
            0 <= y,
            w > 0,
    ;
}

/// The index of pixel (x, y) in a row-major canvas of width `w`.
pub open spec fn cell(w: int, x: int, y: int) -> int {
    y * w + x
}

proof fn lemma_cell_in_bounds(w: int, h: int, x: int, y: int)
    requires
        0 <= x < w,
        0 <= y < h,
    ensures
        0 <= cell(w, x, y) < w * h,
{
    assert(y * w + x < w * h) by (nonlinear_arith)
        requires
            0 <= x < w,
            0 <= y < h,
    ;
    assert(0 <= y * w) by (nonlinear_arith)
        requires
            0 <= y,
            0 <= w,
    ;
}

proof fn lemma_cell_unique(w: int, x1: int, y1: int, x2: int, y2: int)
    requires
        0 <= x1 < w,
        0 <= x2 < w,
        0 <= y1,
        0 <= y2,
        cell(w, x1, y1) == cell(w, x2, y2),
    ensures
        x1 == x2,
        y1 == y2,
{
    if y1 < y2 {
        assert(y1 * w + w <= y2 * w) by (nonlinear_arith)
            requires
                y1 < y2,
                0 <= w,
        ;
    } else if y2 < y1 {
        assert(y2 * w + w <= y1 * w) by (nonlinear_arith)
            requires
                y2 < y1,
                0 <= w,
        ;
    }
}

/// A small RGB888 drawing surface, row-major.
pub struct Canvas {
    w: usize,
    h: usize,
    px: Vec<Rgb>,
}

impl Canvas {
    /// Well-formed: one pixel per (x, y).
    pub closed spec fn wf(self) -> bool {
        self.px@.len() == self.w * self.h
    }

    /// Width in pixels.
    pub closed spec fn spec_width(self) -> int {
        self.w as int
    }

    /// Height in pixels.
    pub closed spec fn spec_height(self) -> int {
        self.h as int
    }

    /// The pixels, row-major.
    pub closed spec fn spec_pixels(self) -> Seq<Rgb> {
        self.px@
    }

    /// The pixel at (x, y).
    pub open spec fn at(self, x: int, y: int) -> Rgb {
        self.spec_pixels()[cell(self.spec_width(), x, y)]
    }

    /// Whether (x, y) lies on the canvas.
    pub open spec fn on(self, x: int, y: int) -> bool {
        0 <= x < self.spec_width() && 0 <= y < self.spec_height()
    }

    /// There is one pixel per (x, y).
    pub proof fn lemma_size(&self)
        requires
            self.wf(),
        ensures
            self.spec_pixels().len() == self.spec_width() * self.spec_height(),
            self.spec_width() >= 0,
            self.spec_height() >= 0,
    {
    }

    /// A `w`x`h` canvas filled with `bg`.
    pub fn new(w: usize, h: usize, bg: Rgb) -> (c: Canvas)
        requires
            w * h <= usize::MAX,
        ensures
            c.wf(),
            c.spec_width() == w,
            c.spec_height() == h,
            forall|i: int| 0 <= i < w * h ==> c.spec_pixels()[i] == bg,
    {
        let n = w * h;
        let mut px: Vec<Rgb> = Vec::new();
        let mut i: usize = 0;
        while i < n
            invariant
                i <= n,
                px@.len() == i,
                forall|k: int| 0 <= k < i ==> px@[k] == bg,
            decreases n - i,
        {
            px.push(bg);
            i = i + 1;
        }
        Canvas { w, h, px }
    }

    /// Width in pixels.
    pub fn width(&self) -> (r: usize)
        ensures
            r == self.spec_width(),
    {
        self.w
    }

    /// Height in pixels.
    pub fn height(&self) -> (r: usize)
        ensures
            r == self.spec_height(),
    {
        self.h
    }

    /// Fill the half-open rectangle [x0, x1) x [y0, y1), clamped to the
    /// canvas, with `color`.
    pub fn fill_rect(&mut self, x0: usize, y0: usize, x1: usize, y1: usize, color: Rgb)
        requires
            old(self).wf(),
        ensures
            final(self).wf(),
            final(self).spec_width() == old(self).spec_width(),
            final(self).spec_height() == old(self).spec_height(),
            forall|x: int, y: int|
                old(self).on(x, y) ==> #[trigger] final(self).at(x, y) == if x0 <= x < x1 && y0 <= y
                    < y1 {
                    color
                } else {
                    old(self).at(x, y)
                },
    {
        let w = self.w;
        let h = self.h;
        let n = self.px.len();
        let ye = if y1 < h {
            y1
        } else {
            h
        };
        let xe = if x1 < w {
            x1
        } else {
            w
        };
        let ghost orig = self.px@;
        let mut y = y0;
        while y < ye
            invariant
                self.w == w,
                self.h == h,
                self.px@.len() == w * h,
                w * h <= usize::MAX,
                orig == old(self).px@,
                ye <= h,
                xe <= w,
                y0 <= y,
                y0 >= ye ==> y == y0,
                y0 < ye ==> y <= ye,
                forall|px: int, py: int|
                    0 <= px < w && 0 <= py < h ==> #[trigger] self.px@[cell(w as int, px, py)] == if x0
                        <= px < xe && y0 <= py < y {
                        color
                    } else {
                        orig[cell(w as int, px, py)]
                    },
            decreases ye - y,
        {
            let mut x = x0;
            while x < xe
                invariant
                    self.w == w,
                    self.h == h,
                    self.px@.len() == w * h,
                    w * h <= usize::MAX,
                    ye <= h,
                    xe <= w,
                    y0 <= y < ye,
                    x0 >= xe ==> x == x0,
                    x0 < xe ==> x <= xe,
                    x0 <= x,
                    forall|px: int, py: int|
                        0 <= px < w && 0 <= py < h ==> #[trigger] self.px@[cell(w as int, px, py)]
                            == if (x0 <= px < xe && y0 <= py < y) || (x0 <= px < x && py == y) {
                            color
                        } else {
                            orig[cell(w as int, px, py)]
                        },
                decreases xe - x,
            {
                proof {
                    lemma_cell_in_bounds(w as int, h as int, x as int, y as int);
                }
                let idx = y * w + x;
                let ghost before = self.px@;
                self.px.set(idx, color);
                proof {
                    assert forall|px: int, py: int| 0 <= px < w && 0 <= py < h implies #[trigger] self.px@[cell(
                        w as int,
                        px,
                        py,
                    )] == if (x0 <= px < xe && y0 <= py < y) || (x0 <= px < x + 1 && py == y) {
                        color
                    } else {
                        orig[cell(w as int, px, py)]
                    } by {
                        lemma_cell_in_bounds(w as int, h as int, px, py);
                        if cell(w as int, px, py) == idx {
                            lemma_cell_unique(w as int, px, py, x as int, y as int);
                        } else {
                            assert(self.px@[cell(w as int, px, py)] == before[cell(w as int, px, py)]);
                        }
                    }
                }
                x = x + 1;
            }
            y = y + 1;
        }
        proof {
            assert forall|px: int, py: int| old(self).on(px, py) implies #[trigger] self.at(px, py)
                == if x0 <= px < x1 && y0 <= py < y1 {
                color
            } else {
                old(self).at(px, py)
            } by {}
        }
    }
}

impl Canvas {
    /// Draw a one-pixel frame of `color` around the canvas edge.
    pub fn frame(&mut self, color: Rgb)
        requires
            old(self).wf(),
            (old(self).spec_width() > 0 && old(self).spec_height() > 0) || (old(self).spec_width()
                == 0 && old(self).spec_height() == 0),
        ensures
            final(self).wf(),
            final(self).spec_width() == old(self).spec_width(),
            final(self).spec_height() == old(self).spec_height(),
            forall|x: int, y: int|
                old(self).on(x, y) ==> #[trigger] final(self).at(x, y) == if x == 0 || y == 0 || x
                    == old(self).spec_width() - 1 || y == old(self).spec_height() - 1 {
                    color
                } else {
                    old(self).at(x, y)
                },
    {
        let w = self.w;
        let h = self.h;
        let n = self.px.len();
        let ghost orig = self.px@;
        if w == 0 {
            return;
        }
        let mut x: usize = 0;
        while x < w
            invariant
                self.w == w,
                self.h == h,
                w > 0,
                h > 0,
                self.px@.len() == w * h,
                w * h <= usize::MAX,
                orig == old(self).px@,
                x <= w,
                forall|px: int, py: int|
                    0 <= px < w && 0 <= py < h ==> #[trigger] self.px@[cell(w as int, px, py)] == if (py
                        == 0 || py == h - 1) && px < x {
                        color
                    } else {
                        orig[cell(w as int, px, py)]
                    },
            decreases w - x,
        {
            proof {
                lemma_cell_in_bounds(w as int, h as int, x as int, 0);
                lemma_cell_in_bounds(w as int, h as int, x as int, h - 1);
            }
            let ghost before = self.px@;
            self.px.set(x, color);
            let bottom = (h - 1) * w + x;
            self.px.set(bottom, color);
            proof {
                assert forall|px: int, py: int| 0 <= px < w && 0 <= py < h implies #[trigger] self.px@[cell(
                    w as int,
                    px,
                    py,
                )] == if (py == 0 || py == h - 1) && px < x + 1 {
                    color
                } else {
                    orig[cell(w as int, px, py)]
                } by {
                    lemma_cell_in_bounds(w as int, h as int, px, py);
                    if cell(w as int, px, py) == x {
                        lemma_cell_unique(w as int, px, py, x as int, 0);
                    } else if cell(w as int, px, py) == bottom {
                        lemma_cell_unique(w as int, px, py, x as int, h - 1);
                    } else {
                        assert(self.px@[cell(w as int, px, py)] == before[cell(w as int, px, py)]);
                    }
                }
            }
            x = x + 1;
        }
        let mut y: usize = 0;
        while y < h
            invariant
                self.w == w,
                self.h == h,
                w > 0,
                h > 0,
                self.px@.len() == w * h,
                w * h <= usize::MAX,
                orig == old(self).px@,
                y <= h,
                forall|px: int, py: int|
                    0 <= px < w && 0 <= py < h ==> #[trigger] self.px@[cell(w as int, px, py)] == if (py
                        == 0 || py == h - 1) || ((px == 0 || px == w - 1) && py < y) {
                        color
                    } else {
                        orig[cell(w as int, px, py)]
                    },
            decreases h - y,
        {
            proof {
                lemma_cell_in_bounds(w as int, h as int, 0, y as int);
                lemma_cell_in_bounds(w as int, h as int, w - 1, y as int);
            }
            let ghost before = self.px@;
            let left = y * w;
            self.px.set(left, color);
            let right = y * w + w - 1;
            self.px.set(right, color);
            proof {
                assert forall|px: int, py: int| 0 <= px < w && 0 <= py < h implies #[trigger] self.px@[cell(
                    w as int,
                    px,
                    py,
                )] == if (py == 0 || py == h - 1) || ((px == 0 || px == w - 1) && py < y + 1) {
                    color
                } else {
                    orig[cell(w as int, px, py)]
                } by {
                    lemma_cell_in_bounds(w as int, h as int, px, py);
                    if cell(w as int, px, py) == left {
                        lemma_cell_unique(w as int, px, py, 0, y as int);
                    } else if cell(w as int, px, py) == right {
                        lemma_cell_unique(w as int, px, py, w - 1, y as int);
                    } else {
                        assert(self.px@[cell(w as int, px, py)] == before[cell(w as int, px, py)]);
                    }
                }
            }
            y = y + 1;
        }
    }

    /// Paint the optional accent bar (`ACCENT_H` rows across the top) and
    /// return the y at which content starts: below the bar, or 0 without one.
    pub fn paint_accent(&mut self, accent: Option<Rgb>) -> (top: i32)
        requires
            old(self).wf(),
        ensures
            final(self).wf(),
            final(self).spec_width() == old(self).spec_width(),
            final(self).spec_height() == old(self).spec_height(),
            top == if accent is Some {
                9i32
            } else {
                0i32
            },
            forall|x: int, y: int|
                old(self).on(x, y) ==> #[trigger] final(self).at(x, y) == match accent {
                    Some(rgb) => if y < ACCENT_H {
                        rgb
                    } else {
                        old(self).at(x, y)
                    },
                    None => old(self).at(x, y),
                },
    {
        match accent {
            Some(rgb) => {
                let w = self.w;
                self.fill_rect(0, 0, w, ACCENT_H, rgb);
                ACCENT_H as i32 + 4
            },
            None => 0,
        }
    }
}

// ---------------------------------------------------------------------------
// Glyph blending
// ---------------------------------------------------------------------------

/// Blend one channel `src` over `bg` at coverage `a` (0..=255).
pub open spec fn blend(src: u8, bg: u8, a: u8) -> u8 {
    ((src * a + bg * (255 - a)) / 255) as u8
}

/// Blend colour `c` over pixel `p` at coverage `a`.
pub open spec fn blend_rgb(c: Rgb, p: Rgb, a: u8) -> Rgb {
    [blend(c[0], p[0], a), blend(c[1], p[1], a), blend(c[2], p[2], a)]
}

/// The coverage that a `cw`x`ch` bitmap placed at (x, y) puts on canvas
/// pixel (px, py): zero outside the bitmap.
pub open spec fn coverage_at(cov: Seq<u8>, cw: int, ch: int, x: int, y: int, px: int, py: int) -> u8 {
    let col = px - x;
    let row = py - y;
    if 0 <= col < cw && 0 <= row < ch {
        cov[row * cw + col]
    } else {
        0
    }
}

/// What blitting the bitmap needs: every bitmap cell that lands on the
/// canvas exists in `cov`, and the coordinates fit in `i32`.
pub open spec fn blit_ok(cov: Seq<u8>, cw: int, ch: int, x: int, y: int, w: int, h: int) -> bool {
    &&& cw <= i32::MAX
    &&& ch <= i32::MAX
    &&& (ch == 0 || y + ch - 1 <= i32::MAX)
    &&& (cw == 0 || x + cw - 1 <= i32::MAX)
    &&& forall|row: int, col: int|
        0 <= row < ch && 0 <= col < cw && 0 <= x + col < w && 0 <= y + row < h ==> #[trigger] (row
            * cw + col) < cov.len()
}

proof fn lemma_blend_fits(src: u8, bg: u8, a: u8)
    ensures
        src * a + bg * (255 - a) <= 65025,
        (src * a + bg * (255 - a)) / 255 <= 255,
{
    assert(src * a + bg * (255 - a) <= 255 * a + 255 * (255 - a)) by (nonlinear_arith)
        requires
            src <= 255,
            bg <= 255,
            a <= 255,
    ;
}

fn blend_channel(src: u8, bg: u8, a: u8) -> (r: u8)
    ensures
        r == blend(src, bg, a),
{
    proof {
        lemma_blend_fits(src, bg, a);
        assert(src as u16 * a as u16 <= 65025) by (nonlinear_arith)
            requires
                src <= 255,
                a <= 255,
        ;
        assert(bg as u16 * (255 - a as u16) <= 65025) by (nonlinear_arith)
            requires
                bg <= 255,
                a <= 255,
        ;
    }
    let s = src as u16 * a as u16;
    let b = bg as u16 * (255 - a as u16);
    ((s + b) / 255) as u8
}

/// Pixel `p` after the bitmap cells before (row, col) in row-major order
/// have been blended in.
pub open spec fn blit_partial(
    p: Rgb,
    cov: Seq<u8>,
    cw: int,
    ch: int,
    x: int,
    y: int,
    color: Rgb,
    qx: int,
    qy: int,
    row: int,
    col: int,
) -> Rgb {
    let a = coverage_at(cov, cw, ch, x, y, qx, qy);
    let done = qy - y < row || (qy - y == row && qx - x < col);
    if a == 0 || !done {
        p
    } else {
        blend_rgb(color, p, a)
    }
}

impl Canvas {
    /// Alpha-blend a coverage bitmap (`cw`x`ch`, row-major) toward `color`
    /// with its top-left corner at (x, y). Pixels off the canvas, and cells of
    /// zero coverage, are left alone.
    pub fn blit(&mut self, cov: &[u8], cw: usize, ch: usize, x: i32, y: i32, color: Rgb)
        requires
            old(self).wf(),
            blit_ok(
                cov@,
                cw as int,
                ch as int,
                x as int,
                y as int,
                old(self).spec_width(),
                old(self).spec_height(),
            ),
        ensures
            final(self).wf(),
            final(self).spec_width() == old(self).spec_width(),
            final(self).spec_height() == old(self).spec_height(),
            forall|px: int, py: int|
                old(self).on(px, py) ==> #[trigger] final(self).at(px, py) == blit_partial(
                    old(self).at(px, py),
                    cov@,
                    cw as int,
                    ch as int,
                    x as int,
                    y as int,
                    color,
                    px,
                    py,
                    ch as int,
                    0,
                ),
    {
        let w = self.w;
        let h = self.h;
        let n = self.px.len();
        let ghost orig = self.px@;
        let ghost wi = w as int;
        let clen = cov.len();
        let mut row: usize = 0;
        while row < ch
            invariant
                self.w == w,
                self.h == h,
                wi == w,
                self.px@.len() == w * h,
                w * h <= usize::MAX,
                orig == old(self).px@,
                row <= ch,
                clen == cov@.len(),
                blit_ok(cov@, cw as int, ch as int, x as int, y as int, w as int, h as int),
                forall|px: int, py: int|
                    0 <= px < w && 0 <= py < h ==> #[trigger] self.px@[cell(wi, px, py)]
                        == blit_partial(
                        orig[cell(wi, px, py)],
                        cov@,
                        cw as int,
                        ch as int,
                        x as int,
                        y as int,
                        color,
                        px,
                        py,
                        row as int,
                        0,
                    ),
            decreases ch - row,
        {
            let py: i32 = y + row as i32;
            if py >= 0 && (py as usize) < h {
                let pyu = py as usize;
                let mut col: usize = 0;
                while col < cw
                    invariant
                        self.w == w,
                        self.h == h,
                        wi == w,
                        self.px@.len() == w * h,
                        w * h <= usize::MAX,
                        row < ch,
                        col <= cw,
                        clen == cov@.len(),
                        pyu < h,
                        pyu == y + row,
                        blit_ok(cov@, cw as int, ch as int, x as int, y as int, w as int, h as int),
                        forall|px: int, qy: int|
                            0 <= px < w && 0 <= qy < h ==> #[trigger] self.px@[cell(wi, px, qy)]
                                == blit_partial(
                                orig[cell(wi, px, qy)],
                                cov@,
                                cw as int,
                                ch as int,
                                x as int,
                                y as int,
                                color,
                                px,
                                qy,
                                row as int,
                                col as int,
                            ),
                    decreases cw - col,
                {
                    let pxi: i32 = x + col as i32;
                    if pxi >= 0 && (pxi as usize) < w {
                        let pxu = pxi as usize;
                        assert(row * cw + col < cov@.len());
                        let a = cov[row * cw + col];
                        if a != 0 {
                            proof {
                                lemma_cell_in_bounds(wi, h as int, pxu as int, pyu as int);
                            }
                            let idx = pyu * w + pxu;
                            let dst = self.px[idx];
                            let blended: Rgb = [
                                blend_channel(color[0], dst[0], a),
                                blend_channel(color[1], dst[1], a),
                                blend_channel(color[2], dst[2], a),
                            ];
                            let ghost before = self.px@;
                            self.px.set(idx, blended);
                            proof {
                                assert forall|qx: int, qy: int|
                                    0 <= qx < w && 0 <= qy < h implies #[trigger] self.px@[cell(
                                    wi,
                                    qx,
                                    qy,
                                )] == blit_partial(
                                    orig[cell(wi, qx, qy)],
                                    cov@,
                                    cw as int,
                                    ch as int,
                                    x as int,
                                    y as int,
                                    color,
                                    qx,
                                    qy,
                                    row as int,
                                    col + 1,
                                ) by {
                                    lemma_cell_in_bounds(wi, h as int, qx, qy);
                                    if cell(wi, qx, qy) == idx {
                                        lemma_cell_unique(wi, qx, qy, pxu as int, pyu as int);
                                    } else {
                                        assert(self.px@[cell(wi, qx, qy)] == before[cell(
                                            wi,
                                            qx,
                                            qy,
                                        )]);
                                    }
                                }
                            }
                        }
                    }
                    col = col + 1;
                }
            }
            row = row + 1;
        }
    }
}

// ---------------------------------------------------------------------------
// RGB565 packing
// ---------------------------------------------------------------------------

/// The RGB565 word of a pixel: the top 5, 6 and 5 bits of red, green, blue.
pub open spec fn rgb565(p: Rgb) -> u16 {
    ((((p[0] as u16) & 0xF8u16) << 8u16) | (((p[1] as u16) & 0xFCu16) << 3u16) | ((
    p[2] as u16) >> 3u16)) as u16
}

/// The little-endian bytes of every pixel's RGB565 word, in pixel order.
pub open spec fn rgb565_le(px: Seq<Rgb>) -> Seq<u8>
    decreases px.len(),
{
    if px.len() == 0 {
        Seq::empty()
    } else {
        rgb565_le(px.drop_last()) + seq![
            (rgb565(px.last()) % 256) as u8,
            (rgb565(px.last()) / 256) as u8,
        ]
    }
}

proof fn lemma_rgb565_le_len(px: Seq<Rgb>)
    ensures
        rgb565_le(px).len() == 2 * px.len(),
    decreases px.len(),
{
    if px.len() > 0 {
        lemma_rgb565_le_len(px.drop_last());
    }
}

/// Byte `2i` and `2i + 1` of the packed buffer are pixel `i`'s word.
pub proof fn lemma_rgb565_le_index(px: Seq<Rgb>, i: int)
    requires
        0 <= i < px.len(),
    ensures
        rgb565_le(px).len() == 2 * px.len(),
        rgb565_le(px)[2 * i] == (rgb565(px[i]) % 256) as u8,
        rgb565_le(px)[2 * i + 1] == (rgb565(px[i]) / 256) as u8,
    decreases px.len(),
{
    lemma_rgb565_le_len(px);
    if i < px.len() - 1 {
        lemma_rgb565_le_index(px.drop_last(), i);
    }
}

/// Unpacking a packed pixel gives back each channel with its low bits
/// cleared: red and blue keep their top 5 bits, green its top 6.
pub proof fn lemma_rgb565_unpack(p: Rgb)
    ensures
        ({
            let v = rgb565(p);
            &&& ((v >> 11u16) << 3u16) as u8 == p[0] & 0xF8
            &&& (((v >> 5u16) & 0x3Fu16) << 2u16) as u8 == p[1] & 0xFC
            &&& ((v & 0x1Fu16) << 3u16) as u8 == p[2] & 0xF8
        }),
{
    let r = p[0] as u16;
    let g = p[1] as u16;
    let b = p[2] as u16;
    let v = rgb565(p);
    assert(v == ((r & 0xF8u16) << 8u16) | ((g & 0xFCu16) << 3u16) | (b >> 3u16));
    assert(((v >> 11u16) << 3u16) as u8 == (r as u8) & 0xF8) by (bit_vector)
        requires
            v == ((r & 0xF8u16) << 8u16) | ((g & 0xFCu16) << 3u16) | (b >> 3u16),
            r < 256,
            g < 256,
            b < 256,
    ;
    assert((((v >> 5u16) & 0x3Fu16) << 2u16) as u8 == (g as u8) & 0xFC) by (bit_vector)
        requires
            v == ((r & 0xF8u16) << 8u16) | ((g & 0xFCu16) << 3u16) | (b >> 3u16),
            r < 256,
            g < 256,
            b < 256,
    ;
    assert(((v & 0x1Fu16) << 3u16) as u8 == (b as u8) & 0xF8) by (bit_vector)
        requires
            v == ((r & 0xF8u16) << 8u16) | ((g & 0xFCu16) << 3u16) | (b >> 3u16),
            r < 256,
            g < 256,
            b < 256,
    ;
}

proof fn lemma_pack_word(r: u8, g: u8, b: u8)
    ensures
        rgb565([r, g, b]) == ((((r as u16) & 0xF8u16) << 8u16) | (((g as u16) & 0xFCu16) << 3u16) | ((
        b as u16) >> 3u16)) as u16,
{
}

/// Blending at full coverage paints the colour, at zero coverage keeps the
/// pixel, and in between lands between the two. Packing keeps the top 5,
/// 6 and 5 bits of red, green and blue, high bits first: black is 0x0000,
/// white 0xFFFF, pure red 0xF800, green 0x07E0 and blue 0x001F.
pub proof fn lemma_blend_and_pack(s: u8, b: u8, a: u8)
    ensures
        blend(s, b, 255) == s,
        blend(s, b, 0) == b,
        s <= b ==> s <= blend(s, b, a) <= b,
        b <= s ==> b <= blend(s, b, a) <= s,
        rgb565([0u8, 0u8, 0u8]) == 0x0000u16,
        rgb565([255u8, 255u8, 255u8]) == 0xFFFFu16,
        rgb565([255u8, 0u8, 0u8]) == 0xF800u16,
        rgb565([0u8, 255u8, 0u8]) == 0x07E0u16,
        rgb565([0u8, 0u8, 255u8]) == 0x001Fu16,
{
    assert(s * 255 / 255 == s);
    assert(b * 255 / 255 == b);
    if s <= b {
        assert(s * 255 <= s * a + b * (255 - a) <= b * 255) by (nonlinear_arith)
            requires
                s <= b,
                a <= 255,
        ;
    } else {
        assert(b * 255 <= s * a + b * (255 - a) <= s * 255) by (nonlinear_arith)
            requires
                b <= s,
                a <= 255,
        ;
    }
    lemma_blend_fits(s, b, a);
    lemma_pack_word(0, 0, 0);
    lemma_pack_word(255, 255, 255);
    lemma_pack_word(255, 0, 0);
    lemma_pack_word(0, 255, 0);
    lemma_pack_word(0, 0, 255);
    assert((((0u16 & 0xF8u16) << 8u16) | ((0u16 & 0xFCu16) << 3u16) | (0u16 >> 3u16)) == 0x0000u16) by (bit_vector);
    assert((((255u16 & 0xF8u16) << 8u16) | ((255u16 & 0xFCu16) << 3u16) | (255u16 >> 3u16)) == 0xFFFFu16) by (bit_vector);
    assert((((255u16 & 0xF8u16) << 8u16) | ((0u16 & 0xFCu16) << 3u16) | (0u16 >> 3u16)) == 0xF800u16) by (bit_vector);
    assert((((0u16 & 0xF8u16) << 8u16) | ((255u16 & 0xFCu16) << 3u16) | (0u16 >> 3u16)) == 0x07E0u16) by (bit_vector);
    assert((((0u16 & 0xF8u16) << 8u16) | ((0u16 & 0xFCu16) << 3u16) | (255u16 >> 3u16)) == 0x001Fu16) by (bit_vector);
}

impl Canvas {
    /// Pack to RGB565 little-endian, two bytes per pixel in row-major order.
    pub fn to_rgb565_le(&self) -> (out: Vec<u8>)
        requires
            self.wf(),
        ensures
            out@ == rgb565_le(self.spec_pixels()),
            out@.len() == 2 * self.spec_width() * self.spec_height(),
    {
        let mut out: Vec<u8> = Vec::new();
        let mut i: usize = 0;
        while i < self.px.len()
            invariant
                i <= self.px@.len(),
                out@ == rgb565_le(self.px@.subrange(0, i as int)),
            decreases self.px@.len() - i,
        {
            let p = self.px[i];
            let v: u16 = (((p[0] as u16) & 0xF8) << 8) | (((p[1] as u16) & 0xFC) << 3) | ((p[2] as u16)
                >> 3);
            assert(v == rgb565(p));
            out.push((v % 256) as u8);
            out.push((v / 256) as u8);
            proof {
                let s = self.px@.subrange(0, i + 1);
                assert(s.drop_last() =~= self.px@.subrange(0, i as int));
                assert(out@ =~= rgb565_le(s));
            }
            i = i + 1;
        }
        proof {
            assert(self.px@.subrange(0, self.px@.len() as int) =~= self.px@);
            lemma_rgb565_le_len(self.px@);
            assert(2 * self.w * self.h == 2 * (self.w * self.h)) by (nonlinear_arith);
        }
        out
    }

    /// Draw the tile frame when `border` is set, then pack to the device
    /// format.
    pub fn finish(self, border: bool) -> (out: Vec<u8>)
        requires
            self.wf(),
            (self.spec_width() > 0 && self.spec_height() > 0) || (self.spec_width() == 0
                && self.spec_height() == 0),
        ensures
            out@ == rgb565_le(
                if border {
                    framed(self.spec_pixels(), self.spec_width(), self.spec_height(), frame_color())
                } else {
                    self.spec_pixels()
                },
            ),
            out@.len() == 2 * self.spec_width() * self.spec_height(),
    {
        let mut c = self;
        if border {
            c.frame([60, 62, 70]);
            proof {
                let w = self.spec_width();
                let h = self.spec_height();
                let f = framed(self.spec_pixels(), w, h, frame_color());
                assert forall|i: int| 0 <= i < c.spec_pixels().len() implies c.spec_pixels()[i] == f[i] by {
                    lemma_cell_of_index(w, h, i);
                    assert(c.at(i % w, i / w) == c.spec_pixels()[i]);
                }
                assert(c.spec_pixels() =~= f);
            }
        }
        c.to_rgb565_le()
    }
}

/// The pixels of a `w`x`h` canvas with a one-pixel frame of `color` drawn
/// around its edge.
pub open spec fn framed(px: Seq<Rgb>, w: int, h: int, color: Rgb) -> Seq<Rgb> {
    Seq::new(
        px.len(),
        |i: int|
            if i % w == 0 || i / w == 0 || i % w == w - 1 || i / w == h - 1 {
                color
            } else {
                px[i]
            },
    )
}

/// Index `i` of a row-major `w`x`h` canvas is pixel (i % w, i / w).
proof fn lemma_cell_of_index(w: int, h: int, i: int)
    requires
        w > 0,
        0 <= i < w * h,
    ensures
        0 <= i % w < w,
        0 <= i / w < h,
        cell(w, i % w, i / w) == i,
{
    vstd::arithmetic::div_mod::lemma_fundamental_div_mod(i, w);
    vstd::arithmetic::div_mod::lemma_mod_pos_bound(i, w);
    vstd::arithmetic::div_mod::lemma_div_pos_is_pos(i, w);
    assert(i / w < h) by (nonlinear_arith)
        requires
            i == w * (i / w) + i % w,
            0 <= i % w,
            i < w * h,
            w > 0,
    ;
    assert(cell(w, i % w, i / w) == (i / w) * w + i % w);
    assert((i / w) * w == w * (i / w)) by (nonlinear_arith);
}

// ---------------------------------------------------------------------------
// Colours
// ---------------------------------------------------------------------------

/// The colours that profiles may name, matched on the lowercased text.
pub open spec fn named_color(n: Seq<char>) -> Option<Rgb> {
    if n == "black"@ {
        Some([0, 0, 0])
    } else if n == "white"@ {
        Some([255, 255, 255])
    } else if n == "red"@ {
        Some([220, 40, 40])
    } else if n == "green"@ {
        Some([40, 200, 60])
    } else if n == "blue"@ {
        Some([40, 90, 220])
    } else if n == "yellow"@ {
        Some([230, 210, 40])
    } else if n == "orange"@ {
        Some([240, 150, 30])
    } else if n == "cyan"@ {
        Some([40, 200, 220])
    } else if n == "deepskyblue"@ || n == "skyblue"@ {
        Some([0, 191, 255])
    } else if n == "gray"@ || n == "grey"@ {
        Some([128, 128, 128])
    } else {
        None
    }
}

/// The value of hex digit `c`: `0-9`, then `a-f` or `A-F`.
pub open spec fn hex_value(c: char) -> Option<nat> {
    digit_value(c as u32, 16)
}

/// Whether every character of `h` is a hex digit.
pub open spec fn all_hex(h: Seq<char>) -> bool {
    forall|i: int| 0 <= i < h.len() ==> (#[trigger] hex_value(h[i])) is Some
}

/// The byte that the hex digits `a` and `b` write.
pub open spec fn hex_pair(a: char, b: char) -> nat {
    hex_value(a).unwrap() * 16 + hex_value(b).unwrap()
}

/// `#rrggbb`, `#rgb` (each digit doubled: `d * 17`), hex digits only, or a
/// named colour; surrounding whitespace is ignored and names are
/// case-insensitive.
pub open spec fn spec_parse_color(s: Seq<char>) -> Option<Rgb> {
    let t = trim(s);
    if t.len() > 0 && t[0] == '#' {
        let h = t.drop_first();
        if h.len() == 6 && all_hex(h) {
            Some([hex_pair(h[0], h[1]) as u8, hex_pair(h[2], h[3]) as u8, hex_pair(h[4], h[5]) as u8])
        } else if h.len() == 3 && all_hex(h) {
            Some(
                [
                    (hex_value(h[0]).unwrap() * 17) as u8,
                    (hex_value(h[1]).unwrap() * 17) as u8,
                    (hex_value(h[2]).unwrap() * 17) as u8,
                ],
            )
        } else {
            None
        }
    } else {
        named_color(lower_all(t))
    }
}

/// The value of a hex digit.
fn hex_digit(c: char) -> (r: Option<u8>)
    ensures
        match r {
            Some(v) => hex_value(c) == Some(v as nat) && v < 16,
            None => hex_value(c) is None,
        },
{
    if '0' <= c && c <= '9' {
        Some((c as u32 - 0x30) as u8)
    } else if 'a' <= c && c <= 'f' {
        Some((c as u32 - 0x61 + 10) as u8)
    } else if 'A' <= c && c <= 'F' {
        Some((c as u32 - 0x41 + 10) as u8)
    } else {
        None
    }
}

fn named_color_of(s: &[char]) -> (r: Option<Rgb>)
    ensures
        r == named_color(s@),
{
    if chars_eq(s, chars_of("black").as_slice()) {
        Some([0, 0, 0])
    } else if chars_eq(s, chars_of("white").as_slice()) {
        Some([255, 255, 255])
    } else if chars_eq(s, chars_of("red").as_slice()) {
        Some([220, 40, 40])
    } else if chars_eq(s, chars_of("green").as_slice()) {
        Some([40, 200, 60])
    } else if chars_eq(s, chars_of("blue").as_slice()) {
        Some([40, 90, 220])
    } else if chars_eq(s, chars_of("yellow").as_slice()) {
        Some([230, 210, 40])
    } else if chars_eq(s, chars_of("orange").as_slice()) {
        Some([240, 150, 30])
    } else if chars_eq(s, chars_of("cyan").as_slice()) {
        Some([40, 200, 220])
    } else if chars_eq(s, chars_of("deepskyblue").as_slice()) || chars_eq(
        s,
        chars_of("skyblue").as_slice(),
    ) {
        Some([0, 191, 255])
    } else if chars_eq(s, chars_of("gray").as_slice()) || chars_eq(
        s,
        chars_of("grey").as_slice(),
    ) {
        Some([128, 128, 128])
    } else {
        None
    }
}

/// Parse `#rgb`, `#rrggbb`, or a small set of named colours.
pub fn parse_color(s: &str) -> (r: Option<Rgb>)
    ensures
        r == spec_parse_color(s@),
{
    let cs = chars_of(s);
    let (a, b) = trim_bounds(&cs);
    if a < b && cs[a] == '#' {
        let ghost h = cs@.subrange(a + 1, b as int);
        assert(trim(s@).drop_first() =~= h);
        let mut vals: Vec<u8> = Vec::new();
        let mut i: usize = a + 1;
        while i < b
            invariant
                a + 1 <= i <= b <= cs@.len(),
                h == cs@.subrange(a + 1, b as int),
                cs@ == s@,
                trim(s@) == cs@.subrange(a as int, b as int),
                cs@[a as int] == '#',
                trim(s@).drop_first() == h,
                vals@.len() == i - (a + 1),
                forall|k: int|
                    0 <= k < vals@.len() ==> hex_value(h[k]) == Some(#[trigger] vals@[k] as nat)
                        && vals@[k] < 16,
            decreases b - i,
        {
            match hex_digit(cs[i]) {
                Some(v) => {
                    vals.push(v);
                },
                None => {
                    assert(hex_value(h[i - (a + 1)]) is None);
                    assert(!all_hex(h));
                    return None;
                },
            }
            i = i + 1;
        }
        assert(all_hex(h)) by {
            assert forall|k: int| 0 <= k < h.len() implies (#[trigger] hex_value(h[k])) is Some by {
                assert(hex_value(h[k]) == Some(vals@[k] as nat));
            }
        }
        let n = b - a - 1;
        if n == 6 {
            assert(hex_value(h[0]) == Some(vals@[0] as nat));
            assert(hex_value(h[1]) == Some(vals@[1] as nat));
            assert(hex_value(h[2]) == Some(vals@[2] as nat));
            assert(hex_value(h[3]) == Some(vals@[3] as nat));
            assert(hex_value(h[4]) == Some(vals@[4] as nat));
            assert(hex_value(h[5]) == Some(vals@[5] as nat));
            Some([vals[0] * 16 + vals[1], vals[2] * 16 + vals[3], vals[4] * 16 + vals[5]])
        } else if n == 3 {
            assert(hex_value(h[0]) == Some(vals@[0] as nat));
            assert(hex_value(h[1]) == Some(vals@[1] as nat));
            assert(hex_value(h[2]) == Some(vals@[2] as nat));
            Some([vals[0] * 17, vals[1] * 17, vals[2] * 17])
        } else {
            None
        }
    } else {
        let mut t: Vec<char> = Vec::new();
        let mut i = a;
        while i < b
            invariant
                a <= i <= b <= cs@.len(),
                t@ == cs@.subrange(a as int, i as int),
            decreases b - i,
        {
            t.push(cs[i]);
            assert(cs@.subrange(a as int, i + 1) =~= cs@.subrange(a as int, i as int).push(
                cs@[i as int],
            ));
            i = i + 1;
        }
        let lower = to_ascii_lowercase(t.as_slice());
        named_color_of(lower.as_slice())
    }
}

/// Each colour name reads as its colour, in any case and with any
/// whitespace around it.
pub proof fn lemma_color_names(s: Seq<char>)
    ensures
        lower_all(trim(s)) == "black"@ ==> spec_parse_color(s) == Some([0u8, 0u8, 0u8]),
        lower_all(trim(s)) == "white"@ ==> spec_parse_color(s) == Some([255u8, 255u8, 255u8]),
        lower_all(trim(s)) == "red"@ ==> spec_parse_color(s) == Some([220u8, 40u8, 40u8]),
        lower_all(trim(s)) == "green"@ ==> spec_parse_color(s) == Some([40u8, 200u8, 60u8]),
        lower_all(trim(s)) == "blue"@ ==> spec_parse_color(s) == Some([40u8, 90u8, 220u8]),
        lower_all(trim(s)) == "yellow"@ ==> spec_parse_color(s) == Some([230u8, 210u8, 40u8]),
        lower_all(trim(s)) == "orange"@ ==> spec_parse_color(s) == Some([240u8, 150u8, 30u8]),
        lower_all(trim(s)) == "cyan"@ ==> spec_parse_color(s) == Some([40u8, 200u8, 220u8]),
        lower_all(trim(s)) == "deepskyblue"@ ==> spec_parse_color(s) == Some([0u8, 191u8, 255u8]),
        lower_all(trim(s)) == "skyblue"@ ==> spec_parse_color(s) == Some([0u8, 191u8, 255u8]),
        lower_all(trim(s)) == "gray"@ ==> spec_parse_color(s) == Some([128u8, 128u8, 128u8]),
        lower_all(trim(s)) == "grey"@ ==> spec_parse_color(s) == Some([128u8, 128u8, 128u8]),
{
    if lower_all(trim(s)) == "black"@ {
        reveal_strlit("black");
        assert(lower_all(trim(s))[0] == "black"@[0]);
    }
    if lower_all(trim(s)) == "white"@ {
        reveal_strlit("white");
        assert(lower_all(trim(s))[0] == "white"@[0]);
        reveal_strlit("black");
        lemma_differs_at("white"@, "black"@, 0);
    }
    if lower_all(trim(s)) == "red"@ {
        reveal_strlit("red");
        assert(lower_all(trim(s))[0] == "red"@[0]);
        reveal_strlit("black");
        lemma_len_differs("red"@, "black"@);
        reveal_strlit("white");
        lemma_len_differs("red"@, "white"@);
    }
    if lower_all(trim(s)) == "green"@ {
        reveal_strlit("green");
        assert(lower_all(trim(s))[0] == "green"@[0]);
        reveal_strlit("black");
        lemma_differs_at("green"@, "black"@, 0);
        reveal_strlit("white");
        lemma_differs_at("green"@, "white"@, 0);
        reveal_strlit("red");
        lemma_len_differs("green"@, "red"@);
    }
    if lower_all(trim(s)) == "blue"@ {
        reveal_strlit("blue");
        assert(lower_all(trim(s))[0] == "blue"@[0]);
        reveal_strlit("black");
        lemma_len_differs("blue"@, "black"@);
        reveal_strlit("white");
        lemma_len_differs("blue"@, "white"@);
        reveal_strlit("red");
        lemma_len_differs("blue"@, "red"@);
        reveal_strlit("green");
        lemma_len_differs("blue"@, "green"@);
    }
    if lower_all(trim(s)) == "yellow"@ {
        reveal_strlit("yellow");
        assert(lower_all(trim(s))[0] == "yellow"@[0]);
        reveal_strlit("black");
        lemma_len_differs("yellow"@, "black"@);
        reveal_strlit("white");
        lemma_len_differs("yellow"@, "white"@);
        reveal_strlit("red");
        lemma_len_differs("yellow"@, "red"@);
        reveal_strlit("green");
        lemma_len_differs("yellow"@, "green"@);
        reveal_strlit("blue");
        lemma_len_differs("yellow"@, "blue"@);
    }
    if lower_all(trim(s)) == "orange"@ {
        reveal_strlit("orange");
        assert(lower_all(trim(s))[0] == "orange"@[0]);
        reveal_strlit("black");
        lemma_len_differs("orange"@, "black"@);
        reveal_strlit("white");
        lemma_len_differs("orange"@, "white"@);
        reveal_strlit("red");
        lemma_len_differs("orange"@, "red"@);
        reveal_strlit("green");
        lemma_len_differs("orange"@, "green"@);
        reveal_strlit("blue");
        lemma_len_differs("orange"@, "blue"@);
        reveal_strlit("yellow");
        lemma_differs_at("orange"@, "yellow"@, 0);
    }
    if lower_all(trim(s)) == "cyan"@ {
        reveal_strlit("cyan");
        assert(lower_all(trim(s))[0] == "cyan"@[0]);
        reveal_strlit("black");
        lemma_len_differs("cyan"@, "black"@);
        reveal_strlit("white");
        lemma_len_differs("cyan"@, "white"@);
        reveal_strlit("red");
        lemma_len_differs("cyan"@, "red"@);
        reveal_strlit("green");
        lemma_len_differs("cyan"@, "green"@);
        reveal_strlit("blue");
        lemma_differs_at("cyan"@, "blue"@, 0);
        reveal_strlit("yellow");
        lemma_len_differs("cyan"@, "yellow"@);
        reveal_strlit("orange");
        lemma_len_differs("cyan"@, "orange"@);
    }
    if lower_all(trim(s)) == "deepskyblue"@ {
        reveal_strlit("deepskyblue");
        assert(lower_all(trim(s))[0] == "deepskyblue"@[0]);
        reveal_strlit("black");
        lemma_len_differs("deepskyblue"@, "black"@);
        reveal_strlit("white");
        lemma_len_differs("deepskyblue"@, "white"@);
        reveal_strlit("red");
        lemma_len_differs("deepskyblue"@, "red"@);
        reveal_strlit("green");
        lemma_len_differs("deepskyblue"@, "green"@);
        reveal_strlit("blue");
        lemma_len_differs("deepskyblue"@, "blue"@);
        reveal_strlit("yellow");
        lemma_len_differs("deepskyblue"@, "yellow"@);
        reveal_strlit("orange");
        lemma_len_differs("deepskyblue"@, "orange"@);
        reveal_strlit("cyan");
        lemma_len_differs("deepskyblue"@, "cyan"@);
    }
    if lower_all(trim(s)) == "skyblue"@ {
        reveal_strlit("skyblue");
        assert(lower_all(trim(s))[0] == "skyblue"@[0]);
        reveal_strlit("black");
        lemma_len_differs("skyblue"@, "black"@);
        reveal_strlit("white");
        lemma_len_differs("skyblue"@, "white"@);
        reveal_strlit("red");
        lemma_len_differs("skyblue"@, "red"@);
        reveal_strlit("green");
        lemma_len_differs("skyblue"@, "green"@);
        reveal_strlit("blue");
        lemma_len_differs("skyblue"@, "blue"@);
        reveal_strlit("yellow");
        lemma_len_differs("skyblue"@, "yellow"@);
        reveal_strlit("orange");
        lemma_len_differs("skyblue"@, "orange"@);
        reveal_strlit("cyan");
        lemma_len_differs("skyblue"@, "cyan"@);
    }
    if lower_all(trim(s)) == "gray"@ {
        reveal_strlit("gray");
        assert(lower_all(trim(s))[0] == "gray"@[0]);
        reveal_strlit("black");
        lemma_len_differs("gray"@, "black"@);
        reveal_strlit("white");
        lemma_len_differs("gray"@, "white"@);
        reveal_strlit("red");
        lemma_len_differs("gray"@, "red"@);
        reveal_strlit("green");
        lemma_len_differs("gray"@, "green"@);
        reveal_strlit("blue");
        lemma_differs_at("gray"@, "blue"@, 0);
        reveal_strlit("yellow");
        lemma_len_differs("gray"@, "yellow"@);
        reveal_strlit("orange");
        lemma_len_differs("gray"@, "orange"@);
        reveal_strlit("cyan");
        lemma_differs_at("gray"@, "cyan"@, 0);
        reveal_strlit("deepskyblue");
        lemma_len_differs("gray"@, "deepskyblue"@);
        reveal_strlit("skyblue");
        lemma_len_differs("gray"@, "skyblue"@);
    }
    if lower_all(trim(s)) == "grey"@ {
        reveal_strlit("grey");
        assert(lower_all(trim(s))[0] == "grey"@[0]);
        reveal_strlit("black");
        lemma_len_differs("grey"@, "black"@);
        reveal_strlit("white");
        lemma_len_differs("grey"@, "white"@);
        reveal_strlit("red");
        lemma_len_differs("grey"@, "red"@);
        reveal_strlit("green");
        lemma_len_differs("grey"@, "green"@);
        reveal_strlit("blue");
        lemma_differs_at("grey"@, "blue"@, 0);
        reveal_strlit("yellow");
        lemma_len_differs("grey"@, "yellow"@);
        reveal_strlit("orange");
        lemma_len_differs("grey"@, "orange"@);
        reveal_strlit("cyan");
        lemma_differs_at("grey"@, "cyan"@, 0);
        reveal_strlit("deepskyblue");
        lemma_len_differs("grey"@, "deepskyblue"@);
        reveal_strlit("skyblue");
        lemma_len_differs("grey"@, "skyblue"@);
    }
}

/// The hex digit that writes `d` (below 16), in upper or lower case.
pub open spec fn hex_char(d: nat, upper: bool) -> char {
    if d < 10 {
        (0x30 + d) as char
    } else if upper {
        (0x41 + d - 10) as char
    } else {
        (0x61 + d - 10) as char
    }
}

/// The two hex digits that write the byte `v`, as `{:02x}` (or `{:02X}`)
/// prints it.
pub open spec fn hex_byte(v: u8, upper: bool) -> Seq<char> {
    seq![hex_char(v as nat / 16, upper), hex_char(v as nat % 16, upper)]
}

/// The text `#rrggbb` of a colour.
pub open spec fn hex_text(c: Rgb, upper: bool) -> Seq<char> {
    seq!['#'] + hex_byte(c[0], upper) + hex_byte(c[1], upper) + hex_byte(c[2], upper)
}

proof fn lemma_hex_char(d: nat, upper: bool)
    requires
        d < 16,
    ensures
        hex_value(hex_char(d, upper)) == Some(d),
        !is_ws(hex_char(d, upper)),
{
}

/// A colour written as `#rrggbb`, in either case and with any whitespace
/// around it, reads back as itself.
pub proof fn lemma_hex_color_reads_back(c: Rgb, upper: bool, w1: Seq<char>, w2: Seq<char>)
    requires
        forall|i: int| 0 <= i < w1.len() ==> is_ws(#[trigger] w1[i]),
        forall|i: int| 0 <= i < w2.len() ==> is_ws(#[trigger] w2[i]),
    ensures
        spec_parse_color(w1 + hex_text(c, upper) + w2) == Some(c),
{
    let t = hex_text(c, upper);
    let ds = seq![
        c[0] as nat / 16,
        c[0] as nat % 16,
        c[1] as nat / 16,
        c[1] as nat % 16,
        c[2] as nat / 16,
        c[2] as nat % 16,
    ];
    assert forall|k: int| 0 <= k < 6 implies #[trigger] t[k + 1] == hex_char(ds[k], upper)
        && ds[k] < 16 by {}
    assert forall|k: int| 0 <= k < 6 implies hex_value(#[trigger] t[k + 1]) == Some(ds[k]) by {
        lemma_hex_char(ds[k], upper);
    }
    lemma_hex_char(ds[5], upper);
    assert(t.len() == 7);
    assert(t.last() == t[6]);
    lemma_trim_padded(w1, t, w2);
    let h = t.drop_first();
    assert(all_hex(h)) by {
        assert forall|i: int| 0 <= i < h.len() implies (#[trigger] hex_value(h[i])) is Some by {
            assert(h[i] == t[i + 1]);
        }
    }
    assert(hex_pair(h[0], h[1]) == c[0]);
    assert(hex_pair(h[2], h[3]) == c[1]);
    assert(hex_pair(h[4], h[5]) == c[2]);
}

/// `#rgb` is the long form with each digit doubled, and each channel is the
/// digit times 17.
pub proof fn lemma_short_hex_doubles(a: char, b: char, c: char)
    requires
        hex_value(a) is Some,
        hex_value(b) is Some,
        hex_value(c) is Some,
    ensures
        spec_parse_color(seq!['#', a, b, c]) == spec_parse_color(seq!['#', a, a, b, b, c, c]),
        spec_parse_color(seq!['#', a, b, c]) == Some(
            [
                (hex_value(a).unwrap() * 17) as u8,
                (hex_value(b).unwrap() * 17) as u8,
                (hex_value(c).unwrap() * 17) as u8,
            ],
        ),
{
    let e = Seq::<char>::empty();
    let s = seq!['#', a, b, c];
    let l = seq!['#', a, a, b, b, c, c];
    assert(!is_ws(c));
    assert(e + s + e =~= s);
    assert(e + l + e =~= l);
    lemma_trim_padded(e, s, e);
    lemma_trim_padded(e, l, e);
    assert(s.drop_first() =~= seq![a, b, c]);
    assert(l.drop_first() =~= seq![a, a, b, b, c, c]);
    assert(all_hex(s.drop_first()));
    assert(all_hex(l.drop_first()));
}

// ---------------------------------------------------------------------------
// Icons
// ---------------------------------------------------------------------------

/// `s` without its leading `u` characters.
pub open spec fn strip_leading_u(s: Seq<char>) -> Seq<char>
    decreases s.len(),
{
    if s.len() > 0 && s[0] == 'u' {
        strip_leading_u(s.drop_first())
    } else {
        s
    }
}

/// The FontAwesome codepoint that an icon name stands for: a known name,
/// else the name read as hex digits after any leading `u`s.
pub open spec fn icon_codepoint(n: Seq<char>) -> Option<nat> {
    if n == "pfi"@ || n == "gauge"@ {
        Some(0xf3fd)
    } else if n == "switches"@ || n == "toggle"@ {
        Some(0xf204)
    } else if n == "icing"@ || n == "snowflake"@ {
        Some(0xf2dc)
    } else if n == "weather"@ || n == "cloud"@ {
        Some(0xf0c2)
    } else if n == "autopilot"@ || n == "ap"@ {
        Some(0xe22d)
    } else if n == "gcu"@ || n == "chip"@ {
        Some(0xf2db)
    } else if n == "radio"@ {
        Some(0xe585)
    } else if n == "engine"@ || n == "gears"@ {
        Some(0xf085)
    } else if n == "views"@ || n == "camera"@ {
        Some(0xf030)
    } else if n == "transponder"@ || n == "xpdr"@ {
        Some(0xf8d7)
    } else if n == "fms"@ || n == "map"@ {
        Some(0xf279)
    } else {
        parse_uint(codes(strip_leading_u(n)), 16, 0xFFFF_FFFF)
    }
}

/// The glyph of an icon name, if its codepoint is a character.
pub open spec fn spec_icon_glyph(n: Seq<char>) -> Option<char> {
    match icon_codepoint(n) {
        Some(v) => scalar(v),
        None => None,
    }
}

proof fn lemma_differs_at(a: Seq<char>, b: Seq<char>, k: int)
    requires
        0 <= k < a.len(),
        k < b.len(),
        a[k] != b[k],
    ensures
        a != b,
{
}

proof fn lemma_len_differs(a: Seq<char>, b: Seq<char>)
    requires
        a.len() != b.len(),
    ensures
        a != b,
{
}

/// Each icon name and its alias give the same glyph.
pub proof fn lemma_icon_pairs()
    ensures
        spec_icon_glyph("pfi"@) == Some(0xf3fdu32 as char),
        spec_icon_glyph("gauge"@) == Some(0xf3fdu32 as char),
        spec_icon_glyph("switches"@) == Some(0xf204u32 as char),
        spec_icon_glyph("toggle"@) == Some(0xf204u32 as char),
        spec_icon_glyph("icing"@) == Some(0xf2dcu32 as char),
        spec_icon_glyph("snowflake"@) == Some(0xf2dcu32 as char),
        spec_icon_glyph("weather"@) == Some(0xf0c2u32 as char),
        spec_icon_glyph("cloud"@) == Some(0xf0c2u32 as char),
        spec_icon_glyph("autopilot"@) == Some(0xe22du32 as char),
        spec_icon_glyph("ap"@) == Some(0xe22du32 as char),
        spec_icon_glyph("gcu"@) == Some(0xf2dbu32 as char),
        spec_icon_glyph("chip"@) == Some(0xf2dbu32 as char),
        spec_icon_glyph("engine"@) == Some(0xf085u32 as char),
        spec_icon_glyph("gears"@) == Some(0xf085u32 as char),
        spec_icon_glyph("views"@) == Some(0xf030u32 as char),
        spec_icon_glyph("camera"@) == Some(0xf030u32 as char),
        spec_icon_glyph("transponder"@) == Some(0xf8d7u32 as char),
        spec_icon_glyph("xpdr"@) == Some(0xf8d7u32 as char),
        spec_icon_glyph("fms"@) == Some(0xf279u32 as char),
        spec_icon_glyph("map"@) == Some(0xf279u32 as char),
        spec_icon_glyph("radio"@) == Some(0xe585u32 as char),
{
    assert(icon_codepoint("pfi"@) == Some(0xf3fdnat)) by {
        reveal_strlit("pfi");
    }
    assert(icon_codepoint("gauge"@) == Some(0xf3fdnat)) by {
        reveal_strlit("gauge");
    }
    assert(icon_codepoint("switches"@) == Some(0xf204nat)) by {
        reveal_strlit("switches");
        reveal_strlit("pfi");
        lemma_len_differs("switches"@, "pfi"@);
        reveal_strlit("gauge");
        lemma_len_differs("switches"@, "gauge"@);
    }
    assert(icon_codepoint("toggle"@) == Some(0xf204nat)) by {
        reveal_strlit("toggle");
        reveal_strlit("pfi");
        lemma_len_differs("toggle"@, "pfi"@);
        reveal_strlit("gauge");
        lemma_len_differs("toggle"@, "gauge"@);
    }
    assert(icon_codepoint("icing"@) == Some(0xf2dcnat)) by {
        reveal_strlit("icing");
        reveal_strlit("pfi");
        lemma_len_differs("icing"@, "pfi"@);
        reveal_strlit("gauge");
        lemma_differs_at("icing"@, "gauge"@, 0);
        reveal_strlit("switches");
        lemma_len_differs("icing"@, "switches"@);
        reveal_strlit("toggle");
        lemma_len_differs("icing"@, "toggle"@);
    }
    assert(icon_codepoint("snowflake"@) == Some(0xf2dcnat)) by {
        reveal_strlit("snowflake");
        reveal_strlit("pfi");
        lemma_len_differs("snowflake"@, "pfi"@);
        reveal_strlit("gauge");
        lemma_len_differs("snowflake"@, "gauge"@);
        reveal_strlit("switches");
        lemma_len_differs("snowflake"@, "switches"@);
        reveal_strlit("toggle");
        lemma_len_differs("snowflake"@, "toggle"@);
    }
    assert(icon_codepoint("weather"@) == Some(0xf0c2nat)) by {
        reveal_strlit("weather");
        reveal_strlit("pfi");
        lemma_len_differs("weather"@, "pfi"@);
        reveal_strlit("gauge");
        lemma_len_differs("weather"@, "gauge"@);
        reveal_strlit("switches");
        lemma_len_differs("weather"@, "switches"@);
        reveal_strlit("toggle");
        lemma_len_differs("weather"@, "toggle"@);
        reveal_strlit("icing");
        lemma_len_differs("weather"@, "icing"@);
        reveal_strlit("snowflake");
        lemma_len_differs("weather"@, "snowflake"@);
    }
    assert(icon_codepoint("cloud"@) == Some(0xf0c2nat)) by {
        reveal_strlit("cloud");
        reveal_strlit("pfi");
        lemma_len_differs("cloud"@, "pfi"@);
        reveal_strlit("gauge");
        lemma_differs_at("cloud"@, "gauge"@, 0);
        reveal_strlit("switches");
        lemma_len_differs("cloud"@, "switches"@);
        reveal_strlit("toggle");
        lemma_len_differs("cloud"@, "toggle"@);
        reveal_strlit("icing");
        lemma_differs_at("cloud"@, "icing"@, 0);
        reveal_strlit("snowflake");
        lemma_len_differs("cloud"@, "snowflake"@);
    }
    assert(icon_codepoint("autopilot"@) == Some(0xe22dnat)) by {
        reveal_strlit("autopilot");
        reveal_strlit("pfi");
        lemma_len_differs("autopilot"@, "pfi"@);
        reveal_strlit("gauge");
        lemma_len_differs("autopilot"@, "gauge"@);
        reveal_strlit("switches");
        lemma_len_differs("autopilot"@, "switches"@);
        reveal_strlit("toggle");
        lemma_len_differs("autopilot"@, "toggle"@);
        reveal_strlit("icing");
        lemma_len_differs("autopilot"@, "icing"@);
        reveal_strlit("snowflake");
        lemma_differs_at("autopilot"@, "snowflake"@, 0);
        reveal_strlit("weather");
        lemma_len_differs("autopilot"@, "weather"@);
        reveal_strlit("cloud");
        lemma_len_differs("autopilot"@, "cloud"@);
    }
    assert(icon_codepoint("ap"@) == Some(0xe22dnat)) by {
        reveal_strlit("ap");
        reveal_strlit("pfi");
        lemma_len_differs("ap"@, "pfi"@);
        reveal_strlit("gauge");
        lemma_len_differs("ap"@, "gauge"@);
        reveal_strlit("switches");
        lemma_len_differs("ap"@, "switches"@);
        reveal_strlit("toggle");
        lemma_len_differs("ap"@, "toggle"@);
        reveal_strlit("icing");
        lemma_len_differs("ap"@, "icing"@);
        reveal_strlit("snowflake");
        lemma_len_differs("ap"@, "snowflake"@);
        reveal_strlit("weather");
        lemma_len_differs("ap"@, "weather"@);
        reveal_strlit("cloud");
        lemma_len_differs("ap"@, "cloud"@);
    }
    assert(icon_codepoint("gcu"@) == Some(0xf2dbnat)) by {
        reveal_strlit("gcu");
        reveal_strlit("pfi");
        lemma_differs_at("gcu"@, "pfi"@, 0);
        reveal_strlit("gauge");
        lemma_len_differs("gcu"@, "gauge"@);
        reveal_strlit("switches");
        lemma_len_differs("gcu"@, "switches"@);
        reveal_strlit("toggle");
        lemma_len_differs("gcu"@, "toggle"@);
        reveal_strlit("icing");
        lemma_len_differs("gcu"@, "icing"@);
        reveal_strlit("snowflake");
        lemma_len_differs("gcu"@, "snowflake"@);
        reveal_strlit("weather");
        lemma_len_differs("gcu"@, "weather"@);
        reveal_strlit("cloud");
        lemma_len_differs("gcu"@, "cloud"@);
        reveal_strlit("autopilot");
        lemma_len_differs("gcu"@, "autopilot"@);
        reveal_strlit("ap");
        lemma_len_differs("gcu"@, "ap"@);
    }
    assert(icon_codepoint("chip"@) == Some(0xf2dbnat)) by {
        reveal_strlit("chip");
        reveal_strlit("pfi");
        lemma_len_differs("chip"@, "pfi"@);
        reveal_strlit("gauge");
        lemma_len_differs("chip"@, "gauge"@);
        reveal_strlit("switches");
        lemma_len_differs("chip"@, "switches"@);
        reveal_strlit("toggle");
        lemma_len_differs("chip"@, "toggle"@);
        reveal_strlit("icing");
        lemma_len_differs("chip"@, "icing"@);
        reveal_strlit("snowflake");
        lemma_len_differs("chip"@, "snowflake"@);
        reveal_strlit("weather");
        lemma_len_differs("chip"@, "weather"@);
        reveal_strlit("cloud");
        lemma_len_differs("chip"@, "cloud"@);
        reveal_strlit("autopilot");
        lemma_len_differs("chip"@, "autopilot"@);
        reveal_strlit("ap");
        lemma_len_differs("chip"@, "ap"@);
    }
    assert(icon_codepoint("radio"@) == Some(0xe585nat)) by {
        reveal_strlit("radio");
        reveal_strlit("pfi");
        lemma_len_differs("radio"@, "pfi"@);
        reveal_strlit("gauge");
        lemma_differs_at("radio"@, "gauge"@, 0);
        reveal_strlit("switches");
        lemma_len_differs("radio"@, "switches"@);
        reveal_strlit("toggle");
        lemma_len_differs("radio"@, "toggle"@);
        reveal_strlit("icing");
        lemma_differs_at("radio"@, "icing"@, 0);
        reveal_strlit("snowflake");
        lemma_len_differs("radio"@, "snowflake"@);
        reveal_strlit("weather");
        lemma_len_differs("radio"@, "weather"@);
        reveal_strlit("cloud");
        lemma_differs_at("radio"@, "cloud"@, 0);
        reveal_strlit("autopilot");
        lemma_len_differs("radio"@, "autopilot"@);
        reveal_strlit("ap");
        lemma_len_differs("radio"@, "ap"@);
        reveal_strlit("gcu");
        lemma_len_differs("radio"@, "gcu"@);
        reveal_strlit("chip");
        lemma_len_differs("radio"@, "chip"@);
    }
    assert(icon_codepoint("engine"@) == Some(0xf085nat)) by {
        reveal_strlit("engine");
        reveal_strlit("pfi");
        lemma_len_differs("engine"@, "pfi"@);
        reveal_strlit("gauge");
        lemma_len_differs("engine"@, "gauge"@);
        reveal_strlit("switches");
        lemma_len_differs("engine"@, "switches"@);
        reveal_strlit("toggle");
        lemma_differs_at("engine"@, "toggle"@, 0);
        reveal_strlit("icing");
        lemma_len_differs("engine"@, "icing"@);
        reveal_strlit("snowflake");
        lemma_len_differs("engine"@, "snowflake"@);
        reveal_strlit("weather");
        lemma_len_differs("engine"@, "weather"@);
        reveal_strlit("cloud");
        lemma_len_differs("engine"@, "cloud"@);
        reveal_strlit("autopilot");
        lemma_len_differs("engine"@, "autopilot"@);
        reveal_strlit("ap");
        lemma_len_differs("engine"@, "ap"@);
        reveal_strlit("gcu");
        lemma_len_differs("engine"@, "gcu"@);
        reveal_strlit("chip");
        lemma_len_differs("engine"@, "chip"@);
        reveal_strlit("radio");
        lemma_len_differs("engine"@, "radio"@);
    }
    assert(icon_codepoint("gears"@) == Some(0xf085nat)) by {
        reveal_strlit("gears");
        reveal_strlit("pfi");
        lemma_len_differs("gears"@, "pfi"@);
        reveal_strlit("gauge");
        lemma_differs_at("gears"@, "gauge"@, 1);
        reveal_strlit("switches");
        lemma_len_differs("gears"@, "switches"@);
        reveal_strlit("toggle");
        lemma_len_differs("gears"@, "toggle"@);
        reveal_strlit("icing");
        lemma_differs_at("gears"@, "icing"@, 0);
        reveal_strlit("snowflake");
        lemma_len_differs("gears"@, "snowflake"@);
        reveal_strlit("weather");
        lemma_len_differs("gears"@, "weather"@);
        reveal_strlit("cloud");
        lemma_differs_at("gears"@, "cloud"@, 0);
        reveal_strlit("autopilot");
        lemma_len_differs("gears"@, "autopilot"@);
        reveal_strlit("ap");
        lemma_len_differs("gears"@, "ap"@);
        reveal_strlit("gcu");
        lemma_len_differs("gears"@, "gcu"@);
        reveal_strlit("chip");
        lemma_len_differs("gears"@, "chip"@);
        reveal_strlit("radio");
        lemma_differs_at("gears"@, "radio"@, 0);
    }
    assert(icon_codepoint("views"@) == Some(0xf030nat)) by {
        reveal_strlit("views");
        reveal_strlit("pfi");
        lemma_len_differs("views"@, "pfi"@);
        reveal_strlit("gauge");
        lemma_differs_at("views"@, "gauge"@, 0);
        reveal_strlit("switches");
        lemma_len_differs("views"@, "switches"@);
        reveal_strlit("toggle");
        lemma_len_differs("views"@, "toggle"@);
        reveal_strlit("icing");
        lemma_differs_at("views"@, "icing"@, 0);
        reveal_strlit("snowflake");
        lemma_len_differs("views"@, "snowflake"@);
        reveal_strlit("weather");
        lemma_len_differs("views"@, "weather"@);
        reveal_strlit("cloud");
        lemma_differs_at("views"@, "cloud"@, 0);
        reveal_strlit("autopilot");
        lemma_len_differs("views"@, "autopilot"@);
        reveal_strlit("ap");
        lemma_len_differs("views"@, "ap"@);
        reveal_strlit("gcu");
        lemma_len_differs("views"@, "gcu"@);
        reveal_strlit("chip");
        lemma_len_differs("views"@, "chip"@);
        reveal_strlit("radio");
        lemma_differs_at("views"@, "radio"@, 0);
        reveal_strlit("engine");
        lemma_len_differs("views"@, "engine"@);
        reveal_strlit("gears");
        lemma_differs_at("views"@, "gears"@, 0);
    }
    assert(icon_codepoint("camera"@) == Some(0xf030nat)) by {
        reveal_strlit("camera");
        reveal_strlit("pfi");
        lemma_len_differs("camera"@, "pfi"@);
        reveal_strlit("gauge");
        lemma_len_differs("camera"@, "gauge"@);
        reveal_strlit("switches");
        lemma_len_differs("camera"@, "switches"@);
        reveal_strlit("toggle");
        lemma_differs_at("camera"@, "toggle"@, 0);
        reveal_strlit("icing");
        lemma_len_differs("camera"@, "icing"@);
        reveal_strlit("snowflake");
        lemma_len_differs("camera"@, "snowflake"@);
        reveal_strlit("weather");
        lemma_len_differs("camera"@, "weather"@);
        reveal_strlit("cloud");
        lemma_len_differs("camera"@, "cloud"@);
        reveal_strlit("autopilot");
        lemma_len_differs("camera"@, "autopilot"@);
        reveal_strlit("ap");
        lemma_len_differs("camera"@, "ap"@);
        reveal_strlit("gcu");
        lemma_len_differs("camera"@, "gcu"@);
        reveal_strlit("chip");
        lemma_len_differs("camera"@, "chip"@);
        reveal_strlit("radio");
        lemma_len_differs("camera"@, "radio"@);
        reveal_strlit("engine");
        lemma_differs_at("camera"@, "engine"@, 0);
        reveal_strlit("gears");
        lemma_len_differs("camera"@, "gears"@);
    }
    assert(icon_codepoint("transponder"@) == Some(0xf8d7nat)) by {
        reveal_strlit("transponder");
        reveal_strlit("pfi");
        lemma_len_differs("transponder"@, "pfi"@);
        reveal_strlit("gauge");
        lemma_len_differs("transponder"@, "gauge"@);
        reveal_strlit("switches");
        lemma_len_differs("transponder"@, "switches"@);
        reveal_strlit("toggle");
        lemma_len_differs("transponder"@, "toggle"@);
        reveal_strlit("icing");
        lemma_len_differs("transponder"@, "icing"@);
        reveal_strlit("snowflake");
        lemma_len_differs("transponder"@, "snowflake"@);
        reveal_strlit("weather");
        lemma_len_differs("transponder"@, "weather"@);
        reveal_strlit("cloud");
        lemma_len_differs("transponder"@, "cloud"@);
        reveal_strlit("autopilot");
        lemma_len_differs("transponder"@, "autopilot"@);
        reveal_strlit("ap");
        lemma_len_differs("transponder"@, "ap"@);
        reveal_strlit("gcu");
        lemma_len_differs("transponder"@, "gcu"@);
        reveal_strlit("chip");
        lemma_len_differs("transponder"@, "chip"@);
        reveal_strlit("radio");
        lemma_len_differs("transponder"@, "radio"@);
        reveal_strlit("engine");
        lemma_len_differs("transponder"@, "engine"@);
        reveal_strlit("gears");
        lemma_len_differs("transponder"@, "gears"@);
        reveal_strlit("views");
        lemma_len_differs("transponder"@, "views"@);
        reveal_strlit("camera");
        lemma_len_differs("transponder"@, "camera"@);
    }
    assert(icon_codepoint("xpdr"@) == Some(0xf8d7nat)) by {
        reveal_strlit("xpdr");
        reveal_strlit("pfi");
        lemma_len_differs("xpdr"@, "pfi"@);
        reveal_strlit("gauge");
        lemma_len_differs("xpdr"@, "gauge"@);
        reveal_strlit("switches");
        lemma_len_differs("xpdr"@, "switches"@);
        reveal_strlit("toggle");
        lemma_len_differs("xpdr"@, "toggle"@);
        reveal_strlit("icing");
        lemma_len_differs("xpdr"@, "icing"@);
        reveal_strlit("snowflake");
        lemma_len_differs("xpdr"@, "snowflake"@);
        reveal_strlit("weather");
        lemma_len_differs("xpdr"@, "weather"@);
        reveal_strlit("cloud");
        lemma_len_differs("xpdr"@, "cloud"@);
        reveal_strlit("autopilot");
        lemma_len_differs("xpdr"@, "autopilot"@);
        reveal_strlit("ap");
        lemma_len_differs("xpdr"@, "ap"@);
        reveal_strlit("gcu");
        lemma_len_differs("xpdr"@, "gcu"@);
        reveal_strlit("chip");
        lemma_differs_at("xpdr"@, "chip"@, 0);
        reveal_strlit("radio");
        lemma_len_differs("xpdr"@, "radio"@);
        reveal_strlit("engine");
        lemma_len_differs("xpdr"@, "engine"@);
        reveal_strlit("gears");
        lemma_len_differs("xpdr"@, "gears"@);
        reveal_strlit("views");
        lemma_len_differs("xpdr"@, "views"@);
        reveal_strlit("camera");
        lemma_len_differs("xpdr"@, "camera"@);
    }
    assert(icon_codepoint("fms"@) == Some(0xf279nat)) by {
        reveal_strlit("fms");
        reveal_strlit("pfi");
        lemma_differs_at("fms"@, "pfi"@, 0);
        reveal_strlit("gauge");
        lemma_len_differs("fms"@, "gauge"@);
        reveal_strlit("switches");
        lemma_len_differs("fms"@, "switches"@);
        reveal_strlit("toggle");
        lemma_len_differs("fms"@, "toggle"@);
        reveal_strlit("icing");
        lemma_len_differs("fms"@, "icing"@);
        reveal_strlit("snowflake");
        lemma_len_differs("fms"@, "snowflake"@);
        reveal_strlit("weather");
        lemma_len_differs("fms"@, "weather"@);
        reveal_strlit("cloud");
        lemma_len_differs("fms"@, "cloud"@);
        reveal_strlit("autopilot");
        lemma_len_differs("fms"@, "autopilot"@);
        reveal_strlit("ap");
        lemma_len_differs("fms"@, "ap"@);
        reveal_strlit("gcu");
        lemma_differs_at("fms"@, "gcu"@, 0);
        reveal_strlit("chip");
        lemma_len_differs("fms"@, "chip"@);
        reveal_strlit("radio");
        lemma_len_differs("fms"@, "radio"@);
        reveal_strlit("engine");
        lemma_len_differs("fms"@, "engine"@);
        reveal_strlit("gears");
        lemma_len_differs("fms"@, "gears"@);
        reveal_strlit("views");
        lemma_len_differs("fms"@, "views"@);
        reveal_strlit("camera");
        lemma_len_differs("fms"@, "camera"@);
        reveal_strlit("transponder");
        lemma_len_differs("fms"@, "transponder"@);
        reveal_strlit("xpdr");
        lemma_len_differs("fms"@, "xpdr"@);
    }
    assert(icon_codepoint("map"@) == Some(0xf279nat)) by {
        reveal_strlit("map");
        reveal_strlit("pfi");
        lemma_differs_at("map"@, "pfi"@, 0);
        reveal_strlit("gauge");
        lemma_len_differs("map"@, "gauge"@);
        reveal_strlit("switches");
        lemma_len_differs("map"@, "switches"@);
        reveal_strlit("toggle");
        lemma_len_differs("map"@, "toggle"@);
        reveal_strlit("icing");
        lemma_len_differs("map"@, "icing"@);
        reveal_strlit("snowflake");
        lemma_len_differs("map"@, "snowflake"@);
        reveal_strlit("weather");
        lemma_len_differs("map"@, "weather"@);
        reveal_strlit("cloud");
        lemma_len_differs("map"@, "cloud"@);
        reveal_strlit("autopilot");
        lemma_len_differs("map"@, "autopilot"@);
        reveal_strlit("ap");
        lemma_len_differs("map"@, "ap"@);
        reveal_strlit("gcu");
        lemma_differs_at("map"@, "gcu"@, 0);
        reveal_strlit("chip");
        lemma_len_differs("map"@, "chip"@);
        reveal_strlit("radio");
        lemma_len_differs("map"@, "radio"@);
        reveal_strlit("engine");
        lemma_len_differs("map"@, "engine"@);
        reveal_strlit("gears");
        lemma_len_differs("map"@, "gears"@);
        reveal_strlit("views");
        lemma_len_differs("map"@, "views"@);
        reveal_strlit("camera");
        lemma_len_differs("map"@, "camera"@);
        reveal_strlit("transponder");
        lemma_len_differs("map"@, "transponder"@);
        reveal_strlit("xpdr");
        lemma_len_differs("map"@, "xpdr"@);
    }
}

/// Hex digits cannot spell a name with a letter beyond `f` at `k`.
proof fn lemma_not_name(n: Seq<char>, name: Seq<char>, k: int)
    requires
        all_digits(codes(n), 16),
        0 <= k < name.len(),
        digit_value(name[k] as u32, 16) is None,
    ensures
        n != name,
{
    if n == name {
        assert(digit_value(codes(n)[k], 16) is Some);
    }
}

/// The character with scalar value `v`, as `char::from_u32` gives it:
/// none for a surrogate or above 0x10FFFF.
pub open spec fn scalar(v: nat) -> Option<char> {
    if v <= 0x10FFFF && !(0xD800 <= v <= 0xDFFF) {
        Some(v as char)
    } else {
        None
    }
}

proof fn lemma_first_differs(n: Seq<char>, name: Seq<char>)
    requires
        n.len() > 0,
        name.len() > 0,
        n[0] != name[0],
    ensures
        n != name,
{
}

/// A name of hex digits is none of the icon names.
proof fn lemma_hex_unnamed(t: Seq<char>)
    requires
        all_digits(codes(t), 16),
        t.len() > 0,
    ensures
        icon_codepoint(t) == parse_uint(codes(strip_leading_u(t)), 16, 0xFFFF_FFFF),
{
    reveal_strlit("pfi");
    lemma_not_name(t, "pfi"@, 0);
    reveal_strlit("gauge");
    lemma_not_name(t, "gauge"@, 0);
    reveal_strlit("switches");
    lemma_not_name(t, "switches"@, 0);
    reveal_strlit("toggle");
    lemma_not_name(t, "toggle"@, 0);
    reveal_strlit("icing");
    lemma_not_name(t, "icing"@, 0);
    reveal_strlit("snowflake");
    lemma_not_name(t, "snowflake"@, 0);
    reveal_strlit("weather");
    lemma_not_name(t, "weather"@, 0);
    reveal_strlit("cloud");
    lemma_not_name(t, "cloud"@, 1);
    reveal_strlit("autopilot");
    lemma_not_name(t, "autopilot"@, 1);
    reveal_strlit("ap");
    lemma_not_name(t, "ap"@, 1);
    reveal_strlit("gcu");
    lemma_not_name(t, "gcu"@, 0);
    reveal_strlit("chip");
    lemma_not_name(t, "chip"@, 1);
    reveal_strlit("radio");
    lemma_not_name(t, "radio"@, 0);
    reveal_strlit("engine");
    lemma_not_name(t, "engine"@, 1);
    reveal_strlit("gears");
    lemma_not_name(t, "gears"@, 0);
    reveal_strlit("views");
    lemma_not_name(t, "views"@, 0);
    reveal_strlit("camera");
    lemma_not_name(t, "camera"@, 2);
    reveal_strlit("transponder");
    lemma_not_name(t, "transponder"@, 0);
    reveal_strlit("xpdr");
    lemma_not_name(t, "xpdr"@, 0);
    reveal_strlit("fms");
    lemma_not_name(t, "fms"@, 1);
    reveal_strlit("map");
    lemma_not_name(t, "map"@, 0);
    assert(digit_value(codes(t)[0], 16) is Some);
    assert(t[0] != 'u');
}

/// A name that starts with `u` is none of the icon names.
proof fn lemma_u_unnamed(n: Seq<char>)
    requires
        n.len() > 0,
        n[0] == 'u',
    ensures
        icon_codepoint(n) == parse_uint(codes(strip_leading_u(n)), 16, 0xFFFF_FFFF),
{
    reveal_strlit("pfi");
    lemma_first_differs(n, "pfi"@);
    reveal_strlit("gauge");
    lemma_first_differs(n, "gauge"@);
    reveal_strlit("switches");
    lemma_first_differs(n, "switches"@);
    reveal_strlit("toggle");
    lemma_first_differs(n, "toggle"@);
    reveal_strlit("icing");
    lemma_first_differs(n, "icing"@);
    reveal_strlit("snowflake");
    lemma_first_differs(n, "snowflake"@);
    reveal_strlit("weather");
    lemma_first_differs(n, "weather"@);
    reveal_strlit("cloud");
    lemma_first_differs(n, "cloud"@);
    reveal_strlit("autopilot");
    lemma_first_differs(n, "autopilot"@);
    reveal_strlit("ap");
    lemma_first_differs(n, "ap"@);
    reveal_strlit("gcu");
    lemma_first_differs(n, "gcu"@);
    reveal_strlit("chip");
    lemma_first_differs(n, "chip"@);
    reveal_strlit("radio");
    lemma_first_differs(n, "radio"@);
    reveal_strlit("engine");
    lemma_first_differs(n, "engine"@);
    reveal_strlit("gears");
    lemma_first_differs(n, "gears"@);
    reveal_strlit("views");
    lemma_first_differs(n, "views"@);
    reveal_strlit("camera");
    lemma_first_differs(n, "camera"@);
    reveal_strlit("transponder");
    lemma_first_differs(n, "transponder"@);
    reveal_strlit("xpdr");
    lemma_first_differs(n, "xpdr"@);
    reveal_strlit("fms");
    lemma_first_differs(n, "fms"@);
    reveal_strlit("map");
    lemma_first_differs(n, "map"@);
}

/// An icon named by a number in hex, with or without a leading `u`, gives
/// the character with that scalar value, and none for a surrogate or a
/// number above 0x10FFFF.
pub proof fn lemma_icon_hex_round_trip(cp: u32, prefixed: bool)
    ensures
        spec_icon_glyph(
            if prefixed {
                seq!['u'] + numeral(cp as nat, 16)
            } else {
                numeral(cp as nat, 16)
            },
        ) == scalar(cp as nat),
{
    let t = numeral(cp as nat, 16);
    lemma_numeral_digits(cp as nat, 16);
    lemma_numeral_parses(cp as nat, 16, 0xFFFF_FFFF);
    assert(digit_value(codes(t)[0], 16) is Some);
    assert(t[0] != 'u');
    assert(strip_leading_u(t) == t);
    if prefixed {
        let n = seq!['u'] + t;
        lemma_u_unnamed(n);
        assert(n.drop_first() =~= t);
        assert(strip_leading_u(n) == t);
    } else {
        lemma_hex_unnamed(t);
    }
}

fn is_name(n: &[char], a: &str) -> (r: bool)
    ensures
        r == (n@ == a@),
{
    let v = chars_of(a);
    chars_eq(n, v.as_slice())
}

fn known_icon(n: &[char]) -> (r: Option<u32>)
    ensures
        match r {
            Some(v) => icon_codepoint(n@) == Some(v as nat) && (v == 0xf3fd || v == 0xf204 || v
                == 0xf2dc || v == 0xf0c2 || v == 0xe22d || v == 0xf2db || v == 0xe585 || v
                == 0xf085 || v == 0xf030 || v == 0xf8d7 || v == 0xf279),
            None => icon_codepoint(n@) == parse_uint(codes(strip_leading_u(n@)), 16, 0xFFFF_FFFF),
        },
{
    if is_name(n, "pfi") || is_name(n, "gauge") {
        Some(0xf3fd)
    } else if is_name(n, "switches") || is_name(n, "toggle") {
        Some(0xf204)
    } else if is_name(n, "icing") || is_name(n, "snowflake") {
        Some(0xf2dc)
    } else if is_name(n, "weather") || is_name(n, "cloud") {
        Some(0xf0c2)
    } else if is_name(n, "autopilot") || is_name(n, "ap") {
        Some(0xe22d)
    } else if is_name(n, "gcu") || is_name(n, "chip") {
        Some(0xf2db)
    } else if is_name(n, "radio") {
        Some(0xe585)
    } else if is_name(n, "engine") || is_name(n, "gears") {
        Some(0xf085)
    } else if is_name(n, "views") || is_name(n, "camera") {
        Some(0xf030)
    } else if is_name(n, "transponder") || is_name(n, "xpdr") {
        Some(0xf8d7)
    } else if is_name(n, "fms") || is_name(n, "map") {
        Some(0xf279)
    } else {
        None
    }
}

/// Resolve an icon name (or a raw hex codepoint such as `"f085"` or
/// `"uf085"`) to a glyph.
pub fn icon_glyph(name: &str) -> (r: Option<char>)
    ensures
        r == spec_icon_glyph(name@),
{
    let n = chars_of(name);
    let cp: u32 = match known_icon(n.as_slice()) {
        Some(v) => v,
        None => {
            let mut i: usize = 0;
            assert(n@.subrange(0, n@.len() as int) =~= n@);
            while i < n.len() && n[i] == 'u'
                invariant
                    i <= n@.len(),
                    strip_leading_u(n@) == strip_leading_u(n@.subrange(i as int, n@.len() as int)),
                decreases n@.len() - i,
            {
                assert(n@.subrange(i as int, n@.len() as int).drop_first() =~= n@.subrange(
                    i + 1,
                    n@.len() as int,
                ));
                i = i + 1;
            }
            assert(strip_leading_u(n@.subrange(i as int, n@.len() as int)) == n@.subrange(
                i as int,
                n@.len() as int,
            ));
            let mut rest: Vec<char> = Vec::new();
            let mut k = i;
            while k < n.len()
                invariant
                    i <= k <= n@.len(),
                    rest@ == n@.subrange(i as int, k as int),
                decreases n@.len() - k,
            {
                rest.push(n[k]);
                assert(n@.subrange(i as int, k + 1) =~= n@.subrange(i as int, k as int).push(
                    n@[k as int],
                ));
                k = k + 1;
            }
            let cs = codes_of(rest.as_slice());
            match parse_unsigned(cs.as_slice(), 16, 0xFFFF_FFFF) {
                Some(v) => v as u32,
                None => {
                    return None;
                },
            }
        },
    };
    let r = char_from_u32(cp);
    proof {
        if let Some(c) = r {
            vstd::utf8::char_u32_cast(c, cp);
        }
    }
    r
}

/// A colour darkened to roughly an unlit annunciator's shade: 22% of each
/// channel, rounded down.
pub fn dim(c: Rgb) -> (r: Rgb)
    ensures
        r[0] == c[0] * 22 / 100,
        r[1] == c[1] * 22 / 100,
        r[2] == c[2] * 22 / 100,
{
    [
        ((c[0] as u16) * 22 / 100) as u8,
        ((c[1] as u16) * 22 / 100) as u8,
        ((c[2] as u16) * 22 / 100) as u8,
    ]
}

impl Canvas {
    /// Whether a coverage bitmap can be blended at (x, y): it holds a byte
    /// per cell and stays within the `i32` coordinate range.
    pub fn can_blit(&self, cov: &[u8], cw: usize, ch: usize, x: i32, y: i32) -> (r: bool)
        ensures
            r ==> blit_ok(cov@, cw as int, ch as int, x as int, y as int, self.spec_width(), self.spec_height()),
    {
        if cw > i32::MAX as usize || ch > i32::MAX as usize {
            return false;
        }
        if ch > 0 && y as i64 + ch as i64 - 1 > i32::MAX as i64 {
            return false;
        }
        if cw > 0 && x as i64 + cw as i64 - 1 > i32::MAX as i64 {
            return false;
        }
        assert(cw * ch <= 0x7FFF_FFFFnat * 0x7FFF_FFFFnat) by (nonlinear_arith)
            requires
                cw <= 0x7FFF_FFFF,
                ch <= 0x7FFF_FFFF,
        ;
        let cells: u64 = cw as u64 * ch as u64;
        if cells > cov.len() as u64 {
            return false;
        }
        proof {
            assert forall|row: int, col: int|
                0 <= row < ch && 0 <= col < cw && 0 <= x + col < self.spec_width() && 0 <= y + row
                    < self.spec_height() implies #[trigger] (row * cw + col) < cov@.len() by {
                assert(row * cw + col < cw * ch) by (nonlinear_arith)
                    requires
                        0 <= row < ch,
                        0 <= col < cw,
                ;
            }
        }
        true
    }
}

} // verus!
