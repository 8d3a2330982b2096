//! The framebuffer programs draw into, and text drawn into it.
use crate::font;
use crate::font::{scale_for, width};
use crate::text::chars_of;
use vstd::prelude::*;

verus! {

/// A pixel. An alpha of 0 lets what is behind the frame show through.
#[derive(Clone, Copy, PartialEq, Eq, Structural, Debug)]
pub struct Color {
    pub r: u8,
    pub g: u8,
    pub b: u8,
    pub a: u8,
}

pub struct Canvas {
    pub w: u32,
    pub h: u32,
    /// Row by row.
    pub px: Vec<Color>,
}

/// A number held to 0..=255.
pub open spec fn byte(v: int) -> u8 {
    if v < 0 {
        0
    } else if v > 255 {
        255
    } else {
        v as u8
    }
}

fn to_byte(v: i64) -> (r: u8)
    ensures
        r == byte(v as int),
{
    if v < 0 {
        0
    } else if v > 255 {
        255
    } else {
        v as u8
    }
}

/// A side of a frame.
pub open spec fn side(n: i64) -> u32 {
    if n > 0 {
        n as u32
    } else {
        0
    }
}

fn to_side(n: i64) -> (r: u32)
    ensures
        r == side(n),
{
    if n > 0 {
        #[verifier::truncate]
        (n as u32)
    } else {
        0
    }
}

/// A colour of channels held to 0..=255.
pub open spec fn rgba(r: int, g: int, b: int, a: int) -> Color {
    Color { r: byte(r), g: byte(g), b: byte(b), a: byte(a) }
}

pub fn color(r: i64, g: i64, b: i64, a: i64) -> (c: Color)
    ensures
        c == rgba(r as int, g as int, b as int, a as int),
{
    Color { r: to_byte(r), g: to_byte(g), b: to_byte(b), a: to_byte(a) }
}

/// A colour as one number: red, green and blue, most significant first.
pub open spec fn packed(c: Color) -> int {
    c.r * 0x1_0000 + c.g * 0x100 + c.b
}

/// The colour a number packs, opaque.
pub open spec fn unpacked(n: i64) -> Color {
    Color {
        r: (n as int / 0x1_0000 % 0x100) as u8,
        g: (n as int / 0x100 % 0x100) as u8,
        b: (n as int % 0x100) as u8,
        a: 255,
    }
}

proof fn lemma_place(w: int, x: int, y: int, h: int)
    requires
        0 <= x < w,
        0 <= y < h,
    ensures
        0 <= y * w,
        0 <= y * w + x < w * h,
{
    assert(0 <= y * w && y * w + w <= h * w) by (nonlinear_arith)
        requires
            0 <= y < h,
            0 <= w,
    ;
    assert(h * w == w * h) by (nonlinear_arith);
}

/// Where a pixel of a frame is held.
pub proof fn lemma_inside(c: Canvas, x: int, y: int)
    requires
        c.wf(),
        c.inside(x, y),
    ensures
        0 <= y * c.w,
        0 <= y * c.w + x < c.px@.len(),
{
    lemma_place(c.w as int, x, y, c.h as int);
}

proof fn lemma_places_differ(w: int, x: int, y: int, x2: int, y2: int)
    requires
        0 <= x < w,
        0 <= x2 < w,
        y * w + x == y2 * w + x2,
    ensures
        x == x2,
        y == y2,
{
    assert(y == y2) by (nonlinear_arith)
        requires
            0 <= x < w,
            0 <= x2 < w,
            y * w + x == y2 * w + x2,
    ;
}

/// One channel of a colour laid over another with some coverage.
pub open spec fn blend(under: u8, over: u8, cov: u8) -> u8 {
    ((under * (255 - cov) + over * cov) / 255) as u8
}

/// A colour laid over a pixel. Without coverage the pixel stays.
pub open spec fn laid(under: Color, over: Color, cov: u8) -> Color {
    if cov == 0 {
        under
    } else {
        Color {
            r: blend(under.r, over.r, cov),
            g: blend(under.g, over.g, cov),
            b: blend(under.b, over.b, cov),
            a: 255,
        }
    }
}

fn mix(under: u8, over: u8, cov: u8) -> (r: u8)
    ensures
        r == blend(under, over, cov),
{
    proof {
        assert(0 <= under * (255 - cov) <= 255 * (255 - cov)) by (nonlinear_arith)
            requires
                0 <= under <= 255,
                0 <= cov <= 255,
        ;
        assert(0 <= over * cov <= 255 * cov) by (nonlinear_arith)
            requires
                0 <= over <= 255,
                0 <= cov <= 255,
        ;
    }
    ((under as u32 * (255 - cov as u32) + over as u32 * cov as u32) / 255) as u8
}

/// A rasterised character: its box against the pen, how far the pen moves, and how
/// much of each pixel it covers.
pub struct Glyph {
    pub xmin: i32,
    pub ymin: i32,
    pub width: usize,
    pub height: usize,
    pub advance: i64,
    pub coverage: Vec<u8>,
}

impl Glyph {
    pub open spec fn wf(self) -> bool {
        self.coverage@.len() == self.width * self.height
    }

    /// How much it covers of the pixel in this column and row; nothing outside its
    /// box.
    pub open spec fn cover(self, col: int, row: int) -> u8 {
        if 0 <= col < self.width && 0 <= row < self.height {
            self.coverage@[row * self.width + col]
        } else {
            0
        }
    }
}

impl Canvas {
    pub open spec fn wf(self) -> bool {
        self.px@.len() == self.w * self.h
    }

    pub open spec fn inside(self, x: int, y: int) -> bool {
        0 <= x < self.w && 0 <= y < self.h
    }

    /// The pixel at `(x, y)`.
    pub open spec fn at(self, x: int, y: int) -> Color {
        self.px@[y * self.w + x]
    }

    /// The two frames have the same size.
    pub open spec fn alike(self, other: Canvas) -> bool {
        self.w == other.w && self.h == other.h
    }

    /// A black frame. A negative side counts as none, and the low 32 bits of any
    /// other.
    pub fn framebuffer(w: i64, h: i64) -> (c: Canvas)
        requires
            4 * (side(w) * side(h)) <= isize::MAX,
        ensures
            c.wf(),
            c.w == side(w),
            c.h == side(h),
            forall|i: int|
                0 <= i < c.px@.len() ==> #[trigger] c.px@[i] == (Color { r: 0, g: 0, b: 0, a: 255 }),
    {
        let w: u32 = to_side(w);
        let h: u32 = to_side(h);
        proof {
            assert(w * h >= 0) by (nonlinear_arith)
                requires
                    w >= 0,
                    h >= 0,
            ;
        }
        let n: usize = (w as u64 * h as u64) as usize;
        Canvas { w, h, px: vec![Color { r: 0, g: 0, b: 0, a: 255 }; n] }
    }

    /// A frame that shows these pixels, four bytes each, row by row.
    pub fn from_rgba(w: u32, h: u32, bytes: &[u8]) -> (r: Option<Canvas>)
        ensures
            match r {
                Some(c) => {
                    &&& c.wf()
                    &&& c.w == w && c.h == h
                    &&& bytes@.len() == 4 * (w * h)
                    &&& forall|i: int|
                        0 <= i < c.px@.len() ==> #[trigger] c.px@[i] == (Color {
                            r: bytes@[4 * i],
                            g: bytes@[4 * i + 1],
                            b: bytes@[4 * i + 2],
                            a: bytes@[4 * i + 3],
                        })
                },
                None => bytes@.len() != 4 * (w * h),
            },
    {
        proof {
            assert(0 <= w * h <= 0xffff_ffff * 0xffff_ffff) by (nonlinear_arith)
                requires
                    0 <= w <= 0xffff_ffff,
                    0 <= h <= 0xffff_ffff,
            ;
        }
        let n: u64 = w as u64 * h as u64;
        if bytes.len() as u128 != n as u128 * 4 {
            return None;
        }
        let count: usize = bytes.len() / 4;
        let mut px: Vec<Color> = Vec::new();
        let mut i: usize = 0;
        let len: usize = bytes.len();
        while i < count
            invariant
                i <= count,
                count * 4 == bytes@.len() == len,
                px@.len() == i,
                forall|k: int|
                    0 <= k < i ==> #[trigger] px@[k] == (Color {
                        r: bytes@[4 * k],
                        g: bytes@[4 * k + 1],
                        b: bytes@[4 * k + 2],
                        a: bytes@[4 * k + 3],
                    }),
            decreases count - i,
        {
            px.push(
                Color {
                    r: bytes[4 * i],
                    g: bytes[4 * i + 1],
                    b: bytes[4 * i + 2],
                    a: bytes[4 * i + 3],
                },
            );
            i += 1;
        }
        Some(Canvas { w, h, px })
    }

    /// Set the whole frame to a colour that lets what is behind show through.
    pub fn clear(&mut self, r: i64, g: i64, b: i64)
        requires
            old(self).wf(),
        ensures
            final(self).wf(),
            final(self).alike(*old(self)),
            forall|i: int|
                0 <= i < final(self).px@.len() ==> #[trigger] final(self).px@[i] == rgba(r as int, g as int, b as int, 0),
    {
        let c = color(r, g, b, 0);
        let n: usize = self.px.len();
        let mut i: usize = 0;
        while i < n
            invariant
                i <= n == self.px@.len(),
                self.w == old(self).w,
                self.h == old(self).h,
                self.wf(),
                forall|k: int| 0 <= k < i ==> #[trigger] self.px@[k] == c,
            decreases n - i,
        {
            self.px[i] = c;
            i += 1;
        }
    }

    /// Set one pixel. Outside the frame nothing happens.
    fn set(&mut self, x: i64, y: i64, c: Color)
        requires
            old(self).wf(),
        ensures
            final(self).wf(),
            final(self).alike(*old(self)),
            forall|i: int, j: int|
                final(self).inside(i, j) ==> #[trigger] final(self).at(i, j) == (if i == x && j
                    == y {
                    c
                } else {
                    old(self).at(i, j)
                }),
    {
        if x < 0 || y < 0 || x >= self.w as i64 || y >= self.h as i64 {
            return;
        }
        let ghost a = *self;
        let n: usize = self.px.len();
        proof {
            lemma_place(self.w as int, x as int, y as int, self.h as int);
        }
        let i: usize = y as usize * self.w as usize + x as usize;
        self.px[i] = c;
        assert forall|i: int, j: int| self.inside(i, j) implies #[trigger] self.at(i, j) == (if i
            == x && j == y {
            c
        } else {
            a.at(i, j)
        }) by {
            lemma_place(a.w as int, i, j, a.h as int);
            if !(i == x && j == y) {
                if y * a.w + x == j * a.w + i {
                    lemma_places_differ(a.w as int, x as int, y as int, i, j);
                }
            }
        }
    }

    /// Set one pixel, opaque. Outside the frame nothing happens.
    pub fn pixel(&mut self, x: i32, y: i32, r: i64, g: i64, b: i64)
        requires
            old(self).wf(),
        ensures
            final(self).wf(),
            final(self).alike(*old(self)),
            forall|i: int, j: int|
                final(self).inside(i, j) ==> #[trigger] final(self).at(i, j) == (if i == x && j
                    == y {
                    rgba(r as int, g as int, b as int, 255)
                } else {
                    old(self).at(i, j)
                }),
    {
        self.set(x as i64, y as i64, color(r, g, b, 255));
    }

    /// Set one pixel with an alpha of its own.
    pub fn pixel_alpha(&mut self, x: i32, y: i32, r: i64, g: i64, b: i64, a: i64)
        requires
            old(self).wf(),
        ensures
            final(self).wf(),
            final(self).alike(*old(self)),
            forall|i: int, j: int|
                final(self).inside(i, j) ==> #[trigger] final(self).at(i, j) == (if i == x && j
                    == y {
                    rgba(r as int, g as int, b as int, a as int)
                } else {
                    old(self).at(i, j)
                }),
    {
        self.set(x as i64, y as i64, color(r, g, b, a));
    }

    /// Fill a rectangle, as far as it lies in the frame. A side of 0 or less draws
    /// nothing.
    pub fn fill_rect_alpha(&mut self, x: i64, y: i64, w: i64, h: i64, c: Color)
        requires
            old(self).wf(),
        ensures
            final(self).wf(),
            final(self).alike(*old(self)),
            forall|i: int, j: int|
                final(self).inside(i, j) ==> #[trigger] final(self).at(i, j) == (if x <= i < x + w
                    && y <= j < y + h {
                    c
                } else {
                    old(self).at(i, j)
                }),
    {
        if w <= 0 || h <= 0 {
            return;
        }
        self.paint(x as i128, y as i128, x as i128 + w as i128, y as i128 + h as i128, c);
    }

    /// Fill the pixels from `(left, top)` up to but not including `(right, bottom)`,
    /// as far as they lie in the frame.
    fn paint(&mut self, left: i128, top: i128, right: i128, bottom: i128, c: Color)
        requires
            old(self).wf(),
        ensures
            final(self).wf(),
            final(self).alike(*old(self)),
            forall|i: int, j: int|
                final(self).inside(i, j) ==> #[trigger] final(self).at(i, j) == (if left <= i
                    < right && top <= j < bottom {
                    c
                } else {
                    old(self).at(i, j)
                }),
    {
        if right <= 0 || bottom <= 0 || left >= self.w as i128 || top >= self.h as i128 {
            return;
        }
        let x0: i64 = if left < 0 {
            0
        } else {
            left as i64
        };
        let y0: i64 = if top < 0 {
            0
        } else {
            top as i64
        };
        let x1: i64 = if right > self.w as i128 {
            self.w as i64
        } else {
            right as i64
        };
        let y1: i64 = if bottom > self.h as i128 {
            self.h as i64
        } else {
            bottom as i64
        };
        let ghost a = *self;
        let mut j: i64 = y0;
        while j < y1
            invariant
                self.wf(),
                a == *old(self),
                self.alike(a),
                y0 <= j,
                0 <= x0,
                0 <= y0,
                x1 <= a.w,
                y1 <= a.h,
                j <= y1 || j == y0,
                forall|p: int, q: int|
                    self.inside(p, q) ==> #[trigger] self.at(p, q) == (if x0 <= p < x1 && y0 <= q
                        < j {
                        c
                    } else {
                        a.at(p, q)
                    }),
            decreases y1 - j,
        {
            let mut i: i64 = x0;
            while i < x1
                invariant
                    self.wf(),
                    a == *old(self),
                    self.alike(a),
                    x0 <= i,
                    0 <= x0,
                    y0 <= j < y1,
                    x1 <= a.w,
                    y1 <= a.h,
                    i <= x1 || i == x0,
                    forall|p: int, q: int|
                        self.inside(p, q) ==> #[trigger] self.at(p, q) == (if x0 <= p < x1 && y0
                            <= q < j || x0 <= p < i && q == j {
                            c
                        } else {
                            a.at(p, q)
                        }),
                decreases x1 - i,
            {
                self.set(i, j, c);
                i += 1;
            }
            j += 1;
        }
    }

    /// The packed colour at `(x, y)`, or 0 outside the frame.
    pub fn fb_get(&self, x: u32, y: u32) -> (r: i64)
        requires
            self.wf(),
        ensures
            r == (if self.inside(x as int, y as int) {
                packed(self.at(x as int, y as int))
            } else {
                0
            }),
    {
        if x >= self.w || y >= self.h {
            return 0;
        }
        let n: usize = self.px.len();
        proof {
            lemma_place(self.w as int, x as int, y as int, self.h as int);
        }
        let c = self.px[y as usize * self.w as usize + x as usize];
        c.r as i64 * 0x1_0000 + c.g as i64 * 0x100 + c.b as i64
    }

    pub fn fb_width(&self) -> (r: i64)
        ensures
            r == self.w,
    {
        self.w as i64
    }

    pub fn fb_height(&self) -> (r: i64)
        ensures
            r == self.h,
    {
        self.h as i64
    }

    /// The frame's pixels for a picture file: four bytes each, all opaque.
    pub fn opaque_rgba(&self) -> (r: Vec<u8>)
        ensures
            r@.len() == 4 * self.px@.len(),
            forall|i: int|
                0 <= i < self.px@.len() ==> r@[4 * i] == (#[trigger] self.px@[i]).r && r@[4 * i + 1]
                    == self.px@[i].g && r@[4 * i + 2] == self.px@[i].b && r@[4 * i + 3] == 255,
    {
        let mut r: Vec<u8> = Vec::new();
        let mut i: usize = 0;
        while i < self.px.len()
            invariant
                i <= self.px@.len(),
                r@.len() == 4 * i,
                forall|k: int|
                    0 <= k < i ==> r@[4 * k] == (#[trigger] self.px@[k]).r && r@[4 * k + 1]
                        == self.px@[k].g && r@[4 * k + 2] == self.px@[k].b && r@[4 * k + 3] == 255,
            decreases self.px@.len() - i,
        {
            let c = self.px[i];
            r.push(c.r);
            r.push(c.g);
            r.push(c.b);
            r.push(255);
            i += 1;
        }
        r
    }

    /// Lay one character over the frame with the top left corner of its box at
    /// `(gx, gy)`.
    fn lay_glyph(&mut self, g: &Glyph, gx: i128, gy: i128, c: Color)
        requires
            old(self).wf(),
            g.wf(),
            gx + g.width <= i128::MAX,
            gy + g.height <= i128::MAX,
        ensures
            final(self).wf(),
            final(self).alike(*old(self)),
            forall|i: int, j: int|
                final(self).inside(i, j) ==> #[trigger] final(self).at(i, j) == laid(
                    old(self).at(i, j),
                    c,
                    g.cover(i - gx, j - gy),
                ),
    {
        let ghost a = *self;
        let mut row: usize = 0;
        while row < g.height
            invariant
                self.wf(),
                g.wf(),
                a == *old(self),
                self.alike(a),
                row <= g.height,
                gx + g.width <= i128::MAX,
                gy + g.height <= i128::MAX,
                forall|i: int, j: int|
                    self.inside(i, j) ==> #[trigger] self.at(i, j) == (if j - gy < row {
                        laid(a.at(i, j), c, g.cover(i - gx, j - gy))
                    } else {
                        a.at(i, j)
                    }),
            decreases g.height - row,
        {
            let mut col: usize = 0;
            while col < g.width
                invariant
                    self.wf(),
                    g.wf(),
                    a == *old(self),
                    self.alike(a),
                    row < g.height,
                    col <= g.width,
                    gx + g.width <= i128::MAX,
                    gy + g.height <= i128::MAX,
                    forall|i: int, j: int|
                        self.inside(i, j) ==> #[trigger] self.at(i, j) == (if j - gy < row || j - gy
                            == row && i - gx < col {
                            laid(a.at(i, j), c, g.cover(i - gx, j - gy))
                        } else {
                            a.at(i, j)
                        }),
                decreases g.width - col,
            {
                let n: usize = g.coverage.len();
                let all: usize = self.px.len();
                proof {
                    lemma_place(g.width as int, col as int, row as int, g.height as int);
                }
                let cov: u8 = g.coverage[row * g.width + col];
                let x: i128 = gx + col as i128;
                let y: i128 = gy + row as i128;
                if cov != 0 && x >= 0 && y >= 0 && x < self.w as i128 && y < self.h as i128 {
                    proof {
                        lemma_place(self.w as int, x as int, y as int, self.h as int);
                        assert(self.inside(x as int, y as int));
                        assert(self.at(x as int, y as int) == a.at(x as int, y as int));
                    }
                    let under = self.px[y as usize * self.w as usize + x as usize];
                    let out = Color {
                        r: mix(under.r, c.r, cov),
                        g: mix(under.g, c.g, cov),
                        b: mix(under.b, c.b, cov),
                        a: 255,
                    };
                    self.set(x as i64, y as i64, out);
                }
                col += 1;
            }
            row += 1;
        }
    }

    /// Draw one character of the built-in font with its top left corner at
    /// `(x, y)`.
    fn draw_letter(&mut self, letter: u8, x: i128, y: i128, scale: i64, c: Color)
        requires
            old(self).wf(),
            32 <= letter < 127,
            0 < scale,
            -0x8000_0000_0000_0000 <= x,
            x + 6 * scale <= i128::MAX,
            -0x8000_0000_0000_0000 <= y <= 0x7fff_ffff_ffff_ffff,
        ensures
            final(self).wf(),
            final(self).alike(*old(self)),
            forall|i: int, j: int|
                final(self).inside(i, j) ==> #[trigger] final(self).at(i, j) == (
                if font::glyph_lights(letter as int, x as int, y as int, scale as int, 35, i, j) {
                    c
                } else {
                    old(self).at(i, j)
                }),
    {
        let cols: u64 = font::columns_of(letter);
        let ghost a = *self;
        let mut n: i64 = 0;
        while n < 35
            invariant
                self.wf(),
                self.alike(a),
                a == *old(self),
                0 <= n <= 35,
                32 <= letter < 127,
                cols == font::columns(letter as int),
                0 < scale,
                -0x8000_0000_0000_0000 <= x,
                x + 6 * scale <= i128::MAX,
                -0x8000_0000_0000_0000 <= y <= 0x7fff_ffff_ffff_ffff,
                forall|i: int, j: int|
                    self.inside(i, j) ==> #[trigger] self.at(i, j) == (if font::glyph_lights(
                        letter as int,
                        x as int,
                        y as int,
                        scale as int,
                        n as int,
                        i,
                        j,
                    ) {
                        c
                    } else {
                        a.at(i, j)
                    }),
            decreases 35 - n,
        {
            let ghost before = *self;
            let col: i64 = n / 7;
            let row: i64 = n % 7;
            let on: bool = font::is_lit(cols, letter, col, row);
            if on {
                proof {
                    assert(0 <= col * scale <= 4 * scale) by (nonlinear_arith)
                        requires
                            0 <= col <= 4,
                            0 <= scale,
                    ;
                    assert(0 <= row * scale <= 6 * scale) by (nonlinear_arith)
                        requires
                            0 <= row <= 6,
                            0 <= scale,
                    ;
                }
                let side: i128 = scale as i128;
                let left: i128 = x + col as i128 * side;
                let top: i128 = y + row as i128 * side;
                self.paint(left, top, left + side, top + side, c);
            }
            proof {
                let (l, xx, yy, s, m) = (letter as int, x as int, y as int, scale as int, n as int);
                assert forall|i: int, j: int| self.inside(i, j) implies #[trigger] self.at(i, j)
                    == (if font::glyph_lights(l, xx, yy, s, m + 1, i, j) {
                    c
                } else {
                    a.at(i, j)
                }) by {
                    assert(before.inside(i, j));
                    assert(before.at(i, j) == (if font::glyph_lights(l, xx, yy, s, m, i, j) {
                        c
                    } else {
                        a.at(i, j)
                    }));
                    assert(font::glyph_lights(l, xx, yy, s, m + 1, i, j) <==> font::glyph_lights(
                        l,
                        xx,
                        yy,
                        s,
                        m,
                        i,
                        j,
                    ) || font::cell_lights(l, xx, yy, s, m, i, j));
                }
            }
            n += 1;
        }
    }

    /// Draw a text in the built-in font, `px` pixels high, clipped to the frame.
    pub fn draw_text_builtin(&mut self, x: i64, y: i64, text: &str, px: i64, c: Color)
        requires
            old(self).wf(),
        ensures
            final(self).wf(),
            final(self).alike(*old(self)),
            forall|i: int, j: int|
                final(self).inside(i, j) ==> #[trigger] final(self).at(i, j) == lettered(
                    old(self).at(i, j),
                    text@,
                    x as int,
                    y as int,
                    px,
                    c,
                    i,
                    j,
                ),
    {
        let scale: i64 = scale_for(px);
        let t = chars_of(text);
        let step: i128 = font::ADVANCE as i128 * scale as i128;
        let ghost a = *self;
        let mut k: usize = 0;
        while k < t.len()
            invariant
                self.wf(),
                self.alike(a),
                a == *old(self),
                t@ == text@,
                k <= t@.len(),
                scale == size_of_text(px),
                1 <= scale <= 0x1249_2492_4924_9249,
                step == font::ADVANCE * scale,
                forall|i: int, j: int|
                    self.inside(i, j) ==> #[trigger] self.at(i, j) == (if font::text_lights(
                        text@,
                        x as int,
                        y as int,
                        scale as int,
                        k as int,
                        i,
                        j,
                    ) {
                        c
                    } else {
                        a.at(i, j)
                    }),
            decreases t@.len() - k,
        {
            let ghost before = *self;
            proof {
                assert(0 <= k * step <= 0xffff_ffff_ffff_ffff * 0x6DB6_DB6D_B6DB_6DB6)
                    by (nonlinear_arith)
                    requires
                        0 <= k <= 0xffff_ffff_ffff_ffff,
                        0 <= step <= 0x6DB6_DB6D_B6DB_6DB6,
                ;
            }
            let pen: i128 = x as i128 + k as i128 * step;
            self.draw_letter(font::drawn_as(t[k]), pen, y as i128, scale, c);
            proof {
                let (xx, yy, s, m) = (x as int, y as int, scale as int, k as int);
                assert forall|i: int, j: int| self.inside(i, j) implies #[trigger] self.at(i, j)
                    == (if font::text_lights(text@, xx, yy, s, m + 1, i, j) {
                    c
                } else {
                    a.at(i, j)
                }) by {
                    assert(before.inside(i, j));
                    assert(before.at(i, j) == (if font::text_lights(text@, xx, yy, s, m, i, j) {
                        c
                    } else {
                        a.at(i, j)
                    }));
                    assert(font::text_lights(text@, xx, yy, s, m + 1, i, j) <==> font::text_lights(
                        text@,
                        xx,
                        yy,
                        s,
                        m,
                        i,
                        j,
                    ) || font::char_lights(text@, xx, yy, s, m, i, j));
                }
            }
            k += 1;
        }
    }

    /// Draw a text `px` pixels high, at least one, in a packed colour. `loaded` is
    /// what the loaded font makes of it; without a font the built-in one is used,
    /// so that text is never silently missing.
    pub fn render_text(
        &mut self,
        x: i64,
        y: i64,
        text: &str,
        px: i64,
        packed_color: i64,
        loaded: Option<&Vec<Glyph>>,
    )
        requires
            old(self).wf(),
            loaded matches Some(g) ==> forall|k: int|
                0 <= k < g@.len() ==> (#[trigger] g@[k]).wf(),
        ensures
            final(self).wf(),
            final(self).alike(*old(self)),
            forall|i: int, j: int|
                final(self).inside(i, j) ==> #[trigger] final(self).at(i, j) == (match loaded {
                    Some(g) => written(
                        old(self).at(i, j),
                        g@,
                        x as int,
                        y + (if px < 1 {
                            1
                        } else {
                            px as int
                        }),
                        unpacked(packed_color),
                        i,
                        j,
                        g@.len() as int,
                    ),
                    None => lettered(
                        old(self).at(i, j),
                        text@,
                        x as int,
                        y as int,
                        px,
                        unpacked(packed_color),
                        i,
                        j,
                    ),
                }),
    {
        let c = unpack(packed_color);
        match loaded {
            Some(g) => {
                let high: i64 = if px < 1 {
                    1
                } else {
                    px
                };
                self.draw_glyphs(x, y, high, g, c);
            },
            None => {
                self.draw_text_builtin(x, y, text, px, c);
            },
        }
    }

    /// Draw rasterised characters one behind the other, the top of a line `px` high
    /// at `y`.
    pub fn draw_glyphs(&mut self, x: i64, y: i64, px: i64, glyphs: &Vec<Glyph>, c: Color)
        requires
            old(self).wf(),
            forall|k: int| 0 <= k < glyphs@.len() ==> (#[trigger] glyphs@[k]).wf(),
        ensures
            final(self).wf(),
            final(self).alike(*old(self)),
            forall|i: int, j: int|
                final(self).inside(i, j) ==> #[trigger] final(self).at(i, j) == written(
                    old(self).at(i, j),
                    glyphs@,
                    x as int,
                    y + px,
                    c,
                    i,
                    j,
                    glyphs@.len() as int,
                ),
    {
        let baseline: i128 = y as i128 + px as i128;
        let mut pen: i128 = x as i128;
        let all: usize = glyphs.len();
        let ghost a = *self;
        let mut k: usize = 0;
        while k < all
            invariant
                self.wf(),
                self.alike(a),
                a == *old(self),
                k <= glyphs@.len() == all,
                forall|m: int| 0 <= m < glyphs@.len() ==> (#[trigger] glyphs@[m]).wf(),
                baseline == y + px,
                pen == x + advanced(glyphs@, k as int),
                -0x8000_0000_0000_0000 * k <= advanced(glyphs@, k as int)
                    <= 0x7fff_ffff_ffff_ffff * k,
                forall|i: int, j: int|
                    self.inside(i, j) ==> #[trigger] self.at(i, j) == written(
                        a.at(i, j),
                        glyphs@,
                        x as int,
                        baseline as int,
                        c,
                        i,
                        j,
                        k as int,
                    ),
            decreases glyphs@.len() - k,
        {
            let g = &glyphs[k];
            assert(g.wf());
            let gx: i128 = pen + g.xmin as i128;
            let gy: i128 = baseline - g.height as i128 - g.ymin as i128;
            self.lay_glyph(g, gx, gy, c);
            pen = pen + g.advance as i128;
            k += 1;
        }
    }
}

/// How far the first `n` characters move the pen.
pub open spec fn advanced(g: Seq<Glyph>, n: int) -> int
    decreases n,
{
    if n <= 0 {
        0
    } else {
        advanced(g, n - 1) + g[n - 1].advance
    }
}

/// A pixel after the first `n` characters were laid over it.
pub open spec fn written(
    under: Color,
    g: Seq<Glyph>,
    x: int,
    baseline: int,
    c: Color,
    i: int,
    j: int,
    n: int,
) -> Color
    decreases n,
{
    if n <= 0 {
        under
    } else {
        laid(
            written(under, g, x, baseline, c, i, j, n - 1),
            c,
            g[n - 1].cover(
                i - (x + advanced(g, n - 1) + g[n - 1].xmin),
                j - (baseline - g[n - 1].height - g[n - 1].ymin),
            ),
        )
    }
}

/// How large the built-in font draws a text of a given height.
pub open spec fn size_of_text(px: i64) -> int {
    if px < 14 {
        1
    } else {
        px as int / 7
    }
}

/// A pixel after a text was drawn in the built-in font.
pub open spec fn lettered(
    under: Color,
    text: Seq<char>,
    x: int,
    y: int,
    px: i64,
    c: Color,
    i: int,
    j: int,
) -> Color {
    if font::text_lights(text, x, y, size_of_text(px), text.len() as int, i, j) {
        c
    } else {
        under
    }
}

/// The width of rasterised characters: how far they move the pen.
pub fn glyphs_width(glyphs: &Vec<Glyph>) -> (r: i64)
    requires
        i64::MIN <= advanced(glyphs@, glyphs@.len() as int) <= i64::MAX,
    ensures
        r == advanced(glyphs@, glyphs@.len() as int),
{
    let mut r: i128 = 0;
    let all: usize = glyphs.len();
    let mut k: usize = 0;
    while k < all
        invariant
            k <= glyphs@.len() == all,
            r == advanced(glyphs@, k as int),
            -0x8000_0000_0000_0000 * k <= r <= 0x7fff_ffff_ffff_ffff * k,
        decreases all - k,
    {
        r = r + glyphs[k].advance as i128;
        k += 1;
    }
    r as i64
}

/// The colour a number packs, opaque. Higher bits do not count.
pub fn unpack(n: i64) -> (c: Color)
    ensures
        c == unpacked(n),
{
    let m: i64 = n & 0xFF_FFFF;
    proof {
        assert(0 <= m <= 0xFF_FFFF && (n - m) % 0x100_0000 == 0) by (bit_vector)
            requires
                m == n & 0xFF_FFFF,
        ;
        let k = (n - m) / 0x100_0000;
        assert(n == m + 0x100_0000 * k);
        assert(n as int / 0x1_0000 == m as int / 0x1_0000 + 0x100 * k);
        assert(n as int / 0x100 == m as int / 0x100 + 0x1_0000 * k);
    }
    Color {
        r: (m / 0x1_0000 % 0x100) as u8,
        g: (m / 0x100 % 0x100) as u8,
        b: (m % 0x100) as u8,
        a: 255,
    }
}

/// The width of a text `px` pixels high. `loaded` is what the loaded font makes of
/// it; without a font the built-in one is measured.
pub fn text_width(text: &str, px: i64, loaded: Option<&Vec<Glyph>>) -> (r: i64)
    requires
        match loaded {
            Some(g) => i64::MIN <= advanced(g@, g@.len() as int) <= i64::MAX,
            None => font::wide(text@.len() as int, size_of_text(px)) <= i64::MAX,
        },
    ensures
        r == (match loaded {
            Some(g) => advanced(g@, g@.len() as int),
            None => font::wide(text@.len() as int, size_of_text(px)),
        }),
{
    match loaded {
        Some(g) => glyphs_width(g),
        None => {
            proof {
                let n = text@.len() as int;
                let m = n * font::ADVANCE - 1;
                if n > 0 {
                    assert(0 <= m * size_of_text(px)) by (nonlinear_arith)
                        requires
                            0 <= m,
                            0 <= size_of_text(px),
                    ;
                }
            }
            width(text, scale_for(px))
        },
    }
}

/// A packed colour unpacks to its channels.
pub proof fn law_colours_round_trip(c: Color)
    ensures
        unpacked(packed(c) as i64) == (Color { a: 255, ..c }),
{
    let n = packed(c);
    assert(n % 0x100 == c.b);
    assert(n / 0x100 == c.r * 0x100 + c.g);
    assert(n / 0x1_0000 == c.r);
}

/// Full coverage shows the colour that is laid over, whatever lies under it.
pub proof fn law_full_coverage_covers(under: Color, over: Color)
    ensures
        laid(under, over, 255) == (Color { a: 255, ..over }),
{
}

/// A character changes a pixel only inside its box, which begins `xmin` right of the pen
/// and whose bottom edge lies `ymin` above the baseline: in the columns from the pen plus
/// `xmin` on, and in the rows from the baseline less `ymin` less its height up to but not
/// including the baseline less `ymin`. There the pixel is covered by the matching column
/// and row of the character. The pen stands where the characters before have moved it.
pub proof fn law_characters_stand_on_the_baseline(
    under: Color,
    g: Seq<Glyph>,
    k: int,
    x: int,
    baseline: int,
    c: Color,
    i: int,
    j: int,
)
    requires
        0 <= k < g.len(),
    ensures
        ({
            let before = written(under, g, x, baseline, c, i, j, k);
            let after = written(under, g, x, baseline, c, i, j, k + 1);
            let pen = x + advanced(g, k);
            let (left, bottom) = (pen + g[k].xmin, baseline - g[k].ymin);
            let top = bottom - g[k].height;
            if left <= i < left + g[k].width && top <= j < bottom {
                after == laid(before, c, g[k].coverage@[(j - top) * g[k].width + (i - left)])
            } else {
                after == before
            }
        }),
{
}

/// Of two characters with boxes of the same size and contents, the one whose `ymin` is
/// smaller is drawn lower, by the difference, and the one whose `xmin` is smaller further
/// to the left.
pub proof fn law_smaller_ymin_is_lower(
    under: Color,
    a: Glyph,
    b: Glyph,
    x: int,
    baseline: int,
    c: Color,
    i: int,
    j: int,
)
    requires
        a.width == b.width,
        a.height == b.height,
        a.coverage@ == b.coverage@,
    ensures
        written(under, seq![a], x, baseline, c, i, j, 1) == written(
            under,
            seq![b],
            x,
            baseline,
            c,
            i + (b.xmin - a.xmin),
            j - (b.ymin - a.ymin),
            1,
        ),
{
    reveal_with_fuel(written, 2);
    reveal_with_fuel(advanced, 1);
    assert(seq![a][0] == a && seq![b][0] == b);
    assert(a.cover(i - (x + a.xmin), j - (baseline - a.height - a.ymin)) == b.cover(
        i + (b.xmin - a.xmin) - (x + b.xmin),
        j - (b.ymin - a.ymin) - (baseline - b.height - b.ymin),
    ));
}

/// A text moved by some way shows what it showed, moved by that way.
pub proof fn law_text_moves_as_a_whole(
    under: Color,
    g: Seq<Glyph>,
    x: int,
    baseline: int,
    c: Color,
    i: int,
    j: int,
    n: int,
    right: int,
    down: int,
)
    requires
        0 <= n <= g.len(),
    ensures
        written(under, g, x + right, baseline + down, c, i + right, j + down, n) == written(
            under,
            g,
            x,
            baseline,
            c,
            i,
            j,
            n,
        ),
    decreases n,
{
    if n > 0 {
        law_text_moves_as_a_whole(under, g, x, baseline, c, i, j, n - 1, right, down);
        let d = g[n - 1];
        let pen = x + advanced(g, n - 1) + d.xmin;
        let top = baseline - d.height - d.ymin;
        assert(d.cover(i + right - (pen + right), j + down - (top + down)) == d.cover(
            i - pen,
            j - top,
        ));
    }
}

/// The pen moves by the advance of every character: what follows the first characters
/// of a text is drawn as a text of its own that begins where they have moved the pen,
/// over what they have drawn.
pub proof fn law_text_continues_at_the_pen(
    under: Color,
    a: Seq<Glyph>,
    b: Seq<Glyph>,
    x: int,
    baseline: int,
    c: Color,
    i: int,
    j: int,
    n: int,
)
    requires
        0 <= n <= b.len(),
    ensures
        advanced(a + b, a.len() + n) == advanced(a, a.len() as int) + advanced(b, n),
        written(under, a + b, x, baseline, c, i, j, a.len() + n) == written(
            written(under, a, x, baseline, c, i, j, a.len() as int),
            b,
            x + advanced(a, a.len() as int),
            baseline,
            c,
            i,
            j,
            n,
        ),
        n > 0 ==> advanced(b, n) == advanced(b, n - 1) + b[n - 1].advance,
        advanced(b, 0) == 0,
    decreases n,
{
    if n > 0 {
        law_text_continues_at_the_pen(under, a, b, x, baseline, c, i, j, n - 1);
        assert((a + b)[a.len() + n - 1] == b[n - 1]);
    } else {
        lemma_first_characters(under, a, b, x, baseline, c, i, j, a.len() as int);
    }
}

proof fn lemma_first_characters(
    under: Color,
    a: Seq<Glyph>,
    b: Seq<Glyph>,
    x: int,
    baseline: int,
    c: Color,
    i: int,
    j: int,
    n: int,
)
    requires
        0 <= n <= a.len(),
    ensures
        advanced(a + b, n) == advanced(a, n),
        written(under, a + b, x, baseline, c, i, j, n) == written(
            under,
            a,
            x,
            baseline,
            c,
            i,
            j,
            n,
        ),
    decreases n,
{
    if n > 0 {
        lemma_first_characters(under, a, b, x, baseline, c, i, j, n - 1);
        assert((a + b)[n - 1] == a[n - 1]);
    }
}

/// What is laid over a pixel moves every channel towards its own colour by the share
/// that is covered, rounded down, and makes the pixel opaque. Without coverage the pixel
/// stays; a channel laid over itself stays.
pub proof fn law_coverage_mixes_every_channel(under: Color, over: Color, cov: u8)
    ensures
        ({
            let r = laid(under, over, cov);
            let (u, o) = (255 - cov, cov as int);
            &&& cov == 0 ==> r == under
            &&& cov > 0 ==> {
                &&& 255 * r.r <= under.r * u + over.r * o < 255 * (r.r + 1)
                &&& 255 * r.g <= under.g * u + over.g * o < 255 * (r.g + 1)
                &&& 255 * r.b <= under.b * u + over.b * o < 255 * (r.b + 1)
                &&& r.a == 255
            }
            &&& under.r == over.r ==> r.r == over.r
            &&& under.g == over.g ==> r.g == over.g
            &&& under.b == over.b ==> r.b == over.b
        }),
{
    lemma_blend(under.r, over.r, cov);
    lemma_blend(under.g, over.g, cov);
    lemma_blend(under.b, over.b, cov);
}

proof fn lemma_blend(under: u8, over: u8, cov: u8)
    ensures
        255 * blend(under, over, cov) <= under * (255 - cov) + over * (cov as int) < 255 * (blend(
            under,
            over,
            cov,
        ) + 1),
        blend(under, under, cov) == under,
{
    let (a, b) = (under * (255 - cov), over * cov);
    assert(0 <= a <= 255 * (255 - cov)) by (nonlinear_arith)
        requires
            a == under * (255 - cov),
            0 <= under <= 255,
            0 <= cov <= 255,
    ;
    assert(0 <= b <= 255 * cov) by (nonlinear_arith)
        requires
            b == over * cov,
            0 <= over <= 255,
            0 <= cov <= 255,
    ;
    assert(0 <= (a + b) / 255 <= 255);
    assert(under * (255 - cov) + under * cov == 255 * under) by (nonlinear_arith);
}

/// Every channel of a colour is the number given for it, held to a byte.
pub proof fn law_channels_are_held_to_bytes(r: int, g: int, b: int, a: int)
    ensures
        ({
            let c = rgba(r, g, b, a);
            &&& (0 <= r <= 255 ==> c.r == r) && (r < 0 ==> c.r == 0) && (r > 255 ==> c.r == 255)
            &&& (0 <= g <= 255 ==> c.g == g) && (g < 0 ==> c.g == 0) && (g > 255 ==> c.g == 255)
            &&& (0 <= b <= 255 ==> c.b == b) && (b < 0 ==> c.b == 0) && (b > 255 ==> c.b == 255)
            &&& (0 <= a <= 255 ==> c.a == a) && (a < 0 ==> c.a == 0) && (a > 255 ==> c.a == 255)
        }),
{
}

/// In a packed colour a step of blue is one, of green 256 and of red 65536; the alpha is
/// not packed. Unpacking repeats every 2 to the 24, so that higher bits do not count.
pub proof fn law_red_is_packed_first(c: Color, d: Color, n: i64)
    ensures
        packed(d) - packed(c) == 65536 * (d.r - c.r) + 256 * (d.g - c.g) + (d.b - c.b),
        0 <= packed(c) < 0x100_0000,
        unpacked(n).a == 255,
        (n - packed(unpacked(n))) % 0x100_0000 == 0,
{
    let m = n as int;
    let (r, g, b) = (m / 0x1_0000 % 0x100, m / 0x100 % 0x100, m % 0x100);
    assert(m == 0x100_0000 * (m / 0x100_0000) + 0x1_0000 * r + 0x100 * g + b);
}

/// A side is the number given where it is positive and fits, and nothing where it is
/// negative.
pub proof fn law_frame_sides_are_not_negative(n: i64)
    ensures
        n <= 0 ==> side(n) == 0,
        0 <= n <= u32::MAX ==> side(n) == n,
{
}

/// The built-in font is drawn as large as fits the height in whole pixels, and never
/// smaller than its own size.
pub proof fn law_text_is_as_large_as_fits(px: i64)
    ensures
        size_of_text(px) >= 1,
        px >= font::GLYPH_H ==> font::GLYPH_H * size_of_text(px) <= px < font::GLYPH_H * (
        size_of_text(px) + 1),
        px < font::GLYPH_H ==> size_of_text(px) == 1,
{
}

/// Pixels are held row by row from the top left: the one after a pixel is its neighbour to
/// the right, and after the last of a row comes the first of the next.
pub proof fn law_pixels_stand_row_by_row(c: Canvas, i: int)
    requires
        c.wf(),
        0 <= i < c.px@.len(),
    ensures
        c.inside(i % c.w as int, i / c.w as int),
        c.at(i % c.w as int, i / c.w as int) == c.px@[i],
{
    let (w, h) = (c.w as int, c.h as int);
    assert(w > 0) by (nonlinear_arith)
        requires
            0 <= i < w * h,
            0 <= w,
            0 <= h,
    ;
    let (x, y) = (i % w, i / w);
    assert(0 <= x < w && 0 <= y < h && y * w + x == i) by (nonlinear_arith)
        requires
            x == i % w,
            y == i / w,
            0 <= i < w * h,
            w > 0,
    ;
}

/// Frames of the same size have the same pixels.
pub proof fn law_alike_frames_have_the_same_pixels(a: Canvas, b: Canvas, x: int, y: int)
    requires
        a.alike(b),
    ensures
        a.inside(x, y) <==> b.inside(x, y),
        a.wf() && b.wf() ==> a.px@.len() == b.px@.len(),
        b.alike(a),
        a.inside(x, y) ==> 0 <= x < b.w && 0 <= y < b.h,
{
}

/// A text in the built-in font is drawn from its corner to the right and down, as large as
/// fits: the pixel some way right of and below the corner shows the colour where the
/// picture of the text, every cell one pixel, is lit that way divided by the size.
pub proof fn law_letters_hang_from_their_corner(
    under: Color,
    text: Seq<char>,
    x: int,
    y: int,
    px: i64,
    c: Color,
    i: int,
    j: int,
)
    ensures
        lettered(under, text, x, y, px, c, x + i, y + j) == (if font::text_lights(
            text,
            0,
            0,
            1,
            text.len() as int,
            i / size_of_text(px),
            j / size_of_text(px),
        ) {
            c
        } else {
            under
        }),
{
    font::law_scaling_keeps_the_picture(text, x, y, size_of_text(px), text.len() as int, i, j);
}

} // verus!
