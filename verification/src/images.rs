//! Pictures held to be measured, apart from anything that is drawn. A handle names
//! the same picture until it is released, and nothing after that.
use crate::canvas;
use crate::canvas::{Canvas, Color};
use vstd::prelude::*;

verus! {

pub struct Images {
    pub list: Vec<Option<Canvas>>,
}

/// A rectangle inside a picture.
#[derive(Clone, Copy, PartialEq, Eq, Structural, Debug)]
pub struct Region {
    pub x: u32,
    pub y: u32,
    pub w: u32,
    pub h: u32,
}

/// Whether a rectangle is not empty and lies wholly inside a picture.
pub open spec fn fits(c: Canvas, x: int, y: int, w: int, h: int) -> bool {
    w > 0 && h > 0 && x >= 0 && y >= 0 && x + w <= c.w && y + h <= c.h
}

/// The rectangle, where it lies wholly inside the picture. It is refused rather than
/// cut to size.
pub fn image_region(c: &Canvas, x: i64, y: i64, w: i64, h: i64) -> (r: Option<Region>)
    ensures
        r == (if fits(*c, x as int, y as int, w as int, h as int) {
            Some(Region { x: x as u32, y: y as u32, w: w as u32, h: h as u32 })
        } else {
            None
        }),
{
    if w <= 0 || h <= 0 || x < 0 || y < 0 {
        return None;
    }
    if x > c.w as i64 || y > c.h as i64 || w > c.w as i64 - x || h > c.h as i64 - y {
        return None;
    }
    Some(Region { x: x as u32, y: y as u32, w: w as u32, h: h as u32 })
}

/// How far apart two bytes are.
pub open spec fn gap(a: u8, b: u8) -> int {
    if a > b {
        a - b
    } else {
        b - a
    }
}

/// How far apart two pixels are, over red, green and blue.
pub open spec fn pixel_gap(a: Color, b: Color) -> int {
    gap(a.r, b.r) + gap(a.g, b.g) + gap(a.b, b.b)
}

/// How far apart the first `n` pixels of a rectangle are in two pictures, row by
/// row.
pub open spec fn region_gap(a: Canvas, b: Canvas, r: Region, n: int) -> int
    decreases n,
{
    if n <= 0 {
        0
    } else {
        let x = r.x + (n - 1) % r.w as int;
        let y = r.y + (n - 1) / r.w as int;
        region_gap(a, b, r, n - 1) + pixel_gap(a.at(x, y), b.at(x, y))
    }
}

/// How bright a pixel is, in ten thousandths: the weights of human sight.
pub open spec fn luma(c: Color) -> int {
    2126 * c.r + 7152 * c.g + 722 * c.b
}

/// How bright the first `n` pixels of a rectangle are together, row by row.
pub open spec fn region_luma(c: Canvas, r: Region, n: int) -> int
    decreases n,
{
    if n <= 0 {
        0
    } else {
        let x = r.x + (n - 1) % r.w as int;
        let y = r.y + (n - 1) / r.w as int;
        region_luma(c, r, n - 1) + luma(c.at(x, y))
    }
}

/// Pixel `i` of a rectangle that fits a picture is a pixel of the picture.
proof fn lemma_in_region(c: Canvas, r: Region, i: int)
    requires
        c.wf(),
        fits(c, r.x as int, r.y as int, r.w as int, r.h as int),
        0 <= i < r.w * r.h,
    ensures
        0 <= i % r.w as int,
        i % (r.w as int) < r.w,
        0 <= i / r.w as int,
        i / (r.w as int) < r.h,
        (r.y + i / r.w as int) * c.w + r.x + i % r.w as int >= 0,
        (r.y + i / r.w as int) * c.w + r.x + i % (r.w as int) < c.px@.len(),
{
    let w = r.w as int;
    let h = r.h as int;
    vstd::arithmetic::div_mod::lemma_fundamental_div_mod(i, w);
    vstd::arithmetic::div_mod::lemma_mod_bound(i, w);
    vstd::arithmetic::div_mod::lemma_div_pos_is_pos(i, w);
    let row = i / w;
    let rest = i % w;
    assert(row < h) by (nonlinear_arith)
        requires
            i == w * row + rest,
            0 <= rest,
            i < w * h,
            w > 0,
    ;
    canvas::lemma_inside(c, r.x + rest, r.y + row);
}

fn byte_gap(a: u8, b: u8) -> (r: u64)
    ensures
        r == gap(a, b),
{
    if a > b {
        (a - b) as u64
    } else {
        (b - a) as u64
    }
}

impl Images {
    pub open spec fn wf(self) -> bool {
        forall|i: int|
            0 <= i < self.list@.len() ==> ((#[trigger] self.list@[i]) matches Some(c) ==> c.wf()
                && c.w > 0)
    }

    /// The picture behind a handle.
    pub open spec fn behind(self, img: i64) -> Option<Canvas> {
        if 0 <= img < self.list@.len() {
            self.list@[img as int]
        } else {
            None
        }
    }

    /// `self` came from `before` by opening and releasing: no handle is forgotten, and
    /// one that named nothing names nothing.
    pub open spec fn comes_from(self, before: Images) -> bool {
        &&& before.list@.len() <= self.list@.len()
        &&& forall|i: int|
            0 <= i < before.list@.len() && before.list@[i] is None
                ==> (#[trigger] self.list@[i]) is None
    }

    pub fn new() -> (s: Images)
        ensures
            s.wf(),
            s.list@.len() == 0,
    {
        Images { list: Vec::new() }
    }

    /// Take a picture and name it. One without a column is taken and is not live.
    pub fn image_open(&mut self, c: Canvas) -> (r: i64)
        requires
            old(self).wf(),
            c.wf(),
            old(self).list@.len() < i64::MAX,
        ensures
            final(self).wf(),
            r == old(self).list@.len(),
            final(self).list@ == old(self).list@.push(
                if c.w > 0 {
                    Some(c)
                } else {
                    None
                },
            ),
            final(self).comes_from(*old(self)),
    {
        let r: i64 = self.list.len() as i64;
        if c.w > 0 {
            self.list.push(Some(c));
        } else {
            self.list.push(None);
        }
        r
    }

    fn find(&self, img: i64) -> (r: Option<&Canvas>)
        ensures
            match r {
                Some(c) => self.behind(img) == Some(*c),
                None => self.behind(img) is None,
            },
    {
        if img < 0 || img as u64 >= self.list.len() as u64 {
            return None;
        }
        self.list[img as usize].as_ref()
    }

    /// A picture's width, or -1.
    pub fn image_width(&self, img: i64) -> (r: i64)
        ensures
            r == (match self.behind(img) {
                Some(c) => c.w as int,
                None => -1,
            }),
    {
        match self.find(img) {
            Some(c) => c.w as i64,
            None => -1,
        }
    }

    /// A picture's height, or -1.
    pub fn image_height(&self, img: i64) -> (r: i64)
        ensures
            r == (match self.behind(img) {
                Some(c) => c.h as int,
                None => -1,
            }),
    {
        match self.find(img) {
            Some(c) => c.h as i64,
            None => -1,
        }
    }

    /// The packed colour of a pixel, or -1 where there is none.
    pub fn image_pixel(&self, img: i64, x: i64, y: i64) -> (r: i64)
        requires
            self.wf(),
        ensures
            r == (match self.behind(img) {
                Some(c) => if c.inside(x as int, y as int) {
                    canvas::packed(c.at(x as int, y as int))
                } else {
                    -1
                },
                None => -1,
            }),
    {
        match self.find(img) {
            Some(c) => {
                if x < 0 || y < 0 || x >= c.w as i64 || y >= c.h as i64 {
                    return -1;
                }
                c.fb_get(x as u32, y as u32)
            },
            None => -1,
        }
    }

    /// How bright a rectangle of a picture is, all pixels together and in ten
    /// thousandths, with the rectangle. Nothing where the handle is not live or the
    /// rectangle does not fit.
    pub fn image_mean_luma(&self, img: i64, x: i64, y: i64, w: i64, h: i64) -> (r: Option<
        (u128, Region),
    >)
        requires
            self.wf(),
        ensures
            match self.behind(img) {
                Some(c) => if fits(c, x as int, y as int, w as int, h as int) {
                    let area = Region { x: x as u32, y: y as u32, w: w as u32, h: h as u32 };
                    r == Some((region_luma(c, area, w * h) as u128, area))
                } else {
                    r is None
                },
                None => r is None,
            },
    {
        let c = match self.find(img) {
            Some(c) => c,
            None => {
                return None;
            },
        };
        let area = match image_region(c, x, y, w, h) {
            Some(r) => r,
            None => {
                return None;
            },
        };
        let all: usize = c.px.len();
        proof {
            assert(0 <= w * h <= 0xffff_ffff * 0xffff_ffff) by (nonlinear_arith)
                requires
                    0 <= w <= 0xffff_ffff,
                    0 <= h <= 0xffff_ffff,
            ;
        }
        let n: u64 = w as u64 * h as u64;
        let mut total: u128 = 0;
        let mut i: u64 = 0;
        while i < n
            invariant
                i <= n,
                n == w * h,
                n <= 0xffff_fffe_0000_0001,
                c.wf(),
                all == c.px@.len(),
                fits(*c, x as int, y as int, w as int, h as int),
                area == (Region { x: x as u32, y: y as u32, w: w as u32, h: h as u32 }),
                total == region_luma(*c, area, i as int),
                total <= 2_550_000 * i,
            decreases n - i,
        {
            proof {
                lemma_in_region(*c, area, i as int);
            }
            let px: u64 = x as u64 + i % w as u64;
            let py: u64 = y as u64 + i / w as u64;
            let p = c.px[py as usize * c.w as usize + px as usize];
            total = total + 2126 * p.r as u128 + 7152 * p.g as u128 + 722 * p.b as u128;
            i += 1;
        }
        Some((total, area))
    }

    /// How far apart the same rectangle is in two pictures, all pixels and channels
    /// together, with the rectangle. Nothing where a handle is not live or the
    /// rectangle does not fit both.
    pub fn image_diff(&self, a: i64, b: i64, x: i64, y: i64, w: i64, h: i64) -> (r: Option<
        (u128, Region),
    >)
        requires
            self.wf(),
        ensures
            match (self.behind(a), self.behind(b)) {
                (Some(p), Some(q)) => if fits(p, x as int, y as int, w as int, h as int) && fits(
                    q,
                    x as int,
                    y as int,
                    w as int,
                    h as int,
                ) {
                    let area = Region { x: x as u32, y: y as u32, w: w as u32, h: h as u32 };
                    r == Some((region_gap(p, q, area, w * h) as u128, area))
                } else {
                    r is None
                },
                _ => r is None,
            },
    {
        let p = match self.find(a) {
            Some(p) => p,
            None => {
                return None;
            },
        };
        let q = match self.find(b) {
            Some(q) => q,
            None => {
                return None;
            },
        };
        let area = match image_region(p, x, y, w, h) {
            Some(r) => r,
            None => {
                return None;
            },
        };
        if image_region(q, x, y, w, h).is_none() {
            return None;
        }
        let all: usize = p.px.len();
        let more: usize = q.px.len();
        proof {
            assert(0 <= w * h <= 0xffff_ffff * 0xffff_ffff) by (nonlinear_arith)
                requires
                    0 <= w <= 0xffff_ffff,
                    0 <= h <= 0xffff_ffff,
            ;
        }
        let n: u64 = w as u64 * h as u64;
        let mut total: u128 = 0;
        let mut i: u64 = 0;
        while i < n
            invariant
                i <= n,
                n == w * h,
                n <= 0xffff_fffe_0000_0001,
                p.wf(),
                q.wf(),
                all == p.px@.len(),
                more == q.px@.len(),
                fits(*p, x as int, y as int, w as int, h as int),
                fits(*q, x as int, y as int, w as int, h as int),
                area == (Region { x: x as u32, y: y as u32, w: w as u32, h: h as u32 }),
                total == region_gap(*p, *q, area, i as int),
                total <= 765 * i,
            decreases n - i,
        {
            proof {
                lemma_in_region(*p, area, i as int);
                lemma_in_region(*q, area, i as int);
            }
            let px: u64 = x as u64 + i % w as u64;
            let py: u64 = y as u64 + i / w as u64;
            let ca = p.px[py as usize * p.w as usize + px as usize];
            let cb = q.px[py as usize * q.w as usize + px as usize];
            total = total + byte_gap(ca.r, cb.r) as u128 + byte_gap(ca.g, cb.g) as u128 + byte_gap(
                ca.b,
                cb.b,
            ) as u128;
            i += 1;
        }
        Some((total, area))
    }

    /// Release a picture. Returns 1 where it was live, else 0. The handle is never
    /// given out again.
    pub fn image_free(&mut self, img: i64) -> (r: i64)
        requires
            old(self).wf(),
        ensures
            final(self).wf(),
            r == (if old(self).behind(img) is Some {
                1int
            } else {
                0
            }),
            final(self).list@ == (if old(self).behind(img) is Some {
                old(self).list@.update(img as int, None)
            } else {
                old(self).list@
            }),
            final(self).comes_from(*old(self)),
    {
        let live: bool = self.find(img).is_some();
        if !live {
            return 0;
        }
        self.list.set(img as usize, None);
        1
    }
}

/// A released handle stays dead: whatever is opened and released afterwards, no later
/// picture is found behind it.
pub proof fn law_released_handles_stay_dead(run: Seq<Images>, img: i64, i: int, n: int)
    requires
        forall|m: int| 0 <= m < run.len() - 1 ==> run[m + 1].comes_from(#[trigger] run[m]),
        0 <= i <= n < run.len(),
        0 <= img < run[i].list@.len(),
        run[i].behind(img) is None,
    ensures
        img < run[n].list@.len(),
        run[n].behind(img) is None,
    decreases n,
{
    if i < n {
        law_released_handles_stay_dead(run, img, i, n - 1);
        assert(run[n - 1 + 1].comes_from(run[n - 1]));
    }
}

/// The mean brightness of a rectangle lies between black and white.
pub proof fn law_brightness_has_its_range(c: Canvas, r: Region, n: int)
    requires
        0 <= n,
    ensures
        0 <= region_luma(c, r, n) <= 2_550_000 * n,
    decreases n,
{
    if n > 0 {
        law_brightness_has_its_range(c, r, n - 1);
    }
}

/// A picture does not differ from itself.
pub proof fn law_no_difference_from_itself(c: Canvas, r: Region, n: int)
    ensures
        region_gap(c, c, r, n) == 0,
    decreases n,
{
    if n > 0 {
        law_no_difference_from_itself(c, r, n - 1);
    }
}

/// The difference of two pictures is the same either way round.
pub proof fn law_difference_is_mutual(a: Canvas, b: Canvas, r: Region, n: int)
    ensures
        region_gap(a, b, r, n) == region_gap(b, a, r, n),
    decreases n,
{
    if n > 0 {
        law_difference_is_mutual(a, b, r, n - 1);
    }
}

/// Whether two pixels show the same colour, however opaque.
pub open spec fn alike(a: Color, b: Color) -> bool {
    a.r == b.r && a.g == b.g && a.b == b.b
}

/// The difference of two pictures is at most 255 for each channel of each pixel, and
/// it is nothing exactly where every pixel shows the same colour in both.
pub proof fn law_difference_has_its_range(a: Canvas, b: Canvas, r: Region, n: int)
    requires
        0 <= n,
    ensures
        0 <= region_gap(a, b, r, n) <= 765 * n,
        region_gap(a, b, r, n) == 0 <==> forall|i: int|
            0 <= i < n ==> #[trigger] same_at(a, b, r, i),
    decreases n,
{
    if n > 0 {
        law_difference_has_its_range(a, b, r, n - 1);
        assert(same_at(a, b, r, n - 1) <==> region_gap(a, b, r, n) == region_gap(a, b, r, n - 1));
        if region_gap(a, b, r, n) == 0 {
            assert forall|i: int| 0 <= i < n implies #[trigger] same_at(a, b, r, i) by {
                if i < n - 1 {
                    assert(region_gap(a, b, r, n - 1) == 0);
                }
            }
        }
    }
}

/// Whether pixel `i` of a rectangle, counted row by row, shows the same colour in two
/// pictures.
pub open spec fn same_at(a: Canvas, b: Canvas, r: Region, i: int) -> bool {
    let x = r.x + i % r.w as int;
    let y = r.y + i / r.w as int;
    alike(a.at(x, y), b.at(x, y))
}

/// A rectangle fits exactly where it holds a pixel and every pixel it holds is one of the
/// picture's.
pub proof fn law_what_fits_lies_inside(c: Canvas, x: int, y: int, w: int, h: int)
    ensures
        fits(c, x, y, w, h) <==> w > 0 && h > 0 && c.inside(x, y) && c.inside(x + w - 1, y + h - 1),
        fits(c, x, y, w, h) ==> forall|i: int, j: int|
            x <= i < x + w && y <= j < y + h ==> #[trigger] c.inside(i, j),
{
}

/// Bytes lie as far apart as the larger exceeds the smaller, and pixels as far as their
/// three channels together; how opaque they are does not count.
pub proof fn law_gaps_add_up(a: u8, b: u8, p: Color, q: Color)
    ensures
        a <= b ==> a + gap(a, b) == b,
        b <= a ==> b + gap(a, b) == a,
        pixel_gap(p, q) == gap(p.r, q.r) + gap(p.g, q.g) + gap(p.b, q.b),
        pixel_gap(p, Color { a, ..q }) == pixel_gap(p, q),
{
}

/// A grey is as bright as its channels; of the channels green counts for more than red and
/// blue together, and blue for least. Red makes up 0.2126 of a grey and green 0.7152.
pub proof fn law_green_is_brightest(v: u8, x: u8)
    requires
        x > 0,
    ensures
        luma(Color { r: v, g: v, b: v, a: 0 }) == 10000 * v,
        10000 * luma(Color { r: v, g: 0, b: 0, a: 0 }) == 2126 * luma(
            Color { r: v, g: v, b: v, a: 0 },
        ),
        10000 * luma(Color { r: 0, g: v, b: 0, a: 0 }) == 7152 * luma(
            Color { r: v, g: v, b: v, a: 0 },
        ),
        luma(Color { r: 0, g: x, b: 0, a: 0 }) > luma(Color { r: x, g: 0, b: x, a: 0 }),
        luma(Color { r: x, g: 0, b: 0, a: 0 }) > 2 * luma(Color { r: 0, g: 0, b: x, a: 0 }) > 0,
        luma(Color { r: v, g: 0, b: 0, a: 0 }) + luma(Color { r: 0, g: x, b: 0, a: 0 }) == luma(
            Color { r: v, g: x, b: 0, a: 255 },
        ),
{
}

/// Every pixel of a rectangle counts: the pixel in some column and row of it is the one
/// with the number of its row times the width and its column.
pub proof fn law_every_pixel_of_a_rectangle_counts(
    a: Canvas,
    b: Canvas,
    r: Region,
    n: int,
    col: int,
    row: int,
)
    requires
        0 <= col < r.w,
        0 <= row,
        row * r.w + col < n,
    ensures
        region_gap(a, b, r, n) >= pixel_gap(
            a.at(r.x + col, r.y + row),
            b.at(r.x + col, r.y + row),
        ),
        region_luma(a, r, n) >= luma(a.at(r.x + col, r.y + row)),
    decreases n,
{
    let w = r.w as int;
    let k = row * w + col;
    assert(0 <= k && k / w == row && k % w == col) by (nonlinear_arith)
        requires
            k == row * w + col,
            0 <= col < w,
            0 <= row,
    ;
    law_brightness_has_its_range(a, r, n - 1);
    law_difference_has_its_range(a, b, r, n - 1);
    if k < n - 1 {
        law_every_pixel_of_a_rectangle_counts(a, b, r, n - 1, col, row);
    }
}

/// Pixels that are not in the rectangle do not count: two pictures that are alike in it
/// are equally bright in it and as far from any third.
pub proof fn law_only_pixels_of_the_rectangle_count(
    a: Canvas,
    b: Canvas,
    c: Canvas,
    r: Region,
    n: int,
)
    requires
        0 <= n,
        r.w > 0,
        forall|col: int, row: int|
            0 <= col < r.w && 0 <= row && row * r.w <= n ==> #[trigger] a.at(r.x + col, r.y + row)
                == b.at(r.x + col, r.y + row),
    ensures
        region_luma(a, r, n) == region_luma(b, r, n),
        region_gap(a, c, r, n) == region_gap(b, c, r, n),
    decreases n,
{
    if n > 0 {
        let w = r.w as int;
        let (col, row) = ((n - 1) % w, (n - 1) / w);
        assert(0 <= col < w && 0 <= row && row * w <= n) by (nonlinear_arith)
            requires
                col == (n - 1) % w,
                row == (n - 1) / w,
                n > 0,
                w > 0,
        ;
        assert(a.at(r.x + col, r.y + row) == b.at(r.x + col, r.y + row));
        law_only_pixels_of_the_rectangle_count(a, b, c, r, n - 1);
    }
}

/// A picture is found behind the number of its place, from the first on; behind any other
/// number there is none.
pub proof fn law_pictures_are_found_by_their_place(s: Images, img: i64)
    ensures
        0 <= img < s.list@.len() ==> s.behind(img) == s.list@[img as int],
        img < 0 || img >= s.list@.len() ==> s.behind(img) is None,
{
}

} // verus!
