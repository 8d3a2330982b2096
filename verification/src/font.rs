//! The built-in font: five columns of seven rows for every printable ASCII
//! character, drawn in whole pixels.
use crate::text::chars_of;
use vstd::prelude::*;

verus! {

/// The first character with a glyph.
pub const FIRST: u8 = 32;

/// How many glyphs there are.
pub const GLYPHS: usize = 95;

/// Columns of a glyph.
pub const GLYPH_W: i64 = 5;

/// Rows of a glyph.
pub const GLYPH_H: i64 = 7;

/// From one glyph's first column to the next one's.
pub const ADVANCE: i64 = 6;

/// A glyph's columns, one byte each from the left, a row per bit from the top.
pub open spec fn columns(c: int) -> u64 {
    if c == 32 {
        0x0
    } else if c == 33 {
        0x5f0000
    } else if c == 34 {
        0x7000700
    } else if c == 35 {
        0x147f147f14
    } else if c == 36 {
        0x122a7f2a24
    } else if c == 37 {
        0x6264081323
    } else if c == 38 {
        0x5020564936
    } else if c == 39 {
        0x3070800
    } else if c == 40 {
        0x41221c00
    } else if c == 41 {
        0x1c224100
    } else if c == 42 {
        0x2a1c7f1c2a
    } else if c == 43 {
        0x8083e0808
    } else if c == 44 {
        0x305000
    } else if c == 45 {
        0x808080808
    } else if c == 46 {
        0x60600000
    } else if c == 47 {
        0x204081020
    } else if c == 48 {
        0x3e4549513e
    } else if c == 49 {
        0x407f4200
    } else if c == 50 {
        0x4649494972
    } else if c == 51 {
        0x334d494121
    } else if c == 52 {
        0x107f121418
    } else if c == 53 {
        0x3945454527
    } else if c == 54 {
        0x3149494a3c
    } else if c == 55 {
        0x709112141
    } else if c == 56 {
        0x3649494936
    } else if c == 57 {
        0x1e29494946
    } else if c == 58 {
        0x363600
    } else if c == 59 {
        0x365600
    } else if c == 60 {
        0x41221408
    } else if c == 61 {
        0x1414141414
    } else if c == 62 {
        0x814224100
    } else if c == 63 {
        0x609510102
    } else if c == 64 {
        0x3e41794932
    } else if c == 65 {
        0x7c1211127c
    } else if c == 66 {
        0x364949497f
    } else if c == 67 {
        0x224141413e
    } else if c == 68 {
        0x1c2241417f
    } else if c == 69 {
        0x414949497f
    } else if c == 70 {
        0x10909097f
    } else if c == 71 {
        0x7a4949413e
    } else if c == 72 {
        0x7f0808087f
    } else if c == 73 {
        0x417f4100
    } else if c == 74 {
        0x13f414020
    } else if c == 75 {
        0x412214087f
    } else if c == 76 {
        0x404040407f
    } else if c == 77 {
        0x7f020c027f
    } else if c == 78 {
        0x7f1008047f
    } else if c == 79 {
        0x3e4141413e
    } else if c == 80 {
        0x60909097f
    } else if c == 81 {
        0x5e2151413e
    } else if c == 82 {
        0x462919097f
    } else if c == 83 {
        0x3149494946
    } else if c == 84 {
        0x1017f0101
    } else if c == 85 {
        0x3f4040403f
    } else if c == 86 {
        0x1f2040201f
    } else if c == 87 {
        0x3f4038403f
    } else if c == 88 {
        0x6314081463
    } else if c == 89 {
        0x708700807
    } else if c == 90 {
        0x4345495161
    } else if c == 91 {
        0x41417f00
    } else if c == 92 {
        0x2010080402
    } else if c == 93 {
        0x7f414100
    } else if c == 94 {
        0x402010204
    } else if c == 95 {
        0x4040404040
    } else if c == 96 {
        0x4020100
    } else if c == 97 {
        0x7854545420
    } else if c == 98 {
        0x384444487f
    } else if c == 99 {
        0x2044444438
    } else if c == 100 {
        0x7f48444438
    } else if c == 101 {
        0x1854545438
    } else if c == 102 {
        0x201097e08
    } else if c == 103 {
        0x3e5252520c
    } else if c == 104 {
        0x780404087f
    } else if c == 105 {
        0x407d4400
    } else if c == 106 {
        0x3d444020
    } else if c == 107 {
        0x4428107f
    } else if c == 108 {
        0x407f4100
    } else if c == 109 {
        0x780418047c
    } else if c == 110 {
        0x780404087c
    } else if c == 111 {
        0x3844444438
    } else if c == 112 {
        0x81414147c
    } else if c == 113 {
        0x7c18141408
    } else if c == 114 {
        0x80404087c
    } else if c == 115 {
        0x2054545448
    } else if c == 116 {
        0x2040443f04
    } else if c == 117 {
        0x7c2040403c
    } else if c == 118 {
        0x1c2040201c
    } else if c == 119 {
        0x3c4030403c
    } else if c == 120 {
        0x4428102844
    } else if c == 121 {
        0x3c5050500c
    } else if c == 122 {
        0x444c546444
    } else if c == 123 {
        0x41360800
    } else if c == 124 {
        0x7f0000
    } else if c == 125 {
        0x8364100
    } else {
        0x810080408
    }
}

pub(crate) fn columns_of(c: u8) -> (r: u64)
    requires
        32 <= c < 127,
    ensures
        r == columns(c as int),
{
    match c {
        32 => 0x0,
        33 => 0x5f0000,
        34 => 0x7000700,
        35 => 0x147f147f14,
        36 => 0x122a7f2a24,
        37 => 0x6264081323,
        38 => 0x5020564936,
        39 => 0x3070800,
        40 => 0x41221c00,
        41 => 0x1c224100,
        42 => 0x2a1c7f1c2a,
        43 => 0x8083e0808,
        44 => 0x305000,
        45 => 0x808080808,
        46 => 0x60600000,
        47 => 0x204081020,
        48 => 0x3e4549513e,
        49 => 0x407f4200,
        50 => 0x4649494972,
        51 => 0x334d494121,
        52 => 0x107f121418,
        53 => 0x3945454527,
        54 => 0x3149494a3c,
        55 => 0x709112141,
        56 => 0x3649494936,
        57 => 0x1e29494946,
        58 => 0x363600,
        59 => 0x365600,
        60 => 0x41221408,
        61 => 0x1414141414,
        62 => 0x814224100,
        63 => 0x609510102,
        64 => 0x3e41794932,
        65 => 0x7c1211127c,
        66 => 0x364949497f,
        67 => 0x224141413e,
        68 => 0x1c2241417f,
        69 => 0x414949497f,
        70 => 0x10909097f,
        71 => 0x7a4949413e,
        72 => 0x7f0808087f,
        73 => 0x417f4100,
        74 => 0x13f414020,
        75 => 0x412214087f,
        76 => 0x404040407f,
        77 => 0x7f020c027f,
        78 => 0x7f1008047f,
        79 => 0x3e4141413e,
        80 => 0x60909097f,
        81 => 0x5e2151413e,
        82 => 0x462919097f,
        83 => 0x3149494946,
        84 => 0x1017f0101,
        85 => 0x3f4040403f,
        86 => 0x1f2040201f,
        87 => 0x3f4038403f,
        88 => 0x6314081463,
        89 => 0x708700807,
        90 => 0x4345495161,
        91 => 0x41417f00,
        92 => 0x2010080402,
        93 => 0x7f414100,
        94 => 0x402010204,
        95 => 0x4040404040,
        96 => 0x4020100,
        97 => 0x7854545420,
        98 => 0x384444487f,
        99 => 0x2044444438,
        100 => 0x7f48444438,
        101 => 0x1854545438,
        102 => 0x201097e08,
        103 => 0x3e5252520c,
        104 => 0x780404087f,
        105 => 0x407d4400,
        106 => 0x3d444020,
        107 => 0x4428107f,
        108 => 0x407f4100,
        109 => 0x780418047c,
        110 => 0x780404087c,
        111 => 0x3844444438,
        112 => 0x81414147c,
        113 => 0x7c18141408,
        114 => 0x80404087c,
        115 => 0x2054545448,
        116 => 0x2040443f04,
        117 => 0x7c2040403c,
        118 => 0x1c2040201c,
        119 => 0x3c4030403c,
        120 => 0x4428102844,
        121 => 0x3c5050500c,
        122 => 0x444c546444,
        123 => 0x41360800,
        124 => 0x7f0000,
        125 => 0x8364100,
        _ => 0x810080408,
    }
}

/// Column `i` of a glyph.
pub open spec fn column(c: int, i: int) -> u8 {
    if i == 0 {
        (columns(c) % 0x100) as u8
    } else if i == 1 {
        (columns(c) / 0x100 % 0x100) as u8
    } else if i == 2 {
        (columns(c) / 0x1_0000 % 0x100) as u8
    } else if i == 3 {
        (columns(c) / 0x100_0000 % 0x100) as u8
    } else {
        (columns(c) / 0x1_0000_0000 % 0x100) as u8
    }
}

/// The columns of a character's glyph, where it has one.
pub fn glyph(c: u8) -> (r: Option<[u8; 5]>)
    ensures
        r is Some <==> 32 <= c < 127,
        r matches Some(g) ==> forall|i: int| 0 <= i < 5 ==> #[trigger] g@[i] == column(c as int, i),
{
    if c < 32 || c >= 127 {
        return None;
    }
    let p: u64 = columns_of(c);
    Some(
        [
            (p % 0x100) as u8,
            (p / 0x100 % 0x100) as u8,
            (p / 0x1_0000 % 0x100) as u8,
            (p / 0x100_0000 % 0x100) as u8,
            (p / 0x1_0000_0000 % 0x100) as u8,
        ],
    )
}

/// The character drawn for one: itself, or a question mark where it has no glyph.
pub open spec fn drawn(c: char) -> int {
    if 32 <= c as u32 && (c as u32) < 127 {
        c as u32 as int
    } else {
        63
    }
}

/// The weight of a row's bit.
pub open spec fn weight(row: int) -> int {
    if row == 0 {
        1
    } else if row == 1 {
        2
    } else if row == 2 {
        4
    } else if row == 3 {
        8
    } else if row == 4 {
        16
    } else if row == 5 {
        32
    } else {
        64
    }
}

/// Whether a glyph's cell is lit.
pub open spec fn lit(c: int, col: int, row: int) -> bool {
    column(c, col) as int / weight(row) % 2 == 1
}

/// The pixels of one lit cell, row by row.
pub open spec fn block(x: int, y: int, scale: int) -> Seq<(i64, i64)> {
    Seq::new(
        (scale * scale) as nat,
        |i: int| ((x + i % scale) as i64, (y + i / scale) as i64),
    )
}

/// The pixels of the first `n` cells of a glyph, column by column.
pub open spec fn glyph_pixels(c: int, x: int, y: int, scale: int, n: int) -> Seq<(i64, i64)>
    decreases n,
{
    if n <= 0 {
        Seq::empty()
    } else if lit(c, (n - 1) / 7, (n - 1) % 7) {
        glyph_pixels(c, x, y, scale, n - 1) + block(
            x + (n - 1) / 7 * scale,
            y + (n - 1) % 7 * scale,
            scale,
        )
    } else {
        glyph_pixels(c, x, y, scale, n - 1)
    }
}

/// The pixels of the first `n` characters of a text.
pub open spec fn text_pixels(t: Seq<char>, x: int, y: int, scale: int, n: int) -> Seq<(i64, i64)>
    decreases n,
{
    if n <= 0 {
        Seq::empty()
    } else {
        text_pixels(t, x, y, scale, n - 1) + glyph_pixels(
            drawn(t[n - 1]),
            x + (n - 1) * (ADVANCE * scale),
            y,
            scale,
            35,
        )
    }
}

/// Whether cell `n` of a glyph, counted column by column, is lit and covers the
/// pixel `(i, j)`.
pub open spec fn cell_lights(c: int, x: int, y: int, scale: int, n: int, i: int, j: int) -> bool {
    &&& lit(c, n / 7, n % 7)
    &&& x + n / 7 * scale <= i < x + n / 7 * scale + scale
    &&& y + n % 7 * scale <= j < y + n % 7 * scale + scale
}

/// Whether one of the first `n` cells of a glyph lights the pixel `(i, j)`.
pub open spec fn glyph_lights(c: int, x: int, y: int, scale: int, n: int, i: int, j: int) -> bool {
    exists|m: int| 0 <= m < n && #[trigger] cell_lights(c, x, y, scale, m, i, j)
}

/// Whether character `k` of a text lights the pixel `(i, j)`.
pub open spec fn char_lights(
    t: Seq<char>,
    x: int,
    y: int,
    scale: int,
    k: int,
    i: int,
    j: int,
) -> bool {
    glyph_lights(drawn(t[k]), x + k * (ADVANCE * scale), y, scale, 35, i, j)
}

/// Whether one of the first `n` characters of a text lights the pixel `(i, j)`.
pub open spec fn text_lights(
    t: Seq<char>,
    x: int,
    y: int,
    scale: int,
    n: int,
    i: int,
    j: int,
) -> bool {
    exists|k: int| 0 <= k < n && #[trigger] char_lights(t, x, y, scale, k, i, j)
}

/// Whether a pixel is in a list of pixels.
pub open spec fn shows(lit: Seq<(i64, i64)>, i: int, j: int) -> bool {
    exists|k: int| 0 <= k < lit.len() && (#[trigger] lit[k]).0 == i && lit[k].1 == j
}

/// How large a text of a given height is drawn: whole multiples of the glyph, at
/// least one.
pub fn scale_for(px: i64) -> (r: i64)
    ensures
        r == (if px < 14 {
            1
        } else {
            px / 7
        }),
{
    if px < 14 {
        1
    } else {
        px / 7
    }
}

/// A text's width in pixels: its glyphs and the gaps between them, none behind the
/// last.
pub open spec fn wide(n: int, scale: int) -> int {
    if n == 0 {
        0
    } else {
        (n * ADVANCE - 1) * scale
    }
}

/// The width of a text.
pub fn width(text: &str, scale: i64) -> (r: i64)
    requires
        i64::MIN <= wide(text@.len() as int, scale as int) <= i64::MAX,
    ensures
        r == wide(text@.len() as int, scale as int),
{
    let n: usize = chars_of(text).len();
    if n == 0 {
        0
    } else {
        let m: i128 = n as i128 * ADVANCE as i128 - 1;
        (m * scale as i128) as i64
    }
}

/// The character that is drawn for `c`.
pub(crate) fn drawn_as(c: char) -> (r: u8)
    ensures
        r == drawn(c),
        32 <= r < 127,
{
    let u: u32 = c as u32;
    if u >= 32 && u < 127 {
        u as u8
    } else {
        63
    }
}

pub(crate) fn is_lit(cols: u64, c: u8, col: i64, row: i64) -> (r: bool)
    requires
        32 <= c < 127,
        cols == columns(c as int),
        0 <= col < 5,
        0 <= row < 7,
    ensures
        r == lit(c as int, col as int, row as int),
{
    let b: u64 = match col {
        0 => cols % 0x100,
        1 => cols / 0x100 % 0x100,
        2 => cols / 0x1_0000 % 0x100,
        3 => cols / 0x100_0000 % 0x100,
        _ => cols / 0x1_0000_0000 % 0x100,
    };
    let w: u64 = match row {
        0 => 1,
        1 => 2,
        2 => 4,
        3 => 8,
        4 => 16,
        5 => 32,
        _ => 64,
    };
    b / w % 2 == 1
}

/// Draw a text with its top left corner at `(x, y)`. Returns the pixels it lights
/// and where the next character would begin.
pub fn blit(x: i64, y: i64, text: &str, scale: i64) -> (r: (Vec<(i64, i64)>, i64))
    requires
        0 < scale,
        x + text@.len() * (ADVANCE * scale) <= i64::MAX,
        text@.len() > 0 ==> y + GLYPH_H * scale <= i64::MAX,
    ensures
        r.0@ == text_pixels(text@, x as int, y as int, scale as int, text@.len() as int),
        r.1 == x + text@.len() * (ADVANCE * scale),
{
    let t = chars_of(text);
    let step: i128 = ADVANCE as i128 * scale as i128;
    let mut out: Vec<(i64, i64)> = Vec::new();
    let mut pen: i64 = x;
    let mut i: usize = 0;
    while i < t.len()
        invariant
            i <= t@.len(),
            t@ == text@,
            0 < scale,
            step == ADVANCE * scale,
            x + t@.len() * step <= i64::MAX,
            t@.len() > 0 ==> y + GLYPH_H * scale <= i64::MAX,
            pen == x + i * step,
            out@ == text_pixels(text@, x as int, y as int, scale as int, i as int),
        decreases t@.len() - i,
    {
        proof {
            assert(0 <= i * step && (i + 1) * step == i * step + step) by (nonlinear_arith)
                requires
                    0 <= i,
                    0 <= step,
            ;
            assert((i + 1) * step <= t@.len() * step) by (nonlinear_arith)
                requires
                    i + 1 <= t@.len(),
                    0 <= step,
            ;
        }
        draw_glyph(drawn_as(t[i]), pen, y, scale, &mut out);
        pen = (pen as i128 + step) as i64;
        i += 1;
    }
    (out, pen)
}

fn draw_glyph(c: u8, x: i64, y: i64, scale: i64, out: &mut Vec<(i64, i64)>)
    requires
        32 <= c < 127,
        0 < scale,
        x + ADVANCE * scale <= i64::MAX,
        y + GLYPH_H * scale <= i64::MAX,
    ensures
        final(out)@ == old(out)@ + glyph_pixels(c as int, x as int, y as int, scale as int, 35),
{
    let cols: u64 = columns_of(c);
    let ghost start = out@;
    let mut n: i64 = 0;
    assert(out@ =~= start + glyph_pixels(c as int, x as int, y as int, scale as int, 0));
    while n < 35
        invariant
            0 <= n <= 35,
            32 <= c < 127,
            cols == columns(c as int),
            0 < scale,
            x + ADVANCE * scale <= i64::MAX,
            y + GLYPH_H * scale <= i64::MAX,
            out@ == start + glyph_pixels(c as int, x as int, y as int, scale as int, n as int),
        decreases 35 - n,
    {
        let col: i64 = n / 7;
        let row: i64 = n % 7;
        if is_lit(cols, c, col, row) {
            proof {
                assert(0 <= col * scale <= 4 * scale) by (nonlinear_arith)
                    requires
                        0 <= col <= 4,
                        0 <= scale,
                ;
                assert(0 <= row * scale <= 6 * scale) by (nonlinear_arith)
                    requires
                        0 <= row <= 6,
                        0 <= scale,
                ;
            }
            draw_block(
                (x as i128 + col as i128 * scale as i128) as i64,
                (y as i128 + row as i128 * scale as i128) as i64,
                scale,
                out,
            );
        }
        n += 1;
        assert(out@ =~= start + glyph_pixels(
            c as int,
            x as int,
            y as int,
            scale as int,
            n as int,
        ));
    }
}

fn draw_block(x: i64, y: i64, scale: i64, out: &mut Vec<(i64, i64)>)
    requires
        0 < scale,
        x + scale <= i64::MAX,
        y + scale <= i64::MAX,
    ensures
        final(out)@ == old(out)@ + block(x as int, y as int, scale as int),
{
    let ghost start = out@;
    proof {
        assert(0 <= scale * scale <= 0x7fff_ffff_ffff_ffff * 0x7fff_ffff_ffff_ffff)
            by (nonlinear_arith)
            requires
                0 <= scale <= 0x7fff_ffff_ffff_ffff,
        ;
    }
    let side: i128 = scale as i128;
    let all: i128 = side * side;
    let mut i: i128 = 0;
    assert(out@ =~= start + block(x as int, y as int, scale as int).take(0));
    while i < all
        invariant
            0 <= i <= all == side * side,
            0 < side == scale,
            x + scale <= i64::MAX,
            y + scale <= i64::MAX,
            out@ == start + block(x as int, y as int, scale as int).take(i as int),
        decreases all - i,
    {
        proof {
            lemma_cell(i as int, side as int);
        }
        out.push(((x as i128 + i % side) as i64, (y as i128 + i / side) as i64));
        i += 1;
        assert(out@ =~= start + block(x as int, y as int, scale as int).take(i as int));
    }
    assert(block(x as int, y as int, scale as int).take(all as int) =~= block(
        x as int,
        y as int,
        scale as int,
    ));
}

proof fn lemma_cell(i: int, side: int)
    requires
        0 < side,
        0 <= i < side * side,
    ensures
        0 <= i % side < side,
        0 <= i / side < side,
{
    vstd::arithmetic::div_mod::lemma_mod_bound(i, side);
    vstd::arithmetic::div_mod::lemma_div_pos_is_pos(i, side);
    vstd::arithmetic::div_mod::lemma_multiply_divide_lt(i, side, side);
}

proof fn lemma_block_shows(x: int, y: int, scale: int, i: int, j: int)
    requires
        0 < scale,
        i64::MIN <= x,
        x + scale <= i64::MAX,
        i64::MIN <= y,
        y + scale <= i64::MAX,
    ensures
        shows(block(x, y, scale), i, j) <==> x <= i < x + scale && y <= j < y + scale,
{
    let b = block(x, y, scale);
    assert(scale * scale >= 0) by (nonlinear_arith);
    if shows(b, i, j) {
        let k = choose|k: int| 0 <= k < b.len() && (#[trigger] b[k]).0 == i && b[k].1 == j;
        lemma_cell(k, scale);
    }
    if x <= i < x + scale && y <= j < y + scale {
        let (p, q) = (i - x, j - y);
        let k = q * scale + p;
        assert(0 <= k < scale * scale) by (nonlinear_arith)
            requires
                k == q * scale + p,
                0 <= p < scale,
                0 <= q < scale,
        ;
        vstd::arithmetic::div_mod::lemma_fundamental_div_mod_converse(k, scale, q, p);
        assert(b[k].0 == i && b[k].1 == j);
    }
}

proof fn lemma_shows_either(a: Seq<(i64, i64)>, b: Seq<(i64, i64)>, i: int, j: int)
    ensures
        shows(a + b, i, j) <==> shows(a, i, j) || shows(b, i, j),
{
    let s = a + b;
    if shows(a, i, j) {
        let k = choose|k: int| 0 <= k < a.len() && (#[trigger] a[k]).0 == i && a[k].1 == j;
        assert(s[k] == a[k]);
    }
    if shows(b, i, j) {
        let k = choose|k: int| 0 <= k < b.len() && (#[trigger] b[k]).0 == i && b[k].1 == j;
        assert(s[a.len() + k] == b[k]);
    }
    if shows(s, i, j) {
        let k = choose|k: int| 0 <= k < s.len() && (#[trigger] s[k]).0 == i && s[k].1 == j;
        if k < a.len() {
            assert(a[k] == s[k]);
        } else {
            assert(b[k - a.len()] == s[k]);
        }
    }
}

proof fn lemma_glyph_shows(c: int, x: int, y: int, scale: int, n: int, i: int, j: int)
    requires
        0 < scale,
        0 <= n <= 35,
        i64::MIN <= x,
        x + ADVANCE * scale <= i64::MAX,
        i64::MIN <= y,
        y + GLYPH_H * scale <= i64::MAX,
    ensures
        shows(glyph_pixels(c, x, y, scale, n), i, j) <==> glyph_lights(c, x, y, scale, n, i, j),
    decreases n,
{
    if n > 0 {
        let (col, row) = ((n - 1) / 7, (n - 1) % 7);
        lemma_glyph_shows(c, x, y, scale, n - 1, i, j);
        assert(0 <= col * scale <= 4 * scale) by (nonlinear_arith)
            requires
                0 <= col <= 4,
                0 <= scale,
        ;
        assert(0 <= row * scale <= 6 * scale) by (nonlinear_arith)
            requires
                0 <= row <= 6,
                0 <= scale,
        ;
        let before = glyph_pixels(c, x, y, scale, n - 1);
        let b = block(x + col * scale, y + row * scale, scale);
        lemma_block_shows(x + col * scale, y + row * scale, scale, i, j);
        lemma_shows_either(before, b, i, j);
        if cell_lights(c, x, y, scale, n - 1, i, j) {
            assert(glyph_lights(c, x, y, scale, n, i, j));
        }
    }
}

/// The pixels `blit` lists are those that the text lights, cell by cell.
pub proof fn law_blit_lists_what_is_lit(
    t: Seq<char>,
    x: int,
    y: int,
    scale: int,
    n: int,
    i: int,
    j: int,
)
    requires
        0 < scale,
        0 <= n,
        i64::MIN <= x,
        x + n * (ADVANCE * scale) <= i64::MAX,
        i64::MIN <= y,
        n > 0 ==> y + GLYPH_H * scale <= i64::MAX,
    ensures
        shows(text_pixels(t, x, y, scale, n), i, j) <==> text_lights(t, x, y, scale, n, i, j),
    decreases n,
{
    if n > 0 {
        let step = ADVANCE * scale;
        let pen = x + (n - 1) * step;
        assert((n - 1) * step + step == n * step && 0 <= (n - 1) * step) by (nonlinear_arith)
            requires
                0 < n,
                0 <= step,
        ;
        law_blit_lists_what_is_lit(t, x, y, scale, n - 1, i, j);
        lemma_glyph_shows(drawn(t[n - 1]), pen, y, scale, 35, i, j);
        lemma_shows_either(
            text_pixels(t, x, y, scale, n - 1),
            glyph_pixels(drawn(t[n - 1]), pen, y, scale, 35),
            i,
            j,
        );
        if char_lights(t, x, y, scale, n - 1, i, j) {
            assert(text_lights(t, x, y, scale, n, i, j));
        }
    }
}

/// A character without a glyph is drawn as a question mark.
pub proof fn law_every_character_is_visible(c: char, x: int, y: int, scale: int)
    requires
        !(32 <= c as u32 && (c as u32) < 127),
    ensures
        text_pixels(seq![c], x, y, scale, 1) == text_pixels(seq!['?'], x, y, scale, 1),
{
    reveal_with_fuel(text_pixels, 2);
    assert(drawn(c) == drawn('?'));
    assert(seq![c][0] == c && seq!['?'][0] == '?');
}

/// No two characters look alike, and only the blank shows nothing.
#[verifier::rlimit(100)]
#[verifier::spinoff_prover]
pub proof fn law_glyphs_are_told_apart(a: int, b: int)
    requires
        32 <= a < 127,
        32 <= b < 127,
    ensures
        columns(a) == columns(b) ==> a == b,
        columns(a) == 0 <==> a == ' ' as u32,
{
}

/// A glyph has no more than five columns.
#[verifier::rlimit(50)]
#[verifier::spinoff_prover]
proof fn lemma_five_columns(c: int)
    ensures
        columns(c) < 0x100_0000_0000,
{
}

/// The rows of a column are its bits, the topmost the least.
pub proof fn law_rows_are_bits(c: int, col: int, row: int)
    requires
        0 <= row < GLYPH_H,
    ensures
        weight(row) == vstd::arithmetic::power2::pow2(row as nat),
        lit(c, col, row) <==> (column(c, col) as int / vstd::arithmetic::power2::pow2(row as nat) as int)
            % 2 == 1,
{
    vstd::arithmetic::power2::lemma2_to64();
}

/// The columns of a glyph make up its number, the leftmost the least.
pub proof fn law_columns_stand_from_the_left(c: int)
    ensures
        columns(c) == column(c, 0) + 256 * (column(c, 1) + 256 * (column(c, 2) + 256 * (column(
            c,
            3,
        ) + 256 * column(c, 4)))),
{
    lemma_five_columns(c);
    lemma_five_bytes(columns(c) as int);
}

proof fn lemma_five_bytes(p: int)
    requires
        0 <= p < 0x100_0000_0000,
    ensures
        p == p % 0x100 + 256 * (p / 0x100 % 0x100 + 256 * (p / 0x1_0000 % 0x100 + 256 * (p
            / 0x100_0000 % 0x100 + 256 * (p / 0x1_0000_0000 % 0x100)))),
{
}

/// A text drawn some times as large is the same picture, every pixel that many pixels wide
/// and high.
pub proof fn law_scaling_keeps_the_picture(
    t: Seq<char>,
    x: int,
    y: int,
    scale: int,
    n: int,
    i: int,
    j: int,
)
    requires
        scale > 0,
        0 <= n <= t.len(),
    ensures
        text_lights(t, x, y, scale, n, x + i, y + j) <==> text_lights(
            t,
            0,
            0,
            1,
            n,
            i / scale,
            j / scale,
        ),
{
    let (p, q) = (i / scale, j / scale);
    assert forall|k: int, m: int| 0 <= k && 0 <= m < 35 implies cell_lights(
        drawn(t[k]),
        x + k * (ADVANCE * scale),
        y,
        scale,
        m,
        x + i,
        y + j,
    ) == #[trigger] cell_lights(drawn(t[k]), 0 + k * (ADVANCE * 1), 0, 1, m, p, q) by {
        let step = k * (ADVANCE * scale);
        assert(step == (6 * k) * scale) by (nonlinear_arith)
            requires
                step == k * (6 * scale),
        ;
        let (a, b) = (6 * k + m / 7, m % 7);
        assert((6 * k) * scale + m / 7 * scale == a * scale) by (nonlinear_arith)
            requires
                a == 6 * k + m / 7,
        ;
        assert(k * (ADVANCE * 1) == 6 * k) by (nonlinear_arith)
            requires
                ADVANCE == 6,
        ;
        assert(m / 7 * 1 == m / 7 && m % 7 * 1 == m % 7);
        lemma_place(i, scale, a);
        lemma_place(j, scale, b);
        let c = drawn(t[k]);
        assert(cell_lights(c, x + step, y, scale, m, x + i, y + j) <==> lit(c, m / 7, m % 7) && p
            == a && q == b);
        assert(cell_lights(c, 0 + k * (ADVANCE * 1), 0, 1, m, p, q) <==> lit(c, m / 7, m % 7) && p
            == a && q == b);
    }
    if text_lights(t, x, y, scale, n, x + i, y + j) {
        let k = choose|k: int| 0 <= k < n && #[trigger] char_lights(t, x, y, scale, k, x + i, y + j);
        let pen = x + k * (ADVANCE * scale);
        let m = choose|m: int|
            0 <= m < 35 && #[trigger] cell_lights(drawn(t[k]), pen, y, scale, m, x + i, y + j);
        assert(cell_lights(drawn(t[k]), 0 + k * (ADVANCE * 1), 0, 1, m, p, q));
        assert(char_lights(t, 0, 0, 1, k, p, q));
    }
    if text_lights(t, 0, 0, 1, n, p, q) {
        let k = choose|k: int| 0 <= k < n && #[trigger] char_lights(t, 0, 0, 1, k, p, q);
        let m = choose|m: int|
            0 <= m < 35 && #[trigger] cell_lights(
                drawn(t[k]),
                0 + k * (ADVANCE * 1),
                0,
                1,
                m,
                p,
                q,
            );
        assert(cell_lights(drawn(t[k]), x + k * (ADVANCE * scale), y, scale, m, x + i, y + j));
        assert(char_lights(t, x, y, scale, k, x + i, y + j));
    }
}

/// A number divided is the place of the block it lies in.
proof fn lemma_place(i: int, scale: int, a: int)
    requires
        scale > 0,
    ensures
        i / scale == a <==> a * scale <= i < a * scale + scale,
{
    let q = i / scale;
    assert(q * scale <= i < q * scale + scale) by (nonlinear_arith)
        requires
            q == i / scale,
            scale > 0,
    ;
    if a * scale <= i < a * scale + scale {
        assert(q == a) by (nonlinear_arith)
            requires
                q * scale <= i < q * scale + scale,
                a * scale <= i < a * scale + scale,
                scale > 0,
        ;
    }
}

/// At its own size a text lights, in the box of each of its characters, the cells of that
/// character's glyph and nothing between two boxes: character `k` stands six columns times
/// `k` from the left.
pub proof fn law_characters_stand_side_by_side(t: Seq<char>, n: int, k: int, col: int, row: int)
    requires
        0 <= k < n <= t.len(),
        0 <= col < ADVANCE,
    ensures
        text_lights(t, 0, 0, 1, n, 6 * k + col, row) <==> col < GLYPH_W && 0 <= row < GLYPH_H
            && lit(drawn(t[k]), col, row),
{
    let i = 6 * k + col;
    if text_lights(t, 0, 0, 1, n, i, row) {
        let (h, m) = lemma_lit_by(t, n, i, row);
        lemma_cell_at(drawn(t[h]), h, m, i, row);
        lemma_which(k, col, h, m / 7);
    }
    if col < GLYPH_W && 0 <= row < GLYPH_H && lit(drawn(t[k]), col, row) {
        let m = 7 * col + row;
        assert(m / 7 == col && m % 7 == row);
        lemma_cell_at(drawn(t[k]), k, m, i, row);
        assert(char_lights(t, 0, 0, 1, k, i, row));
    }
}

proof fn lemma_which(k: int, col: int, h: int, c: int)
    requires
        0 <= col < 6,
        0 <= c < 5,
        6 * k + col == 6 * h + c,
    ensures
        h == k,
        c == col,
{
}

proof fn lemma_lit_by(t: Seq<char>, n: int, i: int, row: int) -> (r: (int, int))
    requires
        text_lights(t, 0, 0, 1, n, i, row),
    ensures
        0 <= r.0 < n,
        0 <= r.1 < 35,
        cell_lights(drawn(t[r.0]), r.0 * (ADVANCE * 1), 0, 1, r.1, i, row),
{
    let h = choose|h: int| 0 <= h < n && #[trigger] char_lights(t, 0, 0, 1, h, i, row);
    let pen = 0 + h * (ADVANCE * 1);
    let m = choose|m: int|
        0 <= m < 35 && #[trigger] cell_lights(drawn(t[h]), pen, 0, 1, m, i, row);
    (h, m)
}

/// At its own size a cell of a character is one pixel.
proof fn lemma_cell_at(c: int, k: int, m: int, i: int, row: int)
    requires
        0 <= m < 35,
    ensures
        cell_lights(c, k * (ADVANCE * 1), 0, 1, m, i, row) <==> lit(c, m / 7, m % 7) && i == 6 * k
            + m / 7 && row == m % 7,
        0 <= m / 7 < 5,
        0 <= m % 7 < 7,
{
    assert(k * (ADVANCE * 1) == 6 * k) by (nonlinear_arith)
        requires
            ADVANCE == 6,
    ;
    assert(m / 7 * 1 == m / 7 && m % 7 * 1 == m % 7);
}

/// A character is as wide as its glyph, and every further one adds its glyph and a gap.
pub proof fn law_gaps_stand_between_characters(n: int, scale: int)
    requires
        n > 0,
    ensures
        wide(0, scale) == 0,
        wide(1, scale) == 5 * scale,
        wide(n + 1, scale) - wide(n, scale) == 6 * scale,
        ADVANCE == GLYPH_W + 1,
        GLYPH_H == 7,
{
    assert(((n + 1) * 6 - 1) * scale - (n * 6 - 1) * scale == 6 * scale) by (nonlinear_arith);
    assert((1 * 6 - 1) * scale == 5 * scale);
}

/// A printable character is drawn as itself.
pub proof fn law_printable_characters_are_drawn(c: char)
    ensures
        ' ' <= c <= '~' ==> drawn(c) == c as u32,
        c < ' ' || '~' < c ==> drawn(c) == '?' as u32,
{
}

/// The pixels of a text are listed character by character, those of a glyph column by
/// column, and those of a cell row by row from its top left.
pub proof fn law_pixels_are_listed_in_order(
    t: Seq<char>,
    c: int,
    x: int,
    y: int,
    scale: int,
    n: int,
    i: int,
    j: int,
)
    requires
        0 <= n,
        0 <= i < scale,
        0 <= j < scale,
        i64::MIN <= x,
        x + scale <= i64::MAX,
        i64::MIN <= y,
        y + scale <= i64::MAX,
    ensures
        text_pixels(t, x, y, scale, n).is_prefix_of(text_pixels(t, x, y, scale, n + 1)),
        glyph_pixels(c, x, y, scale, n).is_prefix_of(glyph_pixels(c, x, y, scale, n + 1)),
        j * scale + i < block(x, y, scale).len() == scale * scale,
        block(x, y, scale)[j * scale + i].0 == x + i,
        block(x, y, scale)[j * scale + i].1 == y + j,
{
    let k = j * scale + i;
    assert(0 <= k < scale * scale && k % scale == i && k / scale == j) by (nonlinear_arith)
        requires
            k == j * scale + i,
            0 <= i < scale,
            0 <= j < scale,
    ;
}

} // verus!
