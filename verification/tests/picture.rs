//! The framebuffer, text in it, and pictures held to be measured.
use aurora::font::{blit, scale_for};
use aurora::canvas::{color, glyphs_width, text_width, unpack, Canvas, Color, Glyph};
use aurora::images::{image_region, Images, Region};

fn red() -> Color {
    color(255, 0, 0, 255)
}

#[test]
fn a_frame_starts_black_and_opaque() {
    let c = Canvas::framebuffer(4, 3);
    assert_eq!((c.fb_width(), c.fb_height()), (4, 3));
    assert!(c.px.iter().all(|p| (p.r, p.g, p.b, p.a) == (0, 0, 0, 255)));
    let none = Canvas::framebuffer(-2, 7);
    assert_eq!((none.fb_width(), none.px.len()), (0, 0));
}

#[test]
fn channels_are_held_to_a_byte() {
    let c = color(300, -4, 17, 999);
    assert_eq!((c.r, c.g, c.b, c.a), (255, 0, 17, 255));
}

#[test]
fn pixels_outside_the_frame_do_nothing() {
    let mut c = Canvas::framebuffer(2, 2);
    c.pixel(1, 0, 1, 2, 3);
    for (x, y) in [(-1, 0), (0, -1), (2, 0), (0, 2)] {
        c.pixel(x, y, 255, 255, 255);
    }
    assert_eq!(c.fb_get(1, 0), 0x01_02_03);
    assert_eq!(c.fb_get(0, 0) + c.fb_get(0, 1) + c.fb_get(1, 1), 0);
    assert_eq!(c.fb_get(2, 0), 0);
    c.pixel_alpha(0, 1, 9, 8, 7, 6);
    assert_eq!(c.px[2].a, 6);
}

#[test]
fn clearing_lets_what_is_behind_show() {
    let mut c = Canvas::framebuffer(2, 1);
    c.clear(10, 20, 30);
    assert!(c.px.iter().all(|p| (p.r, p.g, p.b, p.a) == (10, 20, 30, 0)));
    assert_eq!(c.opaque_rgba(), vec![10, 20, 30, 255, 10, 20, 30, 255]);
}

#[test]
fn a_rectangle_is_cut_to_the_frame() {
    let mut c = Canvas::framebuffer(4, 4);
    c.fill_rect_alpha(-2, 1, 4, 2, red());
    let lit: Vec<(u32, u32)> = (0..4)
        .flat_map(|y| (0..4).map(move |x| (x, y)))
        .filter(|(x, y)| c.fb_get(*x, *y) == 0xff_0000)
        .collect();
    assert_eq!(lit, vec![(0, 1), (1, 1), (0, 2), (1, 2)]);
    c.fill_rect_alpha(0, 0, 0, 4, color(1, 1, 1, 1));
    c.fill_rect_alpha(0, 0, 4, -1, color(1, 1, 1, 1));
    c.fill_rect_alpha(i64::MAX - 1, i64::MAX - 1, i64::MAX, i64::MAX, color(1, 1, 1, 1));
    assert_eq!(c.fb_get(0, 0), 0);
}

#[test]
fn packed_colours_read_back() {
    assert_eq!(unpack(-1).r, 255);
    let high = unpack(0x7700_0000_0102_03f4);
    assert_eq!((high.r, high.g, high.b), (2, 3, 0xf4));
    for n in [0, 0x01_02_03, 0xff_ff_ff, 0x80_00_7f] {
        let p = unpack(n);
        let mut c = Canvas::framebuffer(1, 1);
        c.pixel(0, 0, p.r as i64, p.g as i64, p.b as i64);
        assert_eq!(c.fb_get(0, 0), n);
        assert_eq!(p.a, 255);
    }
}

#[test]
fn text_in_the_built_in_font_is_clipped() {
    let mut c = Canvas::framebuffer(8, 8);
    c.draw_text_builtin(1, 1, "A", 7, red());
    // The apex of the letter, one row down and two columns in.
    assert_eq!(c.fb_get(3, 1), 0xff_0000);
    assert_eq!(c.fb_get(2, 1), 0);
    assert_eq!((1..6).filter(|x| c.fb_get(*x, 5) != 0).count(), 5, "the crossbar");
    let mut d = Canvas::framebuffer(8, 8);
    d.draw_text_builtin(-100, -100, "hello", 14, red());
    assert!(d.px.iter().all(|p| p.r == 0));
}

fn dot(coverage: u8) -> Glyph {
    Glyph { xmin: 1, ymin: 0, width: 1, height: 1, advance: 3, coverage: vec![coverage] }
}

/// Full coverage covers, none leaves the pixel, half lies between.
#[test]
fn coverage_blends_a_character_into_the_frame() {
    let mut c = Canvas::framebuffer(8, 4);
    c.clear(0, 100, 200);
    c.draw_glyphs(0, 0, 2, &vec![dot(255), dot(0), dot(128)], color(255, 200, 0, 255));
    // The baseline is at 2; a character one high stands on it.
    assert_eq!(c.fb_get(1, 1), 0xff_c8_00);
    assert_eq!(c.px[8 + 1].a, 255);
    assert_eq!(c.fb_get(4, 1), 0x00_64_c8);
    assert_eq!(c.px[8 + 4].a, 0, "nothing was laid there");
    let half = unpack(c.fb_get(7, 1));
    assert_eq!((half.r, half.g, half.b), (128, 150, 99));
    assert_eq!(glyphs_width(&vec![dot(1), dot(2)]), 6);
    assert_eq!(glyphs_width(&vec![]), 0);
}

/// Without a font text is drawn and measured in the built-in one.
#[test]
fn text_is_never_silently_missing() {
    let mut c = Canvas::framebuffer(8, 8);
    c.render_text(0, 0, "I", 7, 0x12_34_56, None);
    assert!(c.px.iter().any(|p| (p.r, p.g, p.b) == (0x12, 0x34, 0x56)));
    assert_eq!(text_width("AB", 14, None), 22);
    assert_eq!(text_width("AB", -3, None), 11);
    let mut d = Canvas::framebuffer(8, 8);
    let glyphs = vec![dot(255)];
    d.render_text(0, 0, "I", 0, -1, Some(&glyphs));
    assert_eq!(d.fb_get(1, 0), 0xff_ff_ff, "a height below one counts as one");
    assert_eq!(d.px.iter().filter(|p| p.r != 0).count(), 1);
    assert_eq!(text_width("I", 9, Some(&glyphs)), 3);
}

#[test]
fn pixels_become_a_frame_only_in_full() {
    let c = Canvas::from_rgba(1, 2, &[1, 2, 3, 4, 5, 6, 7, 8]).unwrap();
    assert_eq!(c.fb_get(0, 1), 0x05_06_07);
    assert_eq!(c.px[0].a, 4);
    assert!(Canvas::from_rgba(1, 2, &[1, 2, 3, 4, 5, 6, 7]).is_none());
    assert!(Canvas::from_rgba(0, 0, &[]).is_some());
}

#[test]
fn a_region_is_refused_rather_than_cut() {
    let c = Canvas::framebuffer(4, 3);
    assert_eq!(image_region(&c, 1, 1, 3, 2), Some(Region { x: 1, y: 1, w: 3, h: 2 }));
    assert_eq!(image_region(&c, 1, 1, 4, 2), None);
    assert_eq!(image_region(&c, 0, 0, 0, 1), None);
    assert_eq!(image_region(&c, -1, 0, 1, 1), None);
    assert_eq!(image_region(&c, i64::MAX, 0, 1, 1), None);
}

#[test]
fn differences_are_counted_per_channel() {
    let mut s = Images::new();
    let a = s.image_open(Canvas::framebuffer(2, 2));
    let mut other = Canvas::framebuffer(2, 2);
    other.pixel(1, 1, 10, 20, 30);
    let b = s.image_open(other);
    assert_ne!(a, b);
    assert_eq!(s.image_diff(a, b, 0, 0, 2, 2), Some((60, Region { x: 0, y: 0, w: 2, h: 2 })));
    assert_eq!(s.image_diff(b, a, 0, 0, 2, 2).unwrap().0, 60);
    assert_eq!(s.image_diff(b, b, 0, 0, 2, 2).unwrap().0, 0);
    assert_eq!(s.image_diff(a, b, 0, 0, 1, 2).unwrap().0, 0);
    assert_eq!(s.image_diff(a, b, 0, 0, 3, 2), None);
    assert_eq!(s.image_pixel(b, 1, 1), 0x0a_14_1e);
    assert_eq!(s.image_pixel(b, 2, 1), -1);
}

#[test]
fn a_released_picture_stays_gone() {
    let mut s = Images::new();
    let a = s.image_open(Canvas::framebuffer(3, 5));
    assert_eq!((s.image_width(a), s.image_height(a)), (3, 5));
    assert_eq!(s.image_free(a), 1);
    assert_eq!(s.image_free(a), 0);
    let b = s.image_open(Canvas::framebuffer(1, 1));
    assert_ne!(a, b);
    assert_eq!(s.image_width(a), -1);
    assert!(s.image_mean_luma(a, 0, 0, 1, 1).is_none());
    assert_eq!(s.image_free(-1), 0);
}

#[test]
fn brightness_is_weighed_by_channel() {
    let px = [255, 0, 0, 255, 0, 255, 0, 0, 0, 0, 255, 9, 255, 255, 255, 255];
    let mut s = Images::new();
    let a = s.image_open(Canvas::from_rgba(2, 2, &px).unwrap());
    let total = |x: i64, y: i64, w: i64, h: i64| s.image_mean_luma(a, x, y, w, h).map(|r| r.0);
    assert_eq!(total(0, 0, 1, 1), Some(255 * 2126));
    assert_eq!(total(1, 0, 1, 1), Some(255 * 7152));
    assert_eq!(total(0, 1, 1, 1), Some(255 * 722));
    assert_eq!(total(1, 1, 1, 1), Some(255 * 10_000), "white is the whole range");
    assert_eq!(total(0, 0, 2, 2), Some(255 * 20_000));
    assert_eq!(total(1, 0, 1, 2), Some(255 * 17_152));
    assert_eq!(total(1, 0, 2, 1), None, "not cut to size");
    assert_eq!(s.image_mean_luma(-1, 0, 0, 1, 1), None);
}

/// Text far outside the frame draws nothing, and a long one is drawn to its end.
#[test]
fn text_has_no_limit_but_the_frame() {
    let mut c = Canvas::framebuffer(16, 8);
    let far = [1i64 << 62, -(1i64 << 62), i64::MAX, i64::MIN];
    let glyphs = vec![Glyph { advance: i64::MAX, ..dot(255) }, Glyph { advance: i64::MIN, ..dot(255) }];
    for at in far {
        c.render_text(at, 0, "hello", 7, 0xff_ff_ff, None);
        c.render_text(0, at, "hello", 7, 0xff_ff_ff, None);
        c.render_text(at, at, "hello", 7, 0xff_ff_ff, Some(&glyphs));
        c.render_text(0, at, "hello", i64::MAX, 0xff_ff_ff, Some(&glyphs));
    }
    assert!(c.px.iter().all(|p| p.r == 0));
    let mut huge = Canvas::framebuffer(3, 2);
    huge.render_text(0, 0, "F", i64::MAX, 0x01_02_03, None);
    assert!(huge.px.iter().all(|p| (p.r, p.g, p.b) == (1, 2, 3)), "one cell covers the frame");
    let long = "x".repeat(100_000) + "I";
    c.draw_text_builtin(-600_000, 0, &long, 7, red());
    let mut d = Canvas::framebuffer(16, 8);
    d.draw_text_builtin(0, 0, "I", 7, red());
    assert_eq!(c.px, d.px);
    assert_eq!(text_width(&long, 70, None), (100_001 * 6 - 1) * 10);
}

/// A frame shows exactly what the font says a text lights.
#[test]
fn a_frame_shows_what_the_font_lights() {
    for (x, y, px) in [(0, 0, 7), (-3, 2, 14), (5, -4, 21), (30, 0, 7)] {
        let mut c = Canvas::framebuffer(40, 24);
        c.draw_text_builtin(x, y, "Aj?é", px, red());
        let (lit, _) = blit(x, y, "Aj?é", scale_for(px));
        for j in 0..24 {
            for i in 0..40 {
                assert_eq!(c.fb_get(i as u32, j as u32) != 0, lit.contains(&(i, j)));
            }
        }
    }
}

/// A difference is at most 255 for each channel, and nothing only where the colours
/// are equal.
#[test]
fn a_difference_has_its_range() {
    let mut s = Images::new();
    let mut white = Canvas::framebuffer(3, 2);
    white.clear(255, 255, 255);
    let black = s.image_open(Canvas::framebuffer(3, 2));
    let white = s.image_open(white);
    assert_eq!(s.image_diff(black, white, 0, 0, 3, 2).unwrap().0, 765 * 6);
    let mut clear = Canvas::framebuffer(3, 2);
    clear.clear(0, 0, 0);
    assert_eq!(clear.px[0].a, 0);
    let clear = s.image_open(clear);
    assert_eq!(s.image_diff(black, clear, 0, 0, 3, 2).unwrap().0, 0, "only colour counts");
    let mut odd = Canvas::framebuffer(3, 2);
    odd.pixel(2, 1, 0, 0, 1);
    let odd = s.image_open(odd);
    assert_eq!(s.image_diff(black, odd, 0, 0, 3, 2).unwrap().0, 1);
    assert_eq!(s.image_diff(black, odd, 0, 0, 2, 2).unwrap().0, 0);
}

/// A released handle stays dead through all that is opened and released after it.
#[test]
fn a_released_picture_never_comes_back() {
    let mut s = Images::new();
    let dead = s.image_open(Canvas::framebuffer(1, 1));
    assert_eq!(s.image_free(dead), 1);
    for _ in 0..5 {
        let h = s.image_open(Canvas::framebuffer(2, 2));
        assert!(h > dead);
        assert_eq!(s.image_width(dead), -1);
        assert_eq!(s.image_free(h), 1);
    }
    assert_eq!(s.image_free(dead), 0);
}
