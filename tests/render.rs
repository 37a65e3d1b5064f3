use glyph_raster::canvas::Canvas;
use glyph_raster::font::create_font;
use glyph_raster::glyph::{Glyph, GlyphTable, Primitive};
use glyph_raster::layout::{render_text, to_device, Layout};
use glyph_raster::raster::{draw_line, draw_quad_curve};
use std::collections::BTreeSet;

const BLACK: (u8, u8, u8) = (0, 0, 0);
const WHITE: (u8, u8, u8) = (255, 255, 255);

fn black_pixels(c: &Canvas) -> BTreeSet<(u32, u32)> {
    let mut out = BTreeSet::new();
    for y in 0..c.height() {
        for x in 0..c.width() {
            if c.pixel(x, y) == Some(BLACK) {
                out.insert((x, y));
            } else {
                assert_eq!(c.pixel(x, y), Some(WHITE));
            }
        }
    }
    out
}

/// Textbook integer Bresenham, kept here to check the library against.
fn bresenham(x1: i64, y1: i64, x2: i64, y2: i64) -> Vec<(i64, i64)> {
    let dx = (x2 - x1).abs();
    let dy = (y2 - y1).abs();
    let sx = if x1 < x2 { 1 } else { -1 };
    let sy = if y1 < y2 { 1 } else { -1 };
    let mut err = dx - dy;
    let (mut x, mut y) = (x1, y1);
    let mut out = vec![];
    loop {
        out.push((x, y));
        if x == x2 && y == y2 {
            return out;
        }
        let e2 = 2 * err;
        if e2 > -dy {
            err -= dy;
            x += sx;
        }
        if e2 < dx {
            err += dx;
            y += sy;
        }
    }
}

fn clipped(points: &[(i64, i64)], w: u32, h: u32) -> BTreeSet<(u32, u32)> {
    points
        .iter()
        .filter(|p| p.0 >= 0 && p.1 >= 0 && p.0 < w as i64 && p.1 < h as i64)
        .map(|p| (p.0 as u32, p.1 as u32))
        .collect()
}

fn line_on_blank(w: u32, h: u32, x1: u32, y1: u32, x2: u32, y2: u32) -> BTreeSet<(u32, u32)> {
    let mut c = Canvas::new_white(w, h);
    draw_line(&mut c, x1, y1, x2, y2);
    black_pixels(&c)
}

#[test]
fn render_a_matches_transformed_strokes() {
    let font = create_font();
    let img = render_text(&font, "A", &Layout::standard());
    assert_eq!(img.width(), 100);
    assert_eq!(img.height(), 96);
    let mut expected = BTreeSet::new();
    expected.extend(clipped(&bresenham(0, 96, 48, 0), 100, 96));
    expected.extend(clipped(&bresenham(48, 0, 96, 96), 100, 96));
    expected.extend(clipped(&bresenham(24, 48, 72, 48), 100, 96));
    assert_eq!(black_pixels(&img), expected);
    assert_eq!(img.pixel(48, 0), Some(BLACK));
    assert_eq!(img.pixel(24, 48), Some(BLACK));
    assert_eq!(img.pixel(72, 48), Some(BLACK));
    assert_eq!(img.pixel(0, 95), Some(BLACK));
    assert_eq!(img.pixel(50, 90), Some(WHITE));
}

#[test]
fn render_ab_keeps_ink_in_cells() {
    let font = create_font();
    let img = render_text(&font, "AB", &Layout::standard());
    assert_eq!(img.width(), 200);
    assert_eq!(img.height(), 96);
    let ink = black_pixels(&img);
    assert!(ink.iter().any(|p| p.0 < 96));
    assert!(ink.iter().any(|p| p.0 >= 100 && p.0 < 196));
    for p in &ink {
        assert!(p.0 < 96 || (p.0 >= 100 && p.0 < 196), "stray ink at {:?}", p);
    }
    for y in 0..96 {
        for x in (96..100).chain(196..200) {
            assert_eq!(img.pixel(x, y), Some(WHITE));
        }
    }
}

#[test]
fn missing_glyph_leaves_blank_cell() {
    let font = create_font();
    let layout = Layout::standard();
    let img = render_text(&font, "AZB", &layout);
    assert_eq!(img.width(), 300);
    let alone_a = render_text(&font, "A", &layout);
    let alone_b = render_text(&font, "B", &layout);
    for y in 0..96 {
        for x in 0..100 {
            assert_eq!(img.pixel(x, y), alone_a.pixel(x, y));
            assert_eq!(img.pixel(100 + x, y), Some(WHITE));
            assert_eq!(img.pixel(200 + x, y), alone_b.pixel(x, y));
        }
    }
    assert!(!black_pixels(&alone_b).is_empty());
}

#[test]
fn rendering_is_deterministic() {
    let font = create_font();
    let a = render_text(&font, "ABC", &Layout::standard());
    let b = render_text(&font, "ABC", &Layout::standard());
    assert_eq!(a.width(), b.width());
    assert_eq!(a.height(), b.height());
    assert_eq!(black_pixels(&a), black_pixels(&b));
}

#[test]
fn canvas_size_follows_text_length() {
    let font = create_font();
    let layout = Layout { glyph_size: 10, scale: 2, spacing: 5 };
    for (text, n) in [("", 0u32), ("A", 1), ("AB", 2), ("ABCZ", 4)] {
        let img = render_text(&font, text, &layout);
        assert_eq!(img.width(), n * 25);
        assert_eq!(img.height(), 20);
    }
    let empty = render_text(&font, "", &Layout::standard());
    assert_eq!(empty.width(), 0);
    assert_eq!(empty.height(), 96);
    assert_eq!(empty.pixel(0, 0), None);
}

#[test]
fn width_counts_characters_not_bytes() {
    let font = create_font();
    let img = render_text(&font, "Aé", &Layout::standard());
    assert_eq!(img.width(), 200);
}

#[test]
fn line_plots_both_endpoints() {
    let cases = [
        (3, 4, 3, 4),
        (0, 0, 9, 0),
        (2, 9, 2, 1),
        (1, 1, 8, 5),
        (9, 0, 0, 9),
        (7, 2, 1, 6),
        (0, 9, 4, 0),
    ];
    for (x1, y1, x2, y2) in cases {
        let ink = line_on_blank(10, 10, x1, y1, x2, y2);
        assert!(ink.contains(&(x1, y1)));
        assert!(ink.contains(&(x2, y2)));
        let expected = clipped(&bresenham(x1 as i64, y1 as i64, x2 as i64, y2 as i64), 10, 10);
        assert_eq!(ink, expected);
    }
    assert_eq!(line_on_blank(10, 10, 3, 4, 3, 4), BTreeSet::from([(3, 4)]));
}

#[test]
fn line_is_clipped_to_canvas() {
    let ink = line_on_blank(5, 5, 2, 2, 20, 2);
    assert_eq!(ink, BTreeSet::from([(2, 2), (3, 2), (4, 2)]));
}

#[test]
fn straight_lines_are_symmetric() {
    for (x1, y1, x2, y2) in [(1, 3, 8, 3), (4, 0, 4, 9), (0, 0, 7, 7), (8, 1, 1, 8), (5, 5, 5, 5)] {
        assert_eq!(line_on_blank(10, 10, x1, y1, x2, y2), line_on_blank(10, 10, x2, y2, x1, y1));
    }
}

#[test]
fn off_axis_line_depends_on_direction() {
    assert_eq!(line_on_blank(5, 5, 0, 0, 2, 1), BTreeSet::from([(0, 0), (1, 0), (2, 1)]));
    assert_eq!(line_on_blank(5, 5, 2, 1, 0, 0), BTreeSet::from([(0, 0), (1, 1), (2, 1)]));
}

#[test]
fn curve_plots_its_samples() {
    let mut c = Canvas::new_white(40, 40);
    draw_quad_curve(&mut c, 2, 30, 20, 0, 35, 33);
    let ink = black_pixels(&c);
    assert!(ink.contains(&(2, 30)));
    assert!(ink.contains(&(35, 33)));
    let mut expected = BTreeSet::new();
    for k in 0u64..=100 {
        let u = 100 - k;
        let x = (u * u * 2 + 2 * u * k * 20 + k * k * 35) / 10000;
        let y = (u * u * 30 + 2 * u * k * 0 + k * k * 33) / 10000;
        expected.insert((x as u32, y as u32));
    }
    assert_eq!(ink, expected);
    // the sample at t = 0.5
    assert!(ink.contains(&(19, 15)));
}

#[test]
fn curve_samples_off_canvas_are_dropped() {
    let mut c = Canvas::new_white(10, 10);
    draw_quad_curve(&mut c, 0, 0, 50, 0, 50, 50);
    let ink = black_pixels(&c);
    assert!(ink.contains(&(0, 0)));
    assert!(ink.iter().all(|p| p.0 < 10 && p.1 < 10));
}

#[test]
fn cells_do_not_overlap() {
    let layout = Layout::standard();
    let cell = layout.cell_width();
    assert_eq!(cell, 100);
    assert_eq!(layout.em(), 96);
    for i in 0u32..5 {
        for j in 0u32..5 {
            if i != j {
                let (a, b) = (i * cell, (i + 1) * cell);
                let (c, d) = (j * cell, (j + 1) * cell);
                assert!(b <= c || d <= a);
            }
        }
    }
}

#[test]
fn device_transform_truncates() {
    assert_eq!(to_device(0, 1000, 96), 96);
    assert_eq!(to_device(100, 250, 96), 124);
    assert_eq!(to_device(0, 18, 96), 1);
    assert_eq!(to_device(0, 880, 96), 84);
    assert_eq!(to_device(0, 800, 96), 76);
    assert_eq!(to_device(u32::MAX, 1000, 96), u32::MAX);
}

#[test]
fn table_lookup_and_replace() {
    let mut t = GlyphTable::new();
    assert!(t.lookup('x').is_none());
    t.insert('x', Glyph { primitives: vec![], width: 1000 });
    assert_eq!(t.lookup('x').map(|g| g.primitives.len()), Some(0));
    let dot = Primitive::Segment { x1: 500, y1: 500, x2: 500, y2: 500 };
    t.insert('x', Glyph { primitives: vec![dot], width: 600 });
    let g = t.lookup('x').unwrap();
    assert_eq!(g.primitives, vec![dot]);
    assert_eq!(g.width, 600);
    assert!(t.lookup('y').is_none());
}

#[test]
fn custom_table_renders_single_primitive() {
    let mut t = GlyphTable::new();
    t.insert('.', Glyph { primitives: vec![Primitive::Segment { x1: 500, y1: 500, x2: 500, y2: 500 }], width: 1000 });
    t.insert(' ', Glyph { primitives: vec![], width: 1000 });
    let img = render_text(&t, ". .", &Layout { glyph_size: 10, scale: 1, spacing: 2 });
    assert_eq!(img.width(), 36);
    assert_eq!(black_pixels(&img), BTreeSet::from([(5, 5), (29, 5)]));
}

#[test]
fn builtin_font_holds_three_glyphs() {
    let font = create_font();
    assert_eq!(font.lookup('A').unwrap().primitives.len(), 3);
    assert_eq!(font.lookup('B').unwrap().primitives.len(), 6);
    assert_eq!(font.lookup('C').unwrap().primitives.len(), 2);
    assert_eq!(
        font.lookup('A').unwrap().primitives[2],
        Primitive::Segment { x1: 250, y1: 500, x2: 750, y2: 500 }
    );
    assert_eq!(font.lookup('C').unwrap().width, 1000);
    assert!(font.lookup('Z').is_none());
}

#[test]
fn canvas_starts_white_and_plots_black() {
    let mut c = Canvas::new_white(3, 2);
    assert_eq!(c.width(), 3);
    assert_eq!(c.height(), 2);
    assert_eq!(c.pixel(2, 1), Some(WHITE));
    assert_eq!(c.pixel(3, 0), None);
    c.plot(1, 1);
    c.plot(-1, 0);
    c.plot(0, 7);
    assert_eq!(c.pixel(1, 1), Some(BLACK));
    assert_eq!(black_pixels(&c), BTreeSet::from([(1, 1)]));
}
