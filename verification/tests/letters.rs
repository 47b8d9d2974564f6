//! Fonts, glyph outlines and their masks, and text in a picture.

use sweet::font::{
    cmap_format4_lookup, i16_at, layout_line, u16_at, u32_at, Font, FontError,
};
use sweet::glyph::{parse_simple_glyph, GlyphOutline, GlyphPoint};
use sweet::glyph_fill::{is_inside, line_bounds, rasterize_glyph, rasterize_lines, LineBox};
use sweet::lettering::{apply_text, stamp_mask};
use sweet::number::Real;
use sweet::outline::{flatten_contour, flatten_outline};
use sweet::pixels::Pixel;

fn re(x: f32) -> Real {
    Real { bits: x.to_bits() }
}

fn fl(r: Real) -> f32 {
    f32::from_bits(r.bits)
}

fn put(out: &mut Vec<u8>, numbers: &[i32]) {
    for n in numbers {
        out.extend_from_slice(&(*n as u16).to_be_bytes());
    }
}

/// A glyph with one contour, its steps two bytes each.
fn plain_glyph(points: &[(i32, i32)]) -> Vec<u8> {
    let mut g = Vec::new();
    put(&mut g, &[1, 0, 0, 0, 0, points.len() as i32 - 1, 0]);
    // One flag, repeated for all the other points.
    g.extend_from_slice(&[0x09, points.len() as u8 - 1]);
    let mut x = 0;
    for p in points {
        put(&mut g, &[p.0 - x]);
        x = p.0;
    }
    let mut y = 0;
    for p in points {
        put(&mut g, &[p.1 - y]);
        y = p.1;
    }
    if g.len() % 2 == 1 {
        g.push(0);
    }
    g
}

fn capital_h() -> Vec<(i32, i32)> {
    vec![
        (100, 0),
        (250, 0),
        (250, 300),
        (650, 300),
        (650, 0),
        (800, 0),
        (800, 700),
        (650, 700),
        (650, 400),
        (250, 400),
        (250, 700),
        (100, 700),
    ]
}

/// Six glyphs: none, a space, `A`, `H`, `V` and `o`.
fn glyphs() -> Vec<Vec<u8>> {
    // One-byte steps, up and down, and no step.
    let mut a = Vec::new();
    put(&mut a, &[1, 0, 0, 0, 0, 2, 3]);
    a.extend_from_slice(&[9, 9, 9]);
    a.extend_from_slice(&[0x31, 0x33, 0x27, 200, 100, 200]);
    a.push(0);
    // A round one: on the curve, off, on, off. The steps of x are none, up by a hundred, none
    // and down by a hundred; those of y are none, none, up by a hundred and none.
    let mut o = Vec::new();
    put(&mut o, &[1, 0, 0, 0, 0, 3, 0]);
    o.extend_from_slice(&[0x31, 0x32, 0x35, 0x22, 100, 100, 100, 0]);
    let v = plain_glyph(&[(0, 700), (300, 0), (600, 700)]);
    vec![vec![], vec![], a, plain_glyph(&capital_h()), v, o]
}

/// The character table: a space, `A` and `B` through a list, `H`, `V` and `o`.
fn characters() -> Vec<u8> {
    let ends = [0x20, 0x42, 0x48, 0x56, 0x6f, 0xffff];
    let starts = [0x20, 0x41, 0x48, 0x56, 0x6f, 0xffff];
    let deltas = [1 - 0x20, 0, 3 - 0x48, 4 - 0x56, 5 - 0x6f, 1];
    // From the second of six places to the list behind them is ten bytes.
    let ranges = [0, 10, 0, 0, 0, 0];
    let mut t = Vec::new();
    put(&mut t, &[4, 0, 0, 12, 0, 0, 0]);
    put(&mut t, &ends);
    put(&mut t, &[0]);
    put(&mut t, &starts);
    put(&mut t, &deltas);
    put(&mut t, &ranges);
    put(&mut t, &[2, 0]);
    t
}

fn font_tables() -> Vec<(&'static str, Vec<u8>)> {
    let mut head = vec![0u8; 54];
    head[18] = 4;
    let mut maxp = vec![0u8; 6];
    maxp[5] = 6;
    let mut hhea = vec![0u8; 36];
    hhea[35] = 4;
    let mut hmtx = Vec::new();
    put(&mut hmtx, &[500, 0, 250, 0, 600, 0, 900, 0]);
    let (mut loca, mut glyf) = (Vec::new(), Vec::new());
    for g in glyphs() {
        put(&mut loca, &[glyf.len() as i32 / 2]);
        glyf.extend_from_slice(&g);
    }
    put(&mut loca, &[glyf.len() as i32 / 2]);
    let mut cmap = Vec::new();
    put(&mut cmap, &[0, 1, 3, 1, 0, 12]);
    cmap.extend_from_slice(&characters());
    vec![
        ("head", head),
        ("maxp", maxp),
        ("loca", loca),
        ("glyf", glyf),
        ("hhea", hhea),
        ("hmtx", hmtx),
        ("cmap", cmap),
    ]
}

fn file(tables: &[(&'static str, Vec<u8>)]) -> Vec<u8> {
    let mut out = vec![0, 1, 0, 0];
    put(&mut out, &[tables.len() as i32, 0, 0, 0]);
    let mut place = 12 + 16 * tables.len();
    for (tag, t) in tables {
        out.extend_from_slice(tag.as_bytes());
        out.extend_from_slice(&[0; 4]);
        out.extend_from_slice(&(place as u32).to_be_bytes());
        out.extend_from_slice(&(t.len() as u32).to_be_bytes());
        place += t.len();
    }
    for (_, t) in tables {
        out.extend_from_slice(t);
    }
    out
}

fn font() -> Font {
    match Font::parse(file(&font_tables())) {
        Ok(f) => f,
        Err(e) => panic!("{}", e.message()),
    }
}

fn refused(data: Vec<u8>) -> (FontError, String) {
    match Font::parse(data) {
        Ok(_) => panic!("taken as a font"),
        Err(e) => {
            let said = e.message();
            (e, said)
        }
    }
}

/// The left, upper, right and lower pixel around some lines, at a number of pixels for each
/// font unit.
fn pixel_box(b: LineBox, scale: f32) -> (f32, f32, f32, f32) {
    let s = scale / 128.0;
    (
        (b.x0 as f32 * s).floor(),
        (-(b.y1 as f32) * s).floor(),
        (b.x1 as f32 * s).ceil(),
        (-(b.y0 as f32) * s).ceil(),
    )
}

fn frame(b: LineBox, scale: f32) -> (usize, usize) {
    let (x0, y0, x1, y1) = pixel_box(b, scale);
    ((x1 - x0).max(1.0) as usize, (y1 - y0).max(1.0) as usize)
}

fn cross(b: LineBox, scale: f32, row: usize, s: u8, p: (i64, i64), q: (i64, i64)) -> Option<Real> {
    let (_, y0, _, _) = pixel_box(b, scale);
    let at = -(y0 + row as f32 + (s as f32 + 0.5) / 4.0) / scale * 128.0;
    let (ax, ay, bx, by) = (p.0 as f32, p.1 as f32, q.0 as f32, q.1 as f32);
    if (ay <= at && by > at) || (by <= at && ay > at) {
        let t = (at - ay) / (by - ay);
        Some(re(ax + t * (bx - ax)))
    } else {
        None
    }
}

fn target(b: LineBox, scale: f32, col: usize) -> Real {
    re((pixel_box(b, scale).0 + col as f32 + 0.5) / scale * 128.0)
}

#[test]
fn numbers_are_read_high_byte_first() {
    let d = [0x01, 0x02, 0xff, 0xfe, 0x80, 0x00];
    assert_eq!(u16_at(&d, 0), 0x0102);
    assert_eq!(i16_at(&d, 2), -2);
    assert_eq!(i16_at(&d, 4), -32768);
    assert_eq!(u32_at(&d, 1), 0x02ff_fe80);
}

#[test]
fn fonts_map_characters_to_glyphs() {
    let f = font();
    assert_eq!(f.units_per_em(), 1024);
    assert_eq!(f.glyph_id(' '), 1);
    assert_eq!(f.glyph_id('A'), 2);
    assert_eq!(f.glyph_id('B'), 0, "in the list, but without a glyph");
    assert_eq!(f.glyph_id('H'), 3);
    assert_eq!(f.glyph_id('V'), 4);
    assert_eq!(f.glyph_id('I'), 0, "between two segments");
    assert_eq!(f.glyph_id('\u{E000}'), 0);
    assert_eq!(f.glyph_id('\u{1F600}'), 0, "beyond the table");
}

#[test]
fn late_glyphs_share_the_last_advance() {
    let f = font();
    assert_eq!(f.advance_width(1), 250);
    assert_eq!(f.advance_width(3), 900);
    assert_eq!(f.advance_width(4), 900);
    assert_eq!(f.advance_width(60000), 900);
}

#[test]
fn files_that_are_no_fonts_are_refused() {
    let good = font_tables();
    let (e, said) = refused(vec![0; 11]);
    assert!(matches!(e, FontError::TooShort));
    assert_eq!(said, "file is too short to be a font");
    let (e, _) = refused(vec![0, 1, 0, 0, 0, 1, 0, 0, 0, 0, 0, 0]);
    assert!(matches!(e, FontError::TooShort), "the directory is cut off");
    let mut other = file(&good);
    other[0] = b'O';
    let (e, said) = refused(other);
    assert!(matches!(e, FontError::NotTrueType));
    assert!(said.starts_with("not a TrueType font (expected sfnt version 0x00010000)"));
    for (i, name) in
        [(0, "head"), (1, "maxp"), (2, "loca"), (3, "glyf"), (4, "hhea"), (5, "hmtx"), (6, "cmap")]
    {
        let mut tables = good.clone();
        tables.remove(i);
        let (e, said) = refused(file(&tables));
        assert!(matches!(e, FontError::MissingTable(t) if t == name));
        assert_eq!(said, format!("font is missing the required '{name}' table"));
    }
}

#[test]
fn tables_that_end_too_early_are_refused() {
    let cut = |name: &'static str, keep: usize| {
        // The table that is cut comes last in the file.
        let mut tables = font_tables();
        let i = tables.iter().position(|t| t.0 == name).unwrap();
        let mut last = tables.remove(i);
        last.1.truncate(keep);
        tables.push(last);
        refused(file(&tables))
    };
    let (e, said) = cut("head", 53);
    assert!(matches!(e, FontError::Malformed("head table truncated")));
    assert_eq!(said, "malformed font data: head table truncated");
    assert!(matches!(cut("maxp", 5).0, FontError::Malformed("maxp table truncated")));
    assert!(matches!(cut("hhea", 35).0, FontError::Malformed("hhea table truncated")));
    assert!(matches!(cut("cmap", 3).0, FontError::Malformed("cmap table truncated")));
    let (e, said) = cut("cmap", 12);
    assert!(matches!(e, FontError::UnsupportedCmap));
    assert_eq!(
        said,
        "font has no Unicode cmap subtable in a supported format (need format 4)"
    );
}

#[test]
fn windows_tables_come_before_others() {
    let mut tables = font_tables();
    let mut cmap = Vec::new();
    // A table of another kind, a Unicode one without segments, and the one to be found.
    put(&mut cmap, &[0, 3, 1, 0, 0, 28, 0, 3, 0, 30, 3, 1, 0, 44]);
    put(&mut cmap, &[0]);
    put(&mut cmap, &[4, 0, 0, 0, 0, 0, 0]);
    cmap.extend_from_slice(&characters());
    tables[6].1 = cmap.clone();
    let f = Font::parse(file(&tables)).ok().unwrap();
    assert_eq!(f.glyph_id('A'), 2);
    cmap[21] = 0;
    tables[6].1 = cmap;
    let f = Font::parse(file(&tables)).ok().unwrap();
    assert_eq!(f.glyph_id('A'), 0, "the Unicode table has no segments");
}

#[test]
fn space_has_a_glyph_but_no_visible_outline() {
    let font = font();
    let gid = font.glyph_id(' ');
    assert!(font.is_glyph_orderly(gid));
    let outline = font.glyph_outline(gid);
    assert!(outline.contours.is_empty(), "space should have no visible contours");
    assert!(font.advance_width(gid) > 0, "space should still have a nonzero advance width");
}

#[test]
fn outlines_follow_their_steps() {
    let f = font();
    let a = f.glyph_outline(2);
    assert_eq!(a.contours.len(), 1);
    let at = |p: &GlyphPoint| (p.x, p.y, p.on_curve);
    let points: Vec<(i32, i32, bool)> = a.contours[0].iter().map(at).collect();
    assert_eq!(points, vec![(0, 0, true), (200, 0, true), (100, 200, true)]);
    let v = f.glyph_outline(4);
    let points: Vec<(i32, i32, bool)> = v.contours[0].iter().map(at).collect();
    assert_eq!(points, vec![(0, 700, true), (300, 0, true), (600, 700, true)]);
    let o = f.glyph_outline(5);
    let points: Vec<(i32, i32, bool)> = o.contours[0].iter().map(at).collect();
    assert_eq!(
        points,
        vec![(0, 0, true), (100, 0, false), (100, 100, true), (0, 100, false)]
    );
    assert!(f.glyph_outline(99).contours.is_empty(), "no such glyph");
}

#[test]
fn glyphs_made_of_others_are_blank() {
    let mut tables = font_tables();
    let h = glyphs()[2].len();
    tables[3].1[h] = 0xff;
    tables[3].1[h + 1] = 0xff;
    let f = Font::parse(file(&tables)).ok().unwrap();
    assert!(f.is_glyph_orderly(3));
    assert!(f.glyph_outline(3).contours.is_empty());
}

#[test]
fn contours_out_of_order_are_told_apart() {
    let mut tables = font_tables();
    let h = glyphs()[2].len();
    // Two contours, the second ending before the first, and one point.
    let mut tangled = Vec::new();
    put(&mut tangled, &[2, 0, 0, 0, 0, 2, 0, 0]);
    tangled.push(0x31);
    tables[3].1[h..h + tangled.len()].copy_from_slice(&tangled);
    let f = Font::parse(file(&tables)).ok().unwrap();
    assert!(!f.is_glyph_orderly(3));
    assert!(f.is_glyph_orderly(2));
}

#[test]
fn layout_line_accumulates_advances_left_to_right() {
    let font = font();
    let laid_out = layout_line(&font, "AVA");
    assert_eq!(laid_out.len(), 3);
    assert_eq!(laid_out[0].1, 0);
    assert!(laid_out[1].1 > laid_out[0].1, "second glyph should start after the first");
    assert!(laid_out[2].1 > laid_out[1].1, "third glyph should start after the second");
    let a_gid = font.glyph_id('A');
    assert_eq!(laid_out[0].0, a_gid);
    assert_eq!(laid_out[2].0, a_gid);
    assert_eq!(laid_out[1].1 - laid_out[0].1, font.advance_width(a_gid) as u64);
    assert_eq!(laid_out, vec![(2, 0), (4, 600), (2, 1500)]);
}

#[test]
fn bends_become_lines() {
    let o = font().glyph_outline(5);
    let lines = flatten_contour(&o.contours[0]);
    assert_eq!(lines.len(), 18);
    assert_eq!(lines[0], (0, 0));
    assert_eq!(lines[4], (9600, 3200), "half way along the bend");
    assert_eq!(lines[8], (12800, 12800));
    assert_eq!(lines[17], (0, 0), "the last bend ends where the first begins");
    assert_eq!(flatten_outline(&o), vec![lines]);
    assert!(flatten_contour(&vec![]).is_empty());
}

#[test]
fn contours_off_the_curve_begin_between_points() {
    let off = |x: i32, y: i32| GlyphPoint { x, y, on_curve: false };
    let lines = flatten_contour(&vec![off(0, 0), off(8, 0), off(8, 8), off(0, 8)]);
    assert_eq!(lines[0], (0, 4 * 128), "between the last point and the first");
    assert_eq!(lines[8], (4 * 128, 0));
    assert_eq!(lines.len(), 33);
}

#[test]
fn places_lie_inside_between_pairs() {
    let xs: Vec<Real> = [8.0, 0.0, 2.0, 5.0].iter().map(|x| re(*x)).collect();
    for (x, inside) in
        [(-1.0, false), (0.0, true), (1.9, true), (2.0, false), (4.0, false), (5.0, true), (8.0, false)]
    {
        assert_eq!(is_inside(&xs, re(x)), inside, "{x}");
    }
    assert!(!is_inside(&vec![re(1.0)], re(2.0)), "a crossing without a partner");
}

#[test]
fn squares_fill_their_cells() {
    // Two cells and a half wide, one high.
    let square = vec![vec![(0i64, 0i64), (320, 0), (320, 128), (0, 128)]];
    let b = line_bounds(&square).unwrap();
    assert_eq!(b, LineBox { x0: 0, y0: 0, x1: 320, y1: 128 });
    let c = |f, row, s, p, q| cross(f, 1.0, row, s, p, q);
    let t = |f, col| target(f, 1.0, col);
    let (w, h) = frame(b, 1.0);
    assert_eq!((w, h), (3, 1));
    assert_eq!(rasterize_lines(b, &square, w, h, &c, &t), vec![255, 255, 0]);
    // Half a cell high: two of its four lines.
    let low = vec![vec![(0i64, 0i64), (128, 0), (128, 64), (0, 64)]];
    let b = line_bounds(&low).unwrap();
    assert_eq!(rasterize_lines(b, &low, 1, 1, &c, &t), vec![127]);
    assert!(line_bounds(&vec![vec![]]).is_none());
}

#[test]
fn capital_h_rasterizes_with_two_separated_vertical_strokes() {
    let font = font();
    let gid = font.glyph_id('H');
    let outline = font.glyph_outline(gid);
    assert!(!outline.contours.is_empty(), "'H' should have at least one contour");

    let scale = 64.0 / font.units_per_em() as f32;
    let image = rasterize_glyph(
        &outline,
        &|b| frame(b, scale),
        &|f, row, s, p, q| cross(f, scale, row, s, p, q),
        &|f, col| target(f, scale, col),
    )
    .unwrap();
    let (mask, width, height) = (&image.mask, image.width, image.height);
    assert!(width > 10 && height > 10, "unexpectedly tiny raster: {width}x{height}");

    let sample_row = height / 5;
    let row_start = sample_row * width;
    let left_col = width / 8;
    let right_col = width - 1 - width / 8;
    let gap_col = width / 2;
    assert!(
        mask[row_start + left_col] > 128,
        "expected ink in the left stroke at col {left_col}, row {sample_row}"
    );
    assert!(
        mask[row_start + right_col] > 128,
        "expected ink in the right stroke at col {right_col}, row {sample_row}"
    );
    assert!(
        mask[row_start + gap_col] < 128,
        "expected no ink in the gap between H's strokes at col {gap_col}, row {sample_row}"
    );
}

#[test]
fn flat_glyphs_have_no_mask() {
    let on = |x: i32, y: i32| GlyphPoint { x, y, on_curve: true };
    let flat = GlyphOutline { contours: vec![vec![on(0, 5), on(100, 5)]] };
    let none = rasterize_glyph(
        &flat,
        &|b| frame(b, 1.0),
        &|f, row, s, p, q| cross(f, 1.0, row, s, p, q),
        &|f, col| target(f, 1.0, col),
    );
    assert!(none.is_none());
}

/// Paint is laid only where something is covered and selected.
fn lay(under: Pixel, mask: u8, selected: u8) -> Pixel {
    let share = (mask as f32 / 255.0) * (selected as f32 / 255.0);
    let to = |c: u8| (c as f32 * (1.0 - share)).round() as u8;
    Pixel { r: to(under.r), g: to(under.g), b: to(under.b), a: under.a }
}

fn dark(pixels: &[u8], w: usize, x: usize, y: usize) -> bool {
    pixels[4 * (y * w + x)] < 128
}

fn written(text: &str, selection: Option<&[u8]>) -> Vec<u8> {
    let font = font();
    let (w, h) = (64usize, 32usize);
    let mut pixels = vec![255u8; 4 * w * h];
    let scale = 16.0 / font.units_per_em() as f32;
    let anchor = (2.0f32, 20.0f32);
    assert!(text.chars().all(|c| font.is_glyph_orderly(font.glyph_id(c))));
    apply_text(
        &mut pixels,
        w,
        h,
        &font,
        text,
        selection,
        &|b| frame(b, scale),
        &|f, row, s, p, q| cross(f, scale, row, s, p, q),
        &|f, col| target(f, scale, col),
        &|pen, b, col| {
            (anchor.0 + pen as f32 * scale + pixel_box(b, scale).0 + col as f32).round() as i64
        },
        &|b, row| (anchor.1 + pixel_box(b, scale).1 + row as f32).round() as i64,
        &lay,
    );
    pixels
}

#[test]
fn text_is_written_from_the_pen() {
    let w = 64;
    let pixels = written("H H", None);
    // Strokes from 1.6 to 3.9 and from 10.2 to 12.5 pixels behind the pen.
    assert!(dark(&pixels, w, 4, 15) && dark(&pixels, w, 13, 15));
    assert!(!dark(&pixels, w, 9, 11), "the gap above the bar");
    assert!(dark(&pixels, w, 9, 14), "the bar");
    // The pen has gone on by the widths of a letter and a space, 1150 units.
    assert!(dark(&pixels, w, 22, 15) && dark(&pixels, w, 31, 15));
    assert!(!dark(&pixels, w, 40, 15));
    assert!(!dark(&pixels, w, 4, 22), "below the line");
}

#[test]
fn text_stays_inside_the_selection_and_the_picture() {
    let w = 64;
    let mut selection = vec![0u8; 64 * 32];
    for y in 0..32 {
        for x in 0..10 {
            selection[y * 64 + x] = 255;
        }
    }
    let pixels = written("HHHHHHHH", Some(&selection));
    assert!(dark(&pixels, w, 4, 15));
    assert!(!dark(&pixels, w, 13, 15), "not selected");
    let all = written("HHHHHHHH", None);
    assert!(dark(&all, w, 13, 15));
    assert_eq!(all.len(), 4 * 64 * 32);
}

#[test]
fn masks_are_laid_where_they_come_to() {
    let mut pixels = vec![255u8; 4 * 3 * 2];
    let mask = vec![255, 0, 255, 255];
    stamp_mask(&mut pixels, 3, 2, &mask, 2, 2, &vec![2, 3], &vec![-1, 0], None, &lay);
    assert!(dark(&pixels, 3, 2, 0), "the lower left of the mask");
    assert_eq!(pixels.iter().filter(|c| **c == 0).count(), 3, "one cell, three channels");
    assert_eq!(fl(re(1.5)), 1.5);
}

#[test]
fn tables_past_the_end_hold_nothing() {
    let file = [0u8; 64];
    assert_eq!(cmap_format4_lookup(&file, u64::MAX, 65), 0);
    assert_eq!(cmap_format4_lookup(&file, 60, 65), 0);
    assert!(parse_simple_glyph(&file, u64::MAX, 3).is_none());
    assert!(parse_simple_glyph(&file, 50, 3).is_none());
}
