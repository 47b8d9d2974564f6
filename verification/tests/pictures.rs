//! Turning, cutting, moving, warping and filling pictures.
use sweet::feather::feather_mask;
use sweet::moving::{crop_size, move_active_layer, move_shape};
use sweet::number::Real;
use sweet::pixels::{
    apply_layer_transform, crop_pixels, pick_pixel, rotate_canvas_pixels, shift_pixels,
    LayerTransform, Pixel,
};
use sweet::retouch::{
    apply_free_transform, apply_gradient_fill, end_stroke_masked, fill_area,
    move_selection_pixels, Area, Edges,
};
use sweet::selection::{rasterize_selection_mask, sort_numbers, SelectionShape};
use sweet::selection_bounds::{
    mask_bounds, selection_area, selection_scissor, selection_shape_bounds, shift_mask,
};
use sweet::wand::{flood_fill_mask, magic_wand_select};

fn re(x: f32) -> Real {
    Real { bits: x.to_bits() }
}

fn fl(r: Real) -> f32 {
    f32::from_bits(r.bits)
}

fn srgb_to_linear(c: f32) -> f32 {
    if c <= 0.04045 { c / 12.92 } else { ((c + 0.055) / 1.055).powf(2.4) }
}

fn linear_to_srgb(c: f32) -> f32 {
    if c <= 0.0031308 { c * 12.92 } else { 1.055 * c.powf(1.0 / 2.4) - 0.055 }
}

fn channel(c: f32) -> u8 {
    (linear_to_srgb(c).clamp(0.0, 1.0) * 255.0).round() as u8
}

/// Lays a linear colour with an alpha over a pixel.
fn over(under: Pixel, s: [f32; 3], sa: f32) -> Pixel {
    let da = under.a as f32 / 255.0;
    let d = [
        srgb_to_linear(under.r as f32 / 255.0),
        srgb_to_linear(under.g as f32 / 255.0),
        srgb_to_linear(under.b as f32 / 255.0),
    ];
    let oa = sa + da * (1.0 - sa);
    let mix = |k: usize| {
        if oa > 1e-6 { (s[k] * sa + d[k] * da * (1.0 - sa)) / oa } else { 0.0 }
    };
    Pixel {
        r: channel(mix(0)),
        g: channel(mix(1)),
        b: channel(mix(2)),
        a: (oa.clamp(0.0, 1.0) * 255.0).round() as u8,
    }
}

fn blend(under: Pixel, top: Pixel, cover: u8) -> Pixel {
    let sa = (top.a as f32 / 255.0) * (cover as f32 / 255.0);
    let s = [
        srgb_to_linear(top.r as f32 / 255.0),
        srgb_to_linear(top.g as f32 / 255.0),
        srgb_to_linear(top.b as f32 / 255.0),
    ];
    over(under, s, sa)
}

fn fade(alpha: u8, cover: u8) -> u8 {
    (alpha as f32 * (1.0 - cover as f32 / 255.0)).round() as u8
}

fn ramp(width: usize, height: usize) -> Vec<u8> {
    let mut v = vec![0u8; width * height * 4];
    for y in 0..height {
        for x in 0..width {
            let i = (y * width + x) * 4;
            v[i] = (x * 10) as u8;
            v[i + 1] = (y * 10) as u8;
            v[i + 2] = 0;
            v[i + 3] = 255;
        }
    }
    v
}

fn px(buf: &[u8], width: usize, x: usize, y: usize) -> [u8; 4] {
    let i = (y * width + x) * 4;
    [buf[i], buf[i + 1], buf[i + 2], buf[i + 3]]
}

fn ellipse_cover(w: usize, h: usize) -> impl Fn(usize, usize, Real, Real, Real, Real) -> u8 {
    move |x, y, cx, cy, rx, ry| {
        let (cx, cy) = (fl(cx) * w as f32, fl(cy) * h as f32);
        let rx = (fl(rx) * w as f32).max(0.5);
        let ry = (fl(ry) * h as f32).max(0.5);
        let nx = (x as f32 + 0.5 - cx) / rx;
        let ny = (y as f32 + 0.5 - cy) / ry;
        let d = (nx * nx + ny * ny).sqrt();
        let aa = (1.0 / rx.min(ry).max(1.0)).max(0.02);
        let coverage = (1.0 - ((d - 1.0) / aa).clamp(0.0, 1.0)).clamp(0.0, 1.0);
        (coverage * 255.0).round() as u8
    }
}

fn row_cross(w: usize, h: usize) -> impl Fn(usize, (Real, Real), (Real, Real)) -> Option<Real> {
    move |y, a, b| {
        let sy = y as f32 + 0.5;
        let (x0, y0) = (fl(a.0) * w as f32, fl(a.1) * h as f32);
        let (x1, y1) = (fl(b.0) * w as f32, fl(b.1) * h as f32);
        if (y0 <= sy && y1 > sy) || (y1 <= sy && y0 > sy) {
            let t = (sy - y0) / (y1 - y0);
            Some(re(x0 + t * (x1 - x0)))
        } else {
            None
        }
    }
}

fn mask_of(w: usize, h: usize, shape: &SelectionShape) -> Vec<u8> {
    rasterize_selection_mask(
        w,
        h,
        shape,
        &ellipse_cover(w, h),
        &row_cross(w, h),
        &|x: Real| fl(x).floor().max(0.0) as usize,
        &|x: Real| fl(x).ceil() as usize,
    )
}

fn bounds_of(shape: &SelectionShape) -> [f32; 4] {
    let e = selection_shape_bounds(
        shape,
        &|cx: Real, cy: Real, rx: Real, ry: Real| Edges {
            x0: re((fl(cx) - fl(rx)).max(0.0)),
            y0: re((fl(cy) - fl(ry)).max(0.0)),
            x1: re((fl(cx) + fl(rx)).min(1.0)),
            y1: re((fl(cy) + fl(ry)).min(1.0)),
        },
        &|n: usize, size: u32| re(n as f32 / size as f32),
    );
    [fl(e.x0), fl(e.y0), fl(e.x1), fl(e.y1)]
}

fn edges(e: [f32; 4]) -> Edges {
    Edges { x0: re(e[0]), y0: re(e[1]), x1: re(e[2]), y1: re(e[3]) }
}

fn flood(buf: &[u8], w: usize, h: usize, seed: [f32; 2], tolerance: f32) -> (Vec<u8>, usize) {
    let x = (seed[0].clamp(0.0, 0.9999) * w as f32) as usize;
    let y = (seed[1].clamp(0.0, 0.9999) * h as f32) as usize;
    flood_fill_mask(buf, w, h, x, y, &|a: u8, b: u8| {
        (a as f32 / 255.0 - b as f32 / 255.0).abs() <= tolerance
    })
}

fn warp(
    src: &[u8],
    w: usize,
    h: usize,
    region: Option<Area>,
    pivot: (f32, f32),
    scale: f32,
    rotation: f32,
) -> Vec<u8> {
    let whole = Area { x: 0, y: 0, w, h };
    let area = region.unwrap_or(whole);
    let scale = if scale.abs() > 1e-6 { scale } else { 1e-6 };
    let (sin_r, cos_r) = rotation.sin_cos();
    let source = |x: usize, y: usize| {
        let (ox, oy) = (x as f32 + 0.5 - pivot.0, y as f32 + 0.5 - pivot.1);
        let (rx, ry) = (ox * cos_r + oy * sin_r, -ox * sin_r + oy * cos_r);
        let (sx, sy) = (rx / scale + pivot.0, ry / scale + pivot.1);
        let (x0, y0) = (area.x as f32, area.y as f32);
        let (x1, y1) = ((area.x + area.w) as f32, (area.y + area.h) as f32);
        if sx < x0 || sx >= x1 || sy < y0 || sy >= y1 {
            None
        } else {
            Some((sx as usize, sy as usize))
        }
    };
    apply_free_transform(src, w, h, region, whole, None, &source, &fade, &blend)
}

fn gradient(
    buf: &mut Vec<u8>,
    w: usize,
    h: usize,
    from: [f32; 2],
    to: [f32; 2],
    a: [f32; 4],
    b: [f32; 4],
    selection: Option<[f32; 4]>,
    mask: Option<&[u8]>,
) {
    let (fx, fy) = (from[0] * w as f32, from[1] * h as f32);
    let (dx, dy) = ((to[0] - from[0]) * w as f32, (to[1] - from[1]) * h as f32);
    let len2 = (dx * dx + dy * dy).max(1e-6);
    let shade = |x: usize, y: usize, cover: u8, under: Pixel| {
        let (pxf, pyf) = (x as f32 + 0.5, y as f32 + 0.5);
        let t = (((pxf - fx) * dx + (pyf - fy) * dy) / len2).clamp(0.0, 1.0);
        let mix = |k: usize| a[k] + (b[k] - a[k]) * t;
        let sa = mix(3) * (cover as f32 / 255.0);
        if sa <= 0.0 { None } else { Some(over(under, [mix(0), mix(1), mix(2)], sa)) }
    };
    apply_gradient_fill(
        buf,
        w,
        h,
        selection.map(edges),
        mask,
        &|e: Real, n: usize| (fl(e) * n as f32).floor().max(0.0) as usize,
        &|e: Real, n: usize| (fl(e) * n as f32).ceil().min(n as f32) as usize,
        &shade,
    );
}

#[test]
fn flip_h_mirrors_columns_on_a_non_square_buffer() {
    let (w, h) = (6, 3);
    let src = ramp(w, h);
    let out = apply_layer_transform(&src, w, h, LayerTransform::FlipH);
    assert_eq!(px(&out, w, w - 1, 1), px(&src, w, 0, 1));
    assert_eq!(px(&out, w, 0, 1), px(&src, w, w - 1, 1));
}

#[test]
fn flip_v_mirrors_rows_on_a_non_square_buffer() {
    let (w, h) = (6, 3);
    let src = ramp(w, h);
    let out = apply_layer_transform(&src, w, h, LayerTransform::FlipV);
    assert_eq!(px(&out, w, 2, h - 1), px(&src, w, 2, 0));
}

#[test]
fn rotate_180_twice_is_identity_on_a_non_square_buffer() {
    let (w, h) = (6, 3);
    let src = ramp(w, h);
    let once = apply_layer_transform(&src, w, h, LayerTransform::Rotate180);
    let twice = apply_layer_transform(&once, w, h, LayerTransform::Rotate180);
    assert_eq!(src, twice);
}

#[test]
fn rotate_canvas_cw_then_ccw_is_identity() {
    let (w, h) = (6, 3);
    let src = ramp(w, h);
    let cw = rotate_canvas_pixels(&src, w, h, true);
    assert_eq!(cw.len(), h * w * 4, "CW output is the same total pixel count, swapped dims");
    let back = rotate_canvas_pixels(&cw, h, w, false);
    assert_eq!(src, back, "CW then CCW (with swapped dims) must restore the original");
}

#[test]
fn rotate_canvas_cw_maps_top_left_to_top_right() {
    let (w, h) = (6, 3);
    let src = ramp(w, h);
    let out = rotate_canvas_pixels(&src, w, h, true);
    let out_w = h;
    assert_eq!(px(&out, out_w, h - 1, 0), px(&src, w, 0, 0));
}

#[test]
fn crop_extracts_the_requested_sub_rect() {
    let (w, h) = (10, 6);
    let src = ramp(w, h);
    let out = crop_pixels(&src, w, h, 2, 1, 4, 3);
    assert_eq!(out.len(), 4 * 3 * 4, "output is crop_w*crop_h*4 bytes");
    assert_eq!(px(&out, 4, 0, 0), px(&src, w, 2, 1));
    assert_eq!(px(&out, 4, 3, 2), px(&src, w, 5, 3));
}

#[test]
fn crop_clamps_a_rect_that_overruns_the_source_bounds() {
    let (w, h) = (8, 8);
    let src = ramp(w, h);
    let out = crop_pixels(&src, w, h, 6, 6, 6, 6);
    assert_eq!(out.len(), 2 * 2 * 4);
    assert_eq!(px(&out, 2, 0, 0), px(&src, w, 6, 6));
}

#[test]
fn shift_pixels_moves_content_and_reveals_transparent_edges() {
    let (w, h) = (8, 8);
    let src = ramp(w, h);
    let out = shift_pixels(&src, w, h, 2, 1);
    assert_eq!(px(&out, w, 2, 1), px(&src, w, 0, 0));
    assert_eq!(px(&out, w, 0, 4), [0, 0, 0, 0]);
    assert_eq!(px(&out, w, 1, 1), [0, 0, 0, 0]);
}

#[test]
fn move_selection_pixels_cuts_a_hole_and_pastes_at_the_new_spot() {
    let (w, h) = (10, 10);
    let mut src = vec![0u8; w * h * 4];
    for p in src.chunks_exact_mut(4) {
        p[3] = 255;
    }
    for y in 2..5 {
        for x in 2..5 {
            let i = (y * w + x) * 4;
            src[i..i + 4].copy_from_slice(&[255, 255, 255, 255]);
        }
    }
    let out = move_selection_pixels(&src, w, h, 2, 2, 3, 3, 4, 0, None, &blend);
    assert_eq!(px(&out, w, 3, 3), [0, 0, 0, 0], "original selection spot is a hole");
    assert_eq!(px(&out, w, 6, 3)[0], 255, "moved content lands at the new spot");
    assert_eq!(px(&out, w, 0, 0), [0, 0, 0, 255]);
}

#[test]
fn free_transform_scale_moves_content_away_from_the_pivot() {
    let (w, h) = (8, 8);
    let mut buf = vec![0u8; w * h * 4];
    let src_idx = (1 * w + 1) * 4;
    buf[src_idx..src_idx + 4].copy_from_slice(&[255, 0, 0, 255]);
    let out = warp(&buf, w, h, None, (0.0, 0.0), 2.0, 0.0);
    assert_eq!(out[src_idx + 3], 0, "the untransformed layer should not show through");
    for &(x, y) in &[(2, 2), (2, 3), (3, 2), (3, 3)] {
        let p = (y * w + x) * 4;
        assert_eq!(&out[p..p + 3], &[255, 0, 0], "expected red at ({x},{y}), got {:?}", &out[p..p + 3]);
    }
}

#[test]
fn free_transform_positive_rotation_is_on_screen_clockwise() {
    let (w, h) = (10, 10);
    let mut buf = vec![0u8; w * h * 4];
    let src_idx = (3 * w + 5) * 4;
    buf[src_idx..src_idx + 4].copy_from_slice(&[0, 255, 0, 255]);
    let out = warp(&buf, w, h, None, (5.5, 5.5), 1.0, std::f32::consts::FRAC_PI_2);
    let dst_idx = (5 * w + 7) * 4;
    assert_eq!(&out[dst_idx..dst_idx + 3], &[0, 255, 0], "up should rotate to the right (clockwise)");
}

#[test]
fn free_transform_with_a_region_leaves_a_transparent_hole_at_the_original_spot() {
    let (w, h) = (12, 12);
    let mut buf = vec![0u8; w * h * 4];
    for y in 4..8 {
        for x in 4..8 {
            let p = (y * w + x) * 4;
            buf[p..p + 4].copy_from_slice(&[0, 0, 255, 255]);
        }
    }
    let region = Some(Area { x: 4, y: 4, w: 4, h: 4 });
    let out = warp(&buf, w, h, region, (6.0, 6.0), 0.5, 0.0);
    let corner = (4 * w + 4) * 4;
    assert_eq!(out[corner + 3], 0, "original region corner should be cleared, got {:?}", &out[corner..corner + 4]);
}

#[test]
fn ellipse_mask_selects_center_and_excludes_corners() {
    let (w, h) = (40, 40);
    let shape = SelectionShape::Ellipse { cx: re(0.5), cy: re(0.5), rx: re(0.25), ry: re(0.25) };
    let mask = mask_of(w, h, &shape);
    assert_eq!(mask[h / 2 * w + w / 2], 255);
    assert_eq!(mask[0], 0);
}

#[test]
fn ellipse_mask_respects_independent_x_and_y_radii() {
    let (w, h) = (100, 100);
    let shape = SelectionShape::Ellipse { cx: re(0.5), cy: re(0.5), rx: re(0.4), ry: re(0.1) };
    let mask = mask_of(w, h, &shape);
    let at = |ux: f32, uy: f32| {
        let x = (ux * w as f32) as usize;
        let y = (uy * h as f32) as usize;
        mask[y * w + x]
    };
    assert!(at(0.85, 0.5) > 200, "far out on the wide x-axis should still be inside");
    assert!(at(0.5, 0.85) < 50, "the same offset on the narrow y-axis should be outside");
}

#[test]
fn polygon_mask_fills_a_triangle_and_excludes_outside() {
    let (w, h) = (20, 20);
    let shape = SelectionShape::Polygon(vec![
        (re(0.0), re(0.0)),
        (re(0.6), re(0.0)),
        (re(0.0), re(1.0)),
    ]);
    let mask = mask_of(w, h, &shape);
    assert_eq!(mask[2 * w + 2], 255, "inside the triangle");
    assert_eq!(mask[1 * w + 18], 0, "outside the triangle");
}

#[test]
fn rasterize_selection_mask_mask_variant_passes_through_at_matching_size_and_resamples_otherwise() {
    let (w, h) = (4, 4);
    let mut data = vec![0u8; w * h];
    data[0] = 255;
    let shape = SelectionShape::Mask { width: w as u32, height: h as u32, data: data.clone() };
    let out = mask_of(w, h, &shape);
    assert_eq!(out, data);
    let out2 = mask_of(w * 2, h * 2, &shape);
    assert_eq!(out2[0], 255, "top-left corner should still be selected after upscaling");
    assert_eq!(out2[(h * 2 - 1) * (w * 2) + (w * 2 - 1)], 0, "bottom-right corner should stay unselected");
}

#[test]
fn selection_shape_bounds_computes_the_right_bbox() {
    let ellipse = SelectionShape::Ellipse { cx: re(0.5), cy: re(0.4), rx: re(0.2), ry: re(0.1) };
    let b = bounds_of(&ellipse);
    assert!((b[0] - 0.3).abs() < 1e-5 && (b[2] - 0.7).abs() < 1e-5);
    assert!((b[1] - 0.3).abs() < 1e-5 && (b[3] - 0.5).abs() < 1e-5);

    let poly = SelectionShape::Polygon(vec![
        (re(0.1), re(0.2)),
        (re(0.8), re(0.3)),
        (re(0.4), re(0.9)),
    ]);
    let b = bounds_of(&poly);
    assert!((b[0] - 0.1).abs() < 1e-5 && (b[2] - 0.8).abs() < 1e-5);
    assert!((b[1] - 0.2).abs() < 1e-5 && (b[3] - 0.9).abs() < 1e-5);

    let (w, h) = (10, 10);
    let mut data = vec![0u8; w * h];
    for y in 3..6 {
        for x in 2..5 {
            data[y * w + x] = 255;
        }
    }
    let mask = SelectionShape::Mask { width: w as u32, height: h as u32, data };
    let b = bounds_of(&mask);
    assert!((b[0] - 0.2).abs() < 1e-5 && (b[2] - 0.5).abs() < 1e-5, "x bounds: {b:?}");
    assert!((b[1] - 0.3).abs() < 1e-5 && (b[3] - 0.6).abs() < 1e-5, "y bounds: {b:?}");
}

#[test]
fn flood_fill_mask_selects_the_matching_region_and_stops_at_the_boundary() {
    let (w, h) = (10, 10);
    let mut buf = vec![0u8; w * h * 4];
    for y in 0..h {
        for x in 0..w {
            let idx = (y * w + x) * 4;
            if x < 5 {
                buf[idx..idx + 4].copy_from_slice(&[255, 0, 0, 255]);
            } else {
                buf[idx..idx + 4].copy_from_slice(&[0, 0, 255, 255]);
            }
        }
    }
    let (mask, count) = flood(&buf, w, h, [0.1, 0.5], 0.1);
    assert_eq!(count, 5 * 10, "should select exactly the left half");
    for y in 0..h {
        for x in 0..w {
            let expect = if x < 5 { 255 } else { 0 };
            assert_eq!(mask[y * w + x], expect, "mismatch at ({x},{y})");
        }
    }
}

#[test]
fn flood_fill_mask_does_not_leak_through_a_diagonal_gap() {
    let (w, h) = (4, 4);
    let mut buf = vec![0u8; w * h * 4];
    for p in buf.chunks_mut(4) {
        p.copy_from_slice(&[0, 255, 0, 255]);
    }
    let set = |buf: &mut [u8], x: usize, y: usize, c: [u8; 4]| {
        let idx = (y * w + x) * 4;
        buf[idx..idx + 4].copy_from_slice(&c);
    };
    set(&mut buf, 0, 0, [255, 0, 0, 255]);
    set(&mut buf, 1, 1, [255, 0, 0, 255]);
    set(&mut buf, 2, 2, [0, 255, 0, 255]);
    set(&mut buf, 3, 3, [255, 0, 0, 255]);
    let (mask, count) = flood(&buf, w, h, [0.0, 0.0], 0.1);
    assert_eq!(count, 1, "only the seed pixel should match: {mask:?}");
    assert_eq!(mask[0], 255);
    assert_eq!(mask[1 * w + 1], 0, "diagonal neighbor must not leak into the selection");
    assert_eq!(mask[3 * w + 3], 0);
}

#[test]
fn feather_radius_zero_is_an_exact_passthrough() {
    let (w, h) = (16, 16);
    let mut mask = vec![0u8; w * h];
    for y in 4..12 {
        for x in 4..12 {
            mask[y * w + x] = 255;
        }
    }
    assert_eq!(feather_mask(&mask, w, h, 0), mask);
}

#[test]
fn feather_softens_a_hard_edge_into_a_monotonic_ramp() {
    let (w, h) = (32, 8);
    let mut mask = vec![0u8; w * h];
    for y in 0..h {
        for x in 0..(w / 2) {
            mask[y * w + x] = 255;
        }
    }
    let out = feather_mask(&mask, w, h, 3);
    let row = (h / 2) * w;
    assert_eq!(out[row + 1], 255, "far-left interior should stay fully selected");
    assert_eq!(out[row + w - 2], 0, "far-right interior should stay fully unselected");
    let boundary: Vec<u8> = (13..19).map(|x| out[row + x]).collect();
    assert!(boundary.iter().any(|&v| v > 10 && v < 245), "expected a soft transition, got {boundary:?}");
    for x in 1..w {
        assert!(out[row + x] <= out[row + x - 1], "ramp must be monotonic at x={x}: {} then {}", out[row + x - 1], out[row + x]);
    }
}

#[test]
fn feather_of_a_fully_selected_mask_stays_fully_selected() {
    let (w, h) = (12, 9);
    let mask = vec![255u8; w * h];
    let out = feather_mask(&mask, w, h, 4);
    assert!(out.iter().all(|&v| v == 255), "a full mask must stay full after feathering");
}

#[test]
fn linear_gradient_is_opaque_at_start_and_transparent_at_end_on_non_square() {
    let (w, h) = (16, 8);
    let mut buf = vec![0u8; w * h * 4];
    for p in buf.chunks_mut(4) {
        p[3] = 255;
    }
    gradient(
        &mut buf,
        w,
        h,
        [0.0, 0.5],
        [1.0, 0.5],
        [1.0, 1.0, 1.0, 1.0],
        [1.0, 1.0, 1.0, 0.0],
        None,
        None,
    );
    let mid_row = h / 2;
    let left = px(&buf, w, 0, mid_row);
    assert!(left[0] > 230, "left edge should be near-white, got {left:?}");
    let mid = px(&buf, w, w / 2, mid_row);
    assert!(mid[0] < left[0] && mid[0] > 60, "middle should be mid-grey, got {mid:?}");
    let right = px(&buf, w, w - 1, mid_row);
    assert!(right[0] < mid[0] / 2, "right edge should fall off hard, got {right:?} vs mid {mid:?}");
}

#[test]
fn gradient_respects_selection_bounds() {
    let (w, h) = (16, 16);
    let mut buf = vec![0u8; w * h * 4];
    for p in buf.chunks_mut(4) {
        p[3] = 255;
    }
    gradient(
        &mut buf,
        w,
        h,
        [0.0, 0.5],
        [0.0, 0.5],
        [1.0, 0.0, 0.0, 1.0],
        [1.0, 0.0, 0.0, 1.0],
        Some([0.0, 0.0, 0.5, 1.0]),
        None,
    );
    let inside = px(&buf, w, 2, 8);
    assert!(inside[0] > 200 && inside[1] < 40, "inside selection is red, got {inside:?}");
    let outside = px(&buf, w, 12, 8);
    assert_eq!(outside, [0, 0, 0, 255], "outside selection stays untouched");
}

#[test]
fn gradient_respects_an_exact_shape_mask_not_just_its_bounding_rect() {
    let (w, h) = (40, 40);
    let mut buf = vec![0u8; w * h * 4];
    for p in buf.chunks_mut(4) {
        p[3] = 255;
    }
    let shape = SelectionShape::Ellipse { cx: re(0.5), cy: re(0.5), rx: re(0.2), ry: re(0.2) };
    let bounds = bounds_of(&shape);
    let mask = mask_of(w, h, &shape);
    gradient(
        &mut buf,
        w,
        h,
        [0.0, 0.5],
        [0.0, 0.5],
        [1.0, 0.0, 0.0, 1.0],
        [1.0, 0.0, 0.0, 1.0],
        Some(bounds),
        Some(&mask),
    );
    let center = px(&buf, w, 20, 20);
    assert!(center[0] > 200 && center[1] < 40, "centre is red, got {center:?}");
    let rect_corner = px(&buf, w, (bounds[0] * w as f32) as usize + 1, (bounds[1] * h as f32) as usize + 1);
    assert_eq!(rect_corner, [0, 0, 0, 255], "bounding-rect corner outside the ellipse stays untouched");
}

#[test]
fn flips_and_quarters_are_exact_byte_for_byte() {
    // Two by three cells, numbered by their red channel.
    let src: Vec<u8> = (0..6u8).flat_map(|k| [k, k + 10, k + 20, k + 30]).collect();
    let reds = |v: &[u8]| v.chunks(4).map(|p| p[0]).collect::<Vec<u8>>();
    assert_eq!(reds(&apply_layer_transform(&src, 2, 3, LayerTransform::FlipH)), vec![1, 0, 3, 2, 5, 4]);
    assert_eq!(reds(&apply_layer_transform(&src, 2, 3, LayerTransform::FlipV)), vec![4, 5, 2, 3, 0, 1]);
    assert_eq!(reds(&apply_layer_transform(&src, 2, 3, LayerTransform::Rotate180)), vec![5, 4, 3, 2, 1, 0]);
    assert_eq!(reds(&rotate_canvas_pixels(&src, 2, 3, true)), vec![4, 2, 0, 5, 3, 1]);
    assert_eq!(reds(&rotate_canvas_pixels(&src, 2, 3, false)), vec![1, 3, 5, 0, 2, 4]);
    let across = apply_layer_transform(&src, 2, 3, LayerTransform::FlipH);
    let both = apply_layer_transform(&across, 2, 3, LayerTransform::FlipV);
    assert_eq!(both, apply_layer_transform(&src, 2, 3, LayerTransform::Rotate180));
    let quarter = rotate_canvas_pixels(&src, 2, 3, true);
    assert_eq!(rotate_canvas_pixels(&quarter, 3, 2, true), both);
    assert_eq!(apply_layer_transform(&across, 2, 3, LayerTransform::FlipH), src);
}

#[test]
fn bytes_after_the_cells_become_zero_when_a_layer_is_turned() {
    let src = vec![9u8; 4 * 2 + 3];
    let out = apply_layer_transform(&src, 2, 1, LayerTransform::FlipH);
    assert_eq!(out, vec![9, 9, 9, 9, 9, 9, 9, 9, 0, 0, 0]);
}

#[test]
fn whole_crop_and_moves_of_nothing_keep_the_picture() {
    let src = ramp(5, 4);
    assert_eq!(crop_pixels(&src, 5, 4, 0, 0, 5, 4), src);
    assert_eq!(shift_pixels(&src, 5, 4, 0, 0), src);
    let there = shift_pixels(&src, 5, 4, 2, -1);
    let back = shift_pixels(&there, 5, 4, -2, 1);
    assert_eq!(px(&back, 5, 0, 1), px(&src, 5, 0, 1));
    assert_eq!(px(&back, 5, 0, 0), [0, 0, 0, 0]);
    assert_eq!(px(&back, 5, 4, 2), [0, 0, 0, 0]);
}

#[test]
fn crop_past_the_corner_keeps_at_least_one_cell() {
    let src = ramp(3, 3);
    // Column 3 of row 0 is where row 1 begins.
    assert_eq!(crop_pixels(&src, 3, 3, 3, 0, 2, 1), px(&src, 3, 0, 1).to_vec());
    assert_eq!(crop_size(Area { x: 1, y: 2, w: 9, h: 9 }, 3, 3), (2, 1));
    assert_eq!(crop_size(Area { x: 3, y: 3, w: 2, h: 2 }, 3, 3), (1, 1));
}

#[test]
fn a_masked_move_carries_only_what_the_mask_has() {
    let mut src = vec![0u8; 4 * 4];
    for k in 0..4 {
        src[4 * k..4 * k + 4].copy_from_slice(&[255, 255, 255, 255]);
    }
    let mask = vec![0u8, 255, 0, 0];
    let out = move_selection_pixels(&src, 4, 1, 0, 0, 2, 1, 2, 0, Some(&mask), &blend);
    assert_eq!(px(&out, 4, 0, 0), [255, 255, 255, 255]);
    assert_eq!(px(&out, 4, 1, 0), [0, 0, 0, 0]);
    assert_eq!(px(&out, 4, 3, 0), [255, 255, 255, 255]);
}

#[test]
fn a_move_reports_where_the_selection_went() {
    let src = ramp(6, 6);
    let area = Area { x: 1, y: 1, w: 2, h: 2 };
    let (out, went) = move_active_layer(&src, 6, 6, Some(area), 4, -2, None, &blend);
    assert_eq!(went, Some((5, 0, 6, 1)));
    assert_eq!(px(&out, 6, 5, 0), px(&src, 6, 1, 2));
    let (all, none) = move_active_layer(&src, 6, 6, None, 1, 0, None, &blend);
    assert_eq!(none, None);
    assert_eq!(all, shift_pixels(&src, 6, 6, 1, 0));
}

#[test]
fn shapes_move_with_what_they_select() {
    let across = |x: Real| re(fl(x) + 0.25);
    let down = |y: Real| re(fl(y) - 0.5);
    let e = SelectionShape::Ellipse { cx: re(0.25), cy: re(0.75), rx: re(0.1), ry: re(0.2) };
    match move_shape(e, 1, -2, &across, &down) {
        SelectionShape::Ellipse { cx, cy, rx, ry } => {
            assert_eq!((fl(cx), fl(cy), fl(rx), fl(ry)), (0.5, 0.25, 0.1, 0.2));
        }
        other => panic!("{other:?}"),
    }
    match move_shape(SelectionShape::Polygon(vec![(re(0.0), re(0.5))]), 1, -2, &across, &down) {
        SelectionShape::Polygon(p) => assert_eq!((fl(p[0].0), fl(p[0].1)), (0.25, 0.0)),
        other => panic!("{other:?}"),
    }
    let m = SelectionShape::Mask { width: 2, height: 2, data: vec![1, 2, 3, 4] };
    match move_shape(m, 1, 0, &across, &down) {
        SelectionShape::Mask { width, height, data } => {
            assert_eq!((width, height, data), (2, 2, vec![0, 1, 0, 3]));
        }
        other => panic!("{other:?}"),
    }
    assert_eq!(shift_mask(&[1, 2, 3, 4], 2, 2, 0, 1), vec![0, 0, 1, 2]);
}

#[test]
fn small_polygons_select_nothing_and_holes_stay_open() {
    let line = SelectionShape::Polygon(vec![(re(0.0), re(0.0)), (re(1.0), re(1.0))]);
    assert_eq!(mask_of(3, 2, &line), vec![0; 6]);
    // Two squares in one polygon, the inner one wound to leave a hole.
    let ring = SelectionShape::Polygon(vec![
        (re(0.0), re(0.0)),
        (re(1.0), re(0.0)),
        (re(1.0), re(1.0)),
        (re(0.0), re(1.0)),
        (re(0.0), re(0.0)),
        (re(0.25), re(0.25)),
        (re(0.25), re(0.75)),
        (re(0.75), re(0.75)),
        (re(0.75), re(0.25)),
        (re(0.25), re(0.25)),
    ]);
    let m = mask_of(8, 8, &ring);
    assert_eq!(m[0], 255);
    assert_eq!(m[3 * 8 + 3], 0);
}

#[test]
fn numbers_are_put_in_order() {
    let v: Vec<Real> = [2.0f32, -1.0, 0.5, -1.0, 7.25].iter().map(|&x| re(x)).collect();
    let s: Vec<f32> = sort_numbers(&v).into_iter().map(fl).collect();
    assert_eq!(s, vec![-1.0, -1.0, 0.5, 2.0, 7.25]);
}

#[test]
fn an_empty_mask_has_no_bounds() {
    assert_eq!(mask_bounds(3, 2, &[0; 6]), None);
    let b = mask_bounds(3, 2, &[0, 0, 0, 0, 1, 0]).unwrap();
    assert_eq!((b.x0, b.y0, b.x1, b.y1), (1, 1, 2, 2));
    let none = SelectionShape::Mask { width: 3, height: 2, data: vec![0; 6] };
    assert_eq!(bounds_of(&none), [0.0; 4]);
}

#[test]
fn scissors_have_at_least_one_cell() {
    let floor = |e: Real, n: u32| (fl(e) * n as f32).floor() as u32;
    let ceil = |e: Real, n: u32| (fl(e) * n as f32).ceil() as u32;
    assert_eq!(selection_scissor(None, 10, 10, &floor, &ceil), None);
    assert_eq!(selection_scissor(Some(edges([0.5, 0.0, 0.5, 1.0])), 10, 10, &floor, &ceil), None);
    assert_eq!(
        selection_scissor(Some(edges([0.25, 0.5, 0.75, 1.0])), 8, 4, &floor, &ceil),
        Some((2, 2, 4, 2))
    );
    let f = |e: Real, n: usize| (fl(e) * n as f32).floor() as usize;
    let c = |e: Real, n: usize| (fl(e) * n as f32).ceil() as usize;
    assert_eq!(
        selection_area(Some(edges([1.0, 0.0, 2.0, 0.5])), 4, 4, &f, &c),
        Some(Area { x: 3, y: 0, w: 5, h: 2 })
    );
    assert_eq!(
        fill_area(Some(edges([0.0, 0.0, 0.5, 1.0])), 4, 4, &f, &c),
        Area { x: 0, y: 0, w: 2, h: 4 }
    );
    assert_eq!(fill_area(None, 4, 3, &f, &c), Area { x: 0, y: 0, w: 4, h: 3 });
}

#[test]
fn the_wand_selects_a_shape_or_nothing() {
    let buf = vec![0u8; 4 * 4];
    match magic_wand_select(&buf, 2, 2, 1, 1, &|a: u8, b: u8| a == b) {
        Some(SelectionShape::Mask { width, height, data }) => {
            assert_eq!((width, height, data), (2, 2, vec![255; 4]));
        }
        other => panic!("{other:?}"),
    }
    assert!(magic_wand_select(&buf, 2, 2, 1, 1, &|_: u8, _: u8| false).is_none());
}

#[test]
fn blurs_are_exact_means() {
    // One row: each pass averages three values, the ends repeated.
    let m = vec![0u8, 0, 90, 0, 0];
    assert_eq!(feather_mask(&m, 5, 1, 1), vec![10, 20, 30, 20, 10]);
}

#[test]
fn pixels_are_picked_where_there_are_any() {
    let src = ramp(3, 2);
    assert_eq!(pick_pixel(&src, 3, 2, 1), Some(Pixel { r: 20, g: 10, b: 0, a: 255 }));
    assert_eq!(pick_pixel(&src, 3, 0, 2), None);
}

#[test]
fn strokes_are_held_to_a_mask() {
    let before = vec![10u8; 4 * 3];
    let after = vec![200u8; 4 * 3];
    let mix = |a: Pixel, b: Pixel, c: u8| {
        let to = |p: u8, q: u8| p + ((q - p) as u32 * c as u32 / 255) as u8;
        Pixel { r: to(a.r, b.r), g: to(a.g, b.g), b: to(a.b, b.b), a: to(a.a, b.a) }
    };
    let held = end_stroke_masked(&before, &after, 3, 1, &[0, 255, 51], &mix);
    assert_eq!(held, vec![10, 10, 10, 10, 200, 200, 200, 200, 48, 48, 48, 48]);
}

#[test]
fn masks_without_cells_come_back_as_they_are() {
    assert_eq!(feather_mask(&[7, 8], 0, 900, 5), vec![7, 8]);
    assert_eq!(feather_mask(&[7, 8], 900, 0, usize::MAX), vec![7, 8]);
    assert_eq!(feather_mask(&[7, 8], 900, 900, 0), vec![7, 8]);
}

#[test]
fn moving_everything_is_a_shift() {
    let (w, h) = (5usize, 4usize);
    let src = ramp(w, h);
    for (dx, dy) in [(1, 0), (-2, 1), (0, 0), (9, 9)] {
        let moved = move_selection_pixels(&src, w, h, 0, 0, w, h, dx, dy, None, &blend);
        assert_eq!(moved, shift_pixels(&src, w, h, dx, dy), "by {dx}, {dy}");
    }
}

#[test]
fn edges_that_are_no_numbers_are_not_shut() {
    let floor = |e: Real, n: u32| (fl(e) * n as f32).floor() as u32;
    let ceil = |e: Real, n: u32| (fl(e) * n as f32).ceil() as u32;
    let scissor = |e: [f32; 4]| selection_scissor(Some(edges(e)), 8, 4, &floor, &ceil);
    assert_eq!(scissor([f32::NAN, 0.0, 0.5, 1.0]), Some((0, 0, 4, 4)));
    assert_eq!(scissor([0.25, f32::NAN, f32::NAN, 1.0]), Some((2, 0, 1, 4)));
    assert_eq!(scissor([f32::NAN, 0.5, 0.5, 0.5]), None);
    assert_eq!(scissor([0.5, 0.0, 0.25, 1.0]), None);
    let f = |e: Real, n: usize| (fl(e) * n as f32).floor() as usize;
    let c = |e: Real, n: usize| (fl(e) * n as f32).ceil() as usize;
    let area = |e: [f32; 4]| selection_area(Some(edges(e)), 8, 4, &f, &c);
    assert_eq!(area([0.0, 0.0, f32::NAN, 0.5]), Some(Area { x: 0, y: 0, w: 1, h: 2 }));
    assert_eq!(area([0.0, 0.5, f32::NAN, 0.5]), None);
}

#[test]
fn cuts_of_cuts_are_cuts() {
    let src = ramp(6, 5);
    let once = crop_pixels(&src, 6, 5, 1, 1, 4, 3);
    let twice = crop_pixels(&once, 4, 3, 1, 0, 2, 9);
    assert_eq!(twice, crop_pixels(&src, 6, 5, 2, 1, 2, 3));
}

#[test]
fn feathering_more_gives_more() {
    let (w, h) = (7usize, 6usize);
    let less: Vec<u8> = (0..w * h).map(|i| (i * 37 % 200) as u8).collect();
    let more: Vec<u8> = less.iter().enumerate().map(|(i, m)| m + (i % 5) as u8 * 10).collect();
    for r in 0..4 {
        let (a, b) = (feather_mask(&more, w, h, r), feather_mask(&less, w, h, r));
        assert!(a.iter().zip(&b).all(|(x, y)| x >= y));
    }
}

#[test]
fn opaque_pixels_take_the_place_of_others() {
    for c in 0..=255u8 {
        let over = Pixel { r: c, g: 255 - c, b: c / 2, a: 255 };
        let under = Pixel { r: 9, g: 200, b: c, a: c };
        assert_eq!(blend(under, over, 255), over, "as blending gives it");
    }
    let src = [9, 9, 9, 255, 100, 150, 200, 255];
    let lost = |_: Pixel, _: Pixel, _: u8| Pixel { r: 1, g: 1, b: 1, a: 1 };
    let moved = move_selection_pixels(&src, 2, 1, 1, 0, 1, 1, -1, 0, None, &lost);
    assert_eq!(moved, vec![100, 150, 200, 255, 0, 0, 0, 0]);
    let moved = move_selection_pixels(&src, 2, 1, 1, 0, 1, 1, -1, 0, Some(&[255, 254]), &lost);
    assert_eq!(moved, vec![1, 1, 1, 1, 0, 0, 0, 0], "partly covered, so blended");
}
