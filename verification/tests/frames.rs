//! What is drawn in a frame, what is flattened, and the numbers both are made of.

use sweet::compositor::{
    adjust_params, adjustment_passes, blend_params, composite, AdjustPass, AdjustmentEntry,
    CompEntry, LayerEntry, PassOp,
};
use sweet::document::Document;
use sweet::frame::{
    frame_outcome, frame_plan, pack_draws, pass_order, resize, FrameBudget, Pass, Projection,
    RenderResult, Step, SurfaceOutcome, OBJECT_SLOTS,
};
use sweet::kinds::{AdjustmentKind, BlendMode, Modifier, ObjectKind};
use sweet::number::{Real, Vec3};
use sweet::object::Aabb;
use sweet::overlay::{
    aabb_line_vertices, checker_pixels, gizmo_axis_lines, skeleton_lines, square_indices,
    uv_sphere_vertices, ArrowPlace, GizmoAxis,
};
use sweet::suite::{WorkingSpace, TOKENS_PATH};

fn re(x: f32) -> Real {
    Real { bits: x.to_bits() }
}

fn fl(r: Real) -> f32 {
    f32::from_bits(r.bits)
}

fn at(x: f32, y: f32, z: f32) -> Vec3 {
    Vec3 { x: re(x), y: re(y), z: re(z) }
}

#[test]
fn numbers_compare_as_floats_do() {
    let all = [
        f32::NEG_INFINITY,
        -2.5,
        -1e-40,
        -0.0,
        0.0,
        1e-40,
        0.01,
        1.0,
        f32::MAX,
        f32::INFINITY,
        f32::NAN,
    ];
    for a in all {
        for b in all {
            assert_eq!(re(a).lt(re(b)), a < b, "{a} < {b}");
            assert_eq!(re(a).le(re(b)), a <= b, "{a} <= {b}");
            assert_eq!(re(a).equals(re(b)), a == b, "{a} == {b}");
            if !a.is_nan() && !b.is_nan() {
                assert_eq!(fl(re(a).min(re(b))), a.min(b));
                assert_eq!(fl(re(a).max(re(b))), a.max(b));
            }
        }
        assert_eq!(re(a).is_nan(), a.is_nan());
        assert_eq!(re(a).is_finite(), a.is_finite());
        assert_eq!(re(a).negated().bits, (-a).to_bits());
        if !a.is_nan() {
            assert_eq!(fl(re(a).clamp(re(0.0), re(1.0))), a.clamp(0.0, 1.0));
        }
    }
}

#[test]
fn numbers_are_alike_as_they_are_written() {
    assert!(re(f32::NAN).is_alike(re(f32::INFINITY)), "both are written as null");
    assert!(!re(f32::NAN).is_alike(re(0.0)));
    assert!(re(0.5).is_alike(re(0.5)));
    assert!(!re(0.5).is_alike(re(0.25)));
}

#[test]
fn blurs_take_two_passes() {
    let blur = adjustment_passes(&AdjustmentKind::GaussianBlur { radius: re(4.0) });
    assert_eq!(blur.len(), 2);
    assert_eq!((blur[0].mode, fl(blur[0].p0), fl(blur[0].p1), fl(blur[0].p2)), (12, 4.0, 1.0, 0.0));
    assert_eq!((blur[1].mode, fl(blur[1].p1), fl(blur[1].p2)), (12, 0.0, 1.0));
    for (i, kind) in AdjustmentKind::all_defaults().iter().enumerate() {
        let passes = adjustment_passes(kind);
        assert_eq!(passes[0].mode, i as u32);
    }
    let hue = AdjustmentKind::HueSaturation {
        hue: re(0.1),
        saturation: re(1.2),
        lightness: re(-0.3),
    };
    let pass = adjustment_passes(&hue)[0];
    assert_eq!((fl(pass.p0), fl(pass.p1), fl(pass.p2)), (0.1, 1.2, -0.3));
}

#[test]
fn buffers_take_turns() {
    let layer = |blend_mode, opacity: f32| {
        CompEntry::Layer(LayerEntry { view: "picture", blend_mode, opacity: re(opacity) })
    };
    let entries = vec![
        layer(BlendMode::Normal, 1.0),
        CompEntry::Adjustment(AdjustmentEntry {
            kind: AdjustmentKind::GaussianBlur { radius: re(2.0) },
        }),
        layer(BlendMode::Multiply, 0.5),
        layer(BlendMode::Screen, 1.0),
    ];
    let (passes, copy_back) = composite(&entries);
    let turns: Vec<(usize, bool)> = passes.iter().map(|p| (p.entry, p.from_first)).collect();
    assert_eq!(turns, vec![(0, true), (1, false), (1, true), (2, false), (3, true)]);
    assert_eq!(passes[3].op, PassOp::Blend { mode: 1, opacity: re(0.5) });
    assert!(copy_back, "the result is in the second buffer");
    let (none, copy_back) = composite::<u8>(&vec![]);
    assert!(none.is_empty() && !copy_back);
}

#[test]
fn shaders_are_told_words() {
    let told = blend_params(3, re(1.0));
    assert_eq!(told[0..4], 3u32.to_ne_bytes());
    assert_eq!(told[4..8], 1.0f32.to_ne_bytes());
    assert_eq!(told[8..16], [0; 8]);
    let pass = AdjustPass { mode: 12, p0: re(4.0), p1: re(0.0), p2: re(1.0) };
    let (first, second) = adjust_params(pass, re(0.25), re(0.5));
    assert_eq!(first[0..4], 12u32.to_ne_bytes());
    assert_eq!(first[4..8], 4.0f32.to_ne_bytes());
    assert_eq!(first[12..16], 1.0f32.to_ne_bytes());
    assert_eq!(second[0..4], 0.25f32.to_ne_bytes());
    assert_eq!(second[4..8], 0.5f32.to_ne_bytes());
}

#[test]
fn passes_come_in_order() {
    assert_eq!(pass_order()[0], Pass::ClusterBuild);
    assert_eq!(pass_order()[5], Pass::Post);
    assert_eq!(Projection::Perspective.toggle(), Projection::Orthographic);
    assert_eq!(Projection::Perspective.toggle().toggle(), Projection::Perspective);
    assert_eq!(Projection::Orthographic.label(), "orthographic");
    assert_eq!(TOKENS_PATH, "design-tokens/tokens.toml");
    assert_ne!(WorkingSpace::LinearSrgb, WorkingSpace::AcesCg);
}

#[test]
fn slow_frames_are_reported_now_and_again() {
    let mut budget = FrameBudget::default();
    assert!(!budget.record(re(3.0), 5), "in time");
    assert!(budget.record(re(20.0), 1));
    assert!(!budget.record(re(15.0), 0), "reported a moment ago");
    assert_eq!(fl(budget.last_frame_ms), 15.0);
    assert_eq!(fl(budget.peak_frame_ms), 20.0);
    assert_eq!(budget.frames, 3);
}

#[test]
fn surfaces_keep_at_least_a_pixel() {
    assert_eq!(resize((10, 10), 0, 0), Some((1, 1)));
    assert_eq!(resize((10, 10), 10, 10), None);
    assert_eq!(resize((10, 10), 10, 11), Some((10, 11)));
}

#[test]
fn frames_are_drawn_from_solids_to_overlays() {
    let mut doc = Document::new();
    let origin = at(0.0, 0.0, 0.0);
    let board = doc.add(ObjectKind::PaintCanvas, origin);
    let mesh = doc.add(ObjectKind::Mesh, origin);
    let hidden = doc.add(ObjectKind::Cube, origin);
    let sphere = doc.add(ObjectKind::Sphere, origin);
    let painted = doc.add(ObjectKind::Mesh, origin);
    doc.get_mut(hidden).unwrap().visibility = false;
    doc.set_selection(Some(mesh));
    doc.set_selected_face(Some(2));
    let plan = frame_plan(&doc, OBJECT_SLOTS, &vec![painted], true, false, true);
    assert_eq!(
        plan,
        vec![
            Step::Primitive { sphere: true, slot: 4 },
            Step::Mesh { at: 1, slot: 2, painted: false, highlight: Some(2) },
            Step::Mesh { at: 4, slot: 5, painted: true, highlight: None },
            Step::Plane { painting: true, slot: 1 },
            Step::Outline { at: 1, slot: 2 },
            Step::Gizmo,
            Step::Skeleton,
            Step::Grid,
        ]
    );
    doc.get_mut(mesh).unwrap().modifiers.push(Modifier::Subdivide { levels: 1 });
    let plan = frame_plan(&doc, OBJECT_SLOTS, &vec![], false, true, false);
    assert!(
        plan.contains(&Step::Mesh { at: 1, slot: 2, painted: false, highlight: None }),
        "faces are not lit through modifiers"
    );
    assert_eq!(plan[plan.len() - 2..], [Step::Snap, Step::Grid]);
    let draws = pack_draws(&doc.objects(), 3);
    let ids: Vec<_> = draws.iter().map(|d| d.id).collect();
    assert_eq!(ids, vec![board, mesh], "no slot is left for the others");
    assert!(doc.get(sphere).is_some());
}

#[test]
fn arrows_have_five_lines() {
    let lines = gizmo_axis_lines(Some(GizmoAxis::Y), &|axis, place, lit| (axis, place, lit));
    assert_eq!(lines.len(), 30);
    assert_eq!(lines[0], (GizmoAxis::X, ArrowPlace::Origin, false));
    assert_eq!(lines[11], (GizmoAxis::Y, ArrowPlace::Tip, true));
    assert_eq!(lines[29], (GizmoAxis::Z, ArrowPlace::Point, false));
    assert_eq!(GizmoAxis::Z.unit(), (0, 0, 1));
}

#[test]
fn bones_have_a_cross_at_their_head() {
    let segments = vec![(at(0.0, 0.0, 0.0), at(0.0, 2.0, 0.0))];
    let lines = skeleton_lines(&segments, &|head, _tail, axis, past| {
        let u = axis.unit();
        let s = if past { 0.5 } else { -0.5 };
        at(
            fl(head.x) + s * u.0 as f32,
            fl(head.y) + s * u.1 as f32,
            fl(head.z) + s * u.2 as f32,
        )
    });
    assert_eq!(lines.len(), 8);
    assert_eq!(lines[1], (at(0.0, 2.0, 0.0), false));
    assert_eq!(lines[4], (at(0.0, -0.5, 0.0), true));
    assert_eq!(lines[7], (at(0.0, 0.0, 0.5), true));
}

#[test]
fn boxes_have_twelve_lines() {
    let lines = aabb_line_vertices(Aabb { min: at(0.0, 0.0, 0.0), max: at(1.0, 2.0, 3.0) });
    assert_eq!(lines.len(), 24);
    assert_eq!((lines[0], lines[1]), (at(0.0, 0.0, 0.0), at(1.0, 0.0, 0.0)));
    assert_eq!((lines[22], lines[23]), (at(0.0, 2.0, 0.0), at(0.0, 2.0, 3.0)));
    for pair in lines.chunks(2) {
        let apart = (pair[0].x != pair[1].x) as u8
            + (pair[0].y != pair[1].y) as u8
            + (pair[0].z != pair[1].z) as u8;
        assert_eq!(apart, 1, "along one axis");
    }
}

#[test]
fn the_checker_has_two_colors() {
    let pixels = checker_pixels();
    assert_eq!(pixels.len(), 64 * 64 * 4);
    assert_eq!(pixels[0..4], [0x28, 0x2c, 0x31, 0xff]);
    assert_eq!(pixels[4 * 8..4 * 8 + 4], [0x16, 0x18, 0x1b, 0xff]);
    assert_eq!(pixels[4 * (8 * 64 + 8)], 0x28);
}

#[test]
fn spheres_are_grids_of_triangles() {
    let (corners, triangles) = uv_sphere_vertices(3, 2, &|lat, lon| (lat, lon));
    assert_eq!(corners.len(), 12);
    assert_eq!(corners[5], (1, 1));
    assert_eq!(triangles.len(), 36);
    assert_eq!(triangles[0..6], [0, 4, 5, 0, 5, 1]);
    assert!(triangles.iter().all(|i| (*i as usize) < corners.len()));
    assert_eq!(square_indices(2), vec![0, 1, 2, 0, 2, 3, 4, 5, 6, 4, 6, 7]);
}

#[test]
fn frames_go_by_what_the_surface_gave() {
    assert_eq!(frame_outcome(SurfaceOutcome::Success), RenderResult::Presented);
    assert_eq!(frame_outcome(SurfaceOutcome::Suboptimal), RenderResult::Presented);
    assert_eq!(frame_outcome(SurfaceOutcome::Timeout), RenderResult::Skipped);
    assert_eq!(frame_outcome(SurfaceOutcome::Occluded), RenderResult::Skipped);
    assert_eq!(frame_outcome(SurfaceOutcome::Validation), RenderResult::Skipped);
    assert_eq!(frame_outcome(SurfaceOutcome::Outdated), RenderResult::SurfaceLostOrOutdated);
    assert_eq!(frame_outcome(SurfaceOutcome::Lost), RenderResult::SurfaceLostOrOutdated);
}
