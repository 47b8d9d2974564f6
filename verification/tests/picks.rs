//! Rays, and the fixed solids.

use sweet::number::{Real, Vec3};
use sweet::object::Aabb;
use sweet::overlay::GizmoAxis;
use sweet::picking::{ray_aabb_world, ray_triangle, TriangleHit};
use sweet::solids::{cube_vertices, plane_vertices, uv_axes};

fn re(x: f32) -> Real {
    Real { bits: x.to_bits() }
}

fn fl(r: Real) -> f32 {
    f32::from_bits(r.bits)
}

fn at(x: f32, y: f32, z: f32) -> Vec3 {
    Vec3 { x: re(x), y: re(y), z: re(z) }
}

fn vector(p: Vec3) -> glam::Vec3 {
    glam::Vec3::new(fl(p.x), fl(p.y), fl(p.z))
}

fn crossing(edge: Real, o: Real, d: Real) -> Real {
    re((fl(edge) - fl(o)) * (1.0 / fl(d)))
}

fn entry(from: Vec3, dir: Vec3) -> Option<f32> {
    let shifted = |by: f32, o: Vec3, d: Vec3| (at(fl(o.x) - by, fl(o.y), fl(o.z)), d);
    let there = at(fl(from.x) + 4.0, fl(from.y), fl(from.z));
    ray_aabb_world(there, dir, 4.0, Aabb::unit(), &shifted, &crossing).map(fl)
}

#[test]
fn rays_enter_boxes_from_ahead() {
    assert_eq!(entry(at(0.0, 0.0, 3.0), at(0.0, 0.0, -1.0)), Some(2.5));
    assert_eq!(entry(at(0.0, 0.0, 3.0), at(0.0, 0.0, 1.0)), None, "the box is behind");
    assert_eq!(entry(at(0.0, 0.0, 0.0), at(0.0, 1.0, 0.0)), Some(0.0), "from inside");
    assert_eq!(entry(at(2.0, 0.0, 3.0), at(0.0, 0.0, -1.0)), None, "past the side");
    assert_eq!(entry(at(-2.0, -2.0, -2.0), at(1.0, 1.0, 1.0)), Some(1.5));
    assert_eq!(entry(at(-2.0, 0.0, -1.9), at(1.0, 0.0, 0.5)), None, "across the corner");
}

#[test]
fn triangles_are_hit_inside_and_ahead() {
    let hit = TriangleHit { det: re(1.0), u: re(0.25), v: re(0.25), uv: re(0.5), t: re(3.0) };
    assert_eq!(ray_triangle(hit).map(fl), Some(3.0));
    assert_eq!(ray_triangle(TriangleHit { det: re(-1e-9), ..hit }), None, "along the ray");
    assert_eq!(ray_triangle(TriangleHit { u: re(1.5), ..hit }), None);
    assert_eq!(ray_triangle(TriangleHit { u: re(f32::NAN), ..hit }), None);
    assert_eq!(ray_triangle(TriangleHit { v: re(-0.1), ..hit }), None);
    assert_eq!(ray_triangle(TriangleHit { uv: re(1.1), ..hit }), None);
    assert_eq!(ray_triangle(TriangleHit { t: re(1e-7), ..hit }), None, "where the ray begins");
}

#[test]
fn cubes_have_six_colored_faces() {
    let (corners, triangles) = cube_vertices();
    assert_eq!((corners.len(), triangles.len()), (24, 36));
    assert_eq!(corners[0].position, at(0.5, -0.5, 0.5));
    assert_eq!(corners[23].position, at(0.5, 0.5, -0.5));
    assert_eq!(corners[0].color.map(fl), [0.95, 0.34, 0.30, 1.0]);
    assert_eq!(corners[23].color.map(fl), [0.86, 0.45, 0.66, 1.0]);
    assert_eq!(triangles[6..12], [4, 5, 6, 4, 6, 7]);
    for t in triangles.chunks(3) {
        let p: Vec<glam::Vec3> = t.iter().map(|i| vector(corners[*i as usize].position)).collect();
        let n = (p[1] - p[0]).cross(p[2] - p[0]);
        assert!(n.dot(p[0]) > 0.0, "faces look outward");
    }
}

#[test]
fn planes_are_flat_squares() {
    let (corners, triangles) = plane_vertices();
    let places: Vec<Vec3> = corners.iter().map(|c| c.position).collect();
    assert_eq!(
        places,
        vec![at(-0.5, -0.5, 0.0), at(0.5, -0.5, 0.0), at(0.5, 0.5, 0.0), at(-0.5, 0.5, 0.0)]
    );
    assert_eq!(corners[2].color.map(fl), [0.89, 0.70, 0.25, 1.0]);
    assert_eq!(triangles, vec![0, 1, 2, 0, 2, 3]);
}

#[test]
fn paintings_lie_across_what_a_face_looks_along() {
    assert_eq!(uv_axes(at(-1.0, 0.5, 0.5)), (GizmoAxis::Z, GizmoAxis::Y));
    assert_eq!(uv_axes(at(0.1, -0.9, 0.2)), (GizmoAxis::X, GizmoAxis::Z));
    assert_eq!(uv_axes(at(0.0, 0.0, 1.0)), (GizmoAxis::X, GizmoAxis::Y));
    assert_eq!(uv_axes(at(0.5, 0.5, 0.5)), (GizmoAxis::Z, GizmoAxis::Y), "the first of equals");
}
