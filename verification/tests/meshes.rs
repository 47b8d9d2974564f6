//! Meshes: half-edges, edits, subdivision, shapes, brushes and rigs.

use sweet::brush::{Corner, Sculptor};
use sweet::halfedge::{undirected, HalfEdgeMesh};
use sweet::mesh::{Face, Mesh};
use sweet::number::{Quat, Real, Vec3};
use sweet::overlay::GizmoAxis;
use sweet::picking::TriangleHit;
use sweet::rig::{Bone, Skeleton, Skin};
use sweet::spine::{bounds, spine_axis};
use sweet::subdivide::VertexRule;

fn re(x: f32) -> Real {
    Real { bits: x.to_bits() }
}

fn fl(r: Real) -> f32 {
    f32::from_bits(r.bits)
}

fn point(p: glam::Vec3) -> Vec3 {
    Vec3 { x: re(p.x), y: re(p.y), z: re(p.z) }
}

fn at(x: f32, y: f32, z: f32) -> Vec3 {
    point(glam::Vec3::new(x, y, z))
}

fn vector(p: Vec3) -> glam::Vec3 {
    glam::Vec3::new(fl(p.x), fl(p.y), fl(p.z))
}

/// The mean of the points of a face.
fn middle(points: Vec<Vec3>) -> Vec3 {
    let mut sum = glam::Vec3::ZERO;
    for p in &points {
        sum += vector(*p);
    }
    point(sum / points.len().max(1) as f32)
}

/// The normal of a face by Newell's method, upward where there is none.
fn normal(points: Vec<Vec3>) -> Vec3 {
    let mut n = glam::Vec3::ZERO;
    for k in 0..points.len() {
        let a = vector(points[k]);
        let b = vector(points[(k + 1) % points.len()]);
        n.x += (a.y - b.y) * (a.z + b.z);
        n.y += (a.z - b.z) * (a.x + b.x);
        n.z += (a.x - b.x) * (a.y + b.y);
    }
    let len = n.length();
    if len < 1e-9 {
        at(0.0, 1.0, 0.0)
    } else {
        point(n / len)
    }
}

fn raise(p: Vec3, n: Vec3, t: Real) -> Vec3 {
    point(vector(p) + vector(n) * fl(t))
}

fn pull(p: Vec3, toward: Vec3, t: Real) -> Vec3 {
    point(vector(p) + (vector(toward) - vector(p)) * fl(t))
}

fn midpoint(p: Vec3, q: Vec3) -> Vec3 {
    point((vector(p) + vector(q)) * 0.5)
}

fn shift(p: Vec3, offset: Vec3, c: u32) -> Vec3 {
    point(vector(p) + vector(offset) * c as f32)
}

fn join(p: Vec3, q: Vec3, sides: Option<(Vec3, Vec3)>) -> Vec3 {
    match sides {
        Some((f, g)) => point((vector(p) + vector(q) + vector(f) + vector(g)) / 4.0),
        None => midpoint(p, q),
    }
}

fn relax(p: Vec3, rule: VertexRule) -> Vec3 {
    let p = vector(p);
    match rule {
        VertexRule::Crease { first, second } => {
            let a = vector(midpoint(first.0, first.1));
            let b = vector(midpoint(second.0, second.1));
            point((a + b + p * 6.0) / 8.0)
        }
        VertexRule::Smooth { face_points, edges } => {
            if face_points.is_empty() {
                return point(p);
            }
            let n = face_points.len() as f32;
            let faces: glam::Vec3 = face_points.iter().map(|f| vector(*f)).sum();
            let mids: glam::Vec3 = edges.iter().map(|e| vector(midpoint(e.0, e.1))).sum();
            point((faces / n + mids / edges.len() as f32 * 2.0 + p * (n - 3.0)) / n)
        }
    }
}

/// The cells of points in a grid over their bounds.
fn assign(points: Vec<Vec3>, side: usize) -> Vec<usize> {
    let (mut mn, mut mx) = (glam::Vec3::splat(f32::MAX), glam::Vec3::splat(f32::MIN));
    for p in &points {
        mn = mn.min(vector(*p));
        mx = mx.max(vector(*p));
    }
    let span = mx - mn + glam::Vec3::splat(1e-6);
    let cell = |d: f32, s: f32| ((d / s) * side as f32).min(side as f32 - 1.0) as usize;
    points
        .iter()
        .map(|p| {
            let d = vector(*p) - mn;
            cell(d.x, span.x) + cell(d.y, span.y) * side + cell(d.z, span.z) * side * side
        })
        .collect()
}

/// How long a side is.
fn side(lo: Real, hi: Real) -> Real {
    re(fl(hi) - fl(lo))
}

fn halfway(lo: Real, hi: Real) -> Real {
    re((fl(lo) + fl(hi)) * 0.5)
}

/// The end of the first `i` of `n` equal parts of a line.
fn along(start: Vec3, end: Vec3, i: usize, n: usize) -> Vec3 {
    point(vector(start).lerp(vector(end), i as f32 / n as f32))
}

fn distance(p: Vec3, a: Vec3, b: Vec3) -> Real {
    let (p, a, b) = (vector(p), vector(a), vector(b));
    let ab = b - a;
    let len2 = ab.length_squared();
    if len2 < 1e-12 {
        return re((p - a).length());
    }
    let t = ((p - a).dot(ab) / len2).clamp(0.0, 1.0);
    re((p - (a + ab * t)).length())
}

fn weigh(d0: Real, d1: Real) -> (Real, Real) {
    let w0 = 1.0 / (fl(d0) + 1e-4);
    let w1 = 1.0 / (fl(d1) + 1e-4);
    (re(w0 / (w0 + w1)), re(w1 / (w0 + w1)))
}

fn rest_frame(head: Vec3) -> glam::Mat4 {
    glam::Mat4::from_translation(vector(head))
}

fn posed_frame(head: Vec3, parent: Option<Vec3>, pose: Quat) -> glam::Mat4 {
    let origin = match parent {
        Some(p) => vector(p),
        None => glam::Vec3::ZERO,
    };
    let turn = glam::Quat::from_xyzw(fl(pose.x), fl(pose.y), fl(pose.z), fl(pose.w));
    glam::Mat4::from_translation(vector(head) - origin) * glam::Mat4::from_quat(turn)
}

fn composed(a: glam::Mat4, b: glam::Mat4) -> glam::Mat4 {
    a * b
}

fn unbound(posed: glam::Mat4, rest: glam::Mat4) -> glam::Mat4 {
    posed * rest.inverse()
}

fn matrices(skeleton: &Skeleton) -> Vec<glam::Mat4> {
    skeleton.skinning_matrices(&rest_frame, &posed_frame, &composed, &unbound)
}

fn blend(p: Vec3, given: Vec<(glam::Mat4, Real)>) -> Option<Vec3> {
    let mut acc = glam::Vec3::ZERO;
    let mut sum = 0.0f32;
    for (mat, weight) in given {
        acc += mat.transform_point3(vector(p)) * fl(weight);
        sum += fl(weight);
    }
    if sum > 1e-6 {
        Some(point(acc / sum))
    } else {
        None
    }
}

/// A normal of length one from the corners at a vertex, each face weighted by its angle there.
fn sum_up(corners: Vec<Corner>) -> Vec3 {
    let mut n = glam::Vec3::ZERO;
    for c in &corners {
        let (a, b) = (vector(c.before) - vector(c.at), vector(c.after) - vector(c.at));
        n += vector(c.normal) * a.angle_between(b);
    }
    point(n.normalize_or_zero())
}

/// How strongly a brush touches a point.
fn fall(p: Vec3, center: Vec3, radius: Real) -> Option<Real> {
    let d2 = (vector(p) - vector(center)).length_squared();
    let r2 = fl(radius) * fl(radius);
    if d2 >= r2 {
        return None;
    }
    let f = (std::f32::consts::FRAC_PI_2 * (d2 / r2).sqrt()).cos();
    Some(re(f * f))
}

fn touches(p: Vec3, center: Vec3, radius: Real) -> bool {
    (vector(p) - vector(center)).length_squared() < fl(radius) * fl(radius)
}

fn push(p: Vec3, n: Vec3, strength: Real, f: Real) -> Vec3 {
    point(vector(p) + vector(n) * (fl(strength) * fl(f)))
}

fn ease(p: Vec3, around: Vec<Vec3>, factor: Real, f: Real) -> Vec3 {
    let mean = vector(middle(around));
    point(vector(p) + (mean - vector(p)) * (fl(factor) * fl(f)))
}

fn level(normals: Vec<Vec3>) -> Option<Vec3> {
    let sum: glam::Vec3 = normals.iter().map(|n| vector(*n)).sum();
    let n = sum.normalize_or_zero();
    if n.length_squared() < 1e-6 {
        None
    } else {
        Some(point(n))
    }
}

fn press(p: Vec3, plane: Vec3, center: Vec3, strength: Real, f: Real) -> Vec3 {
    let off = (vector(p) - vector(center)).dot(vector(plane));
    point(vector(p) - vector(plane) * (off * fl(strength) * fl(f)))
}

fn gather(p: Vec3, center: Vec3, strength: Real, f: Real) -> Vec3 {
    let inward = (vector(center) - vector(p)).normalize_or_zero();
    point(vector(p) + inward * (fl(strength) * fl(f)))
}

/// The place of a point in a mesh that lies where it is.
fn here(_: (), p: Vec3) -> Vec3 {
    p
}

/// What the test of a ray against a triangle measures.
fn measure(origin: Vec3, dir: Vec3, a: Vec3, b: Vec3, c: Vec3) -> TriangleHit {
    let (origin, dir) = (vector(origin), vector(dir));
    let (v0, v1, v2) = (vector(a), vector(b), vector(c));
    let (e1, e2) = (v1 - v0, v2 - v0);
    let p = dir.cross(e2);
    let det = e1.dot(p);
    let s = origin - v0;
    let u = s.dot(p) / det;
    let q = s.cross(e1);
    let v = dir.dot(q) / det;
    TriangleHit { det: re(det), u: re(u), v: re(v), uv: re(u + v), t: re(e2.dot(q) / det) }
}

fn rigged(mesh: &Mesh, bones: u32) -> Skeleton {
    Skeleton::auto_rig_from_mesh(mesh, bones, &side, &halfway, &along)
}

fn outline(mesh: &Mesh, f: usize) -> Vec<Vec3> {
    mesh.faces[f].indices.iter().map(|&i| mesh.vertex(i)).collect()
}

fn in_bounds(mesh: &Mesh) -> bool {
    let nv = mesh.vertices.len() as u32;
    mesh.faces.iter().all(|f| f.indices.iter().all(|&i| i < nv))
}

/// A strip of three quads.
fn strip() -> Mesh {
    let mut vertices = Vec::new();
    for x in 0..4 {
        vertices.push(at(x as f32, 0.0, 0.0));
        vertices.push(at(x as f32, 1.0, 0.0));
    }
    let mut faces = Vec::new();
    for x in 0..3u32 {
        faces.push(Face { indices: vec![2 * x, 2 * x + 2, 2 * x + 3, 2 * x + 1] });
    }
    Mesh { vertices, faces }
}

#[test]
fn half_edge_round_trips_a_cube() {
    let cube = Mesh::cube();
    let he = HalfEdgeMesh::from_mesh(&cube);
    assert_eq!(he.half_edges.len(), 24);
    assert!(
        he.half_edges.iter().all(|h| h.twin.is_some()),
        "a watertight cube has no boundary edges"
    );
    let back = he.to_mesh();
    assert_eq!(back.vertices.len(), cube.vertices.len());
    assert_eq!(back.faces.len(), cube.faces.len());
    for (a, b) in cube.faces.iter().zip(back.faces.iter()) {
        assert_eq!(a.indices, b.indices, "face winding preserved");
    }
}

#[test]
fn baking_gives_the_same_mesh_back() {
    let mut open = Mesh::cube();
    open.faces.pop();
    for mesh in [Mesh::cube(), Mesh::empty(), open] {
        let back = HalfEdgeMesh::from_mesh(&mesh).to_mesh();
        assert_eq!(back.vertices, mesh.vertices);
        let rings = |m: &Mesh| m.faces.iter().map(|f| f.indices.clone()).collect::<Vec<_>>();
        assert_eq!(rings(&back), rings(&mesh));
    }
}

#[test]
fn twins_mirror_each_other() {
    let he = HalfEdgeMesh::from_mesh(&Mesh::cube());
    for (i, h) in he.half_edges.iter().enumerate() {
        let twin = h.twin.unwrap();
        assert_eq!(he.half_edges[twin as usize].twin, Some(i as u32));
        assert_eq!(he.half_edges[twin as usize].origin, he.dest(i as u32));
    }
}

#[test]
fn lone_edges_are_not_faces() {
    let mesh = Mesh {
        vertices: vec![at(0.0, 0.0, 0.0), at(1.0, 0.0, 0.0), at(0.0, 1.0, 0.0)],
        faces: vec![Face { indices: vec![0, 1] }, Face { indices: vec![0, 1, 2] }],
    };
    let he = HalfEdgeMesh::from_mesh(&mesh);
    assert_eq!(he.half_edges.len(), 3);
    assert!(he.half_edges.iter().all(|h| h.twin.is_none()));
    assert_eq!(he.face_len(0), 3);
    let back = he.to_mesh();
    assert_eq!(back.faces.len(), 1);
    assert_eq!(back.faces[0].indices, vec![0, 1, 2]);
    assert!(he.vertex_fan(0).is_none(), "an open fan");
}

#[test]
fn vertex_fan_on_a_cube_corner_has_valence_three() {
    let cube = Mesh::cube();
    let he = HalfEdgeMesh::from_mesh(&cube);
    let fan = he.vertex_fan(0).expect("closed corner");
    assert_eq!(fan.len(), 3, "a cube corner meets three faces");
    assert!(
        fan.iter().all(|&h| he.half_edges[h as usize].origin == 0),
        "every fan half-edge leaves the vertex"
    );
}

#[test]
fn bevel_truncates_a_cube_corner() {
    let cube = Mesh::cube();
    assert!(cube.is_corner_closed(0));
    let beveled = cube.bevel_vertex(0, re(0.25), pull).expect("corner bevels");
    assert_eq!(beveled.vertices.len(), 10);
    assert_eq!(beveled.faces.len(), 7);
    assert!(
        beveled.faces.iter().all(|f| !f.indices.contains(&u32::MAX)),
        "no sentinel leaked"
    );
    let tris = beveled.faces.iter().filter(|f| f.indices.len() == 3).count();
    assert_eq!(tris, 1, "one triangular cap");
    let nv = beveled.vertices.len() as u32;
    assert!(beveled.faces.iter().all(|f| f.indices.iter().all(|&i| i < nv)));
}

#[test]
fn bevels_are_held_to_their_range() {
    let cube = Mesh::cube();
    let far = cube.bevel_vertex(0, re(2.0), pull).unwrap();
    let most = cube.bevel_vertex(0, re(0.49), pull).unwrap();
    assert_eq!(far.vertices, most.vertices);
    let near = cube.bevel_edge(0, 1, re(-1.0), pull).unwrap();
    let least = cube.bevel_edge(0, 1, re(0.01), pull).unwrap();
    assert_eq!(near.vertices, least.vertices);
}

#[test]
fn open_corners_do_not_bevel() {
    let mesh = strip();
    assert!(mesh.is_corner_closed(0), "no fan, and so no face outside it");
    assert!(mesh.bevel_vertex(0, re(0.25), pull).is_none());
    let cube = Mesh::cube();
    let he = HalfEdgeMesh::from_mesh(&cube);
    assert!(he.vertex_fan(99).is_none());
}

#[test]
fn edge_ring_around_a_cube_closes_at_four() {
    let cube = Mesh::cube();
    let he = HalfEdgeMesh::from_mesh(&cube);
    let start = he.find_half_edge(0, 1).expect("edge 0-1 exists");
    let ring = he.edge_ring(start);
    assert_eq!(ring.len(), 4, "a cube ring is a closed band of 4 edges");
}

#[test]
fn edge_ring_on_a_strip_ends_at_the_border() {
    let he = HalfEdgeMesh::from_mesh(&strip());
    let start = he.find_half_edge(0, 1).unwrap();
    assert_eq!(he.edge_ring(start), vec![(0, 1), (2, 3), (4, 5)]);
    let along = he.find_half_edge(0, 2).unwrap();
    assert_eq!(he.edge_ring(along), vec![(0, 2)]);
    assert_eq!(he.edge_loop(along), vec![(0, 2), (2, 4), (4, 6)]);
}

#[test]
fn loop_cut_splits_a_cube_band() {
    let cube = Mesh::cube();
    let cut = cube.loop_cut(0, 1, midpoint).expect("cube edge cuts");
    assert_eq!(cut.vertices.len(), cube.vertices.len() + 4);
    assert_eq!(cut.faces.len(), 10);
    assert!(cut.faces.iter().all(|f| f.indices.len() == 4));
    let nv = cut.vertices.len() as u32;
    assert!(cut.faces.iter().all(|f| f.indices.iter().all(|&i| i < nv)));
}

#[test]
fn loop_cut_places_midpoints() {
    let cut = strip().loop_cut(0, 1, midpoint).unwrap();
    assert_eq!(cut.vertices.len(), 11);
    assert_eq!(cut.faces.len(), 5);
    let mut mids: Vec<f32> = cut.vertices[8..].iter().map(|p| fl(p.x)).collect();
    mids.sort_by(|a, b| a.partial_cmp(b).unwrap());
    assert_eq!(mids, vec![0.0, 1.0, 2.0]);
    assert!(cut.vertices[8..].iter().all(|p| fl(p.y) == 0.5));
}

#[test]
fn loop_cut_rejects_a_nonexistent_edge() {
    let cube = Mesh::cube();
    assert!(cube.loop_cut(0, 6, midpoint).is_none(), "0 and 6 are not an edge");
}

#[test]
fn loop_cut_needs_a_quad() {
    let mesh = Mesh {
        vertices: vec![at(0.0, 0.0, 0.0), at(1.0, 0.0, 0.0), at(0.0, 1.0, 0.0)],
        faces: vec![Face { indices: vec![0, 1, 2] }],
    };
    assert!(mesh.loop_cut(0, 1, midpoint).is_none());
}

#[test]
fn edge_loop_on_a_cube_returns_a_loop() {
    let cube = Mesh::cube();
    let he = HalfEdgeMesh::from_mesh(&cube);
    let start = he.find_half_edge(0, 1).expect("edge exists");
    let lp = he.edge_loop(start);
    assert!(!lp.is_empty());
    assert!(lp.contains(&undirected(0, 1)));
}

#[test]
fn bevel_edge_chamfers_a_cube_edge() {
    let cube = Mesh::cube();
    let beveled = cube.bevel_edge(0, 1, re(0.2), pull).expect("edge bevels");
    assert_eq!(beveled.vertices.len(), 12);
    assert_eq!(beveled.faces.len(), 7);
    let quads = beveled.faces.iter().filter(|f| f.indices.len() == 4).count();
    assert!(quads >= 1, "at least one quad in the bevel result");
    let nv = beveled.vertices.len() as u32;
    assert!(beveled.faces.iter().all(|f| f.indices.iter().all(|&i| i < nv)));
}

#[test]
fn bevel_edge_rejects_nonexistent_edge() {
    let cube = Mesh::cube();
    assert!(cube.bevel_edge(0, 6, re(0.2), pull).is_none(), "0-6 is not an edge");
}

#[test]
fn bevel_edge_rejects_a_border() {
    assert!(strip().bevel_edge(0, 1, re(0.2), pull).is_none());
    assert!(strip().bevel_edge(2, 3, re(0.2), pull).is_some());
}

#[test]
fn catmull_clark_subdivides_and_smooths_a_cube() {
    let cube = Mesh::cube();
    let s = cube.catmull_clark(&middle, &join, &relax);
    assert_eq!(s.vertices.len(), 26);
    assert_eq!(s.faces.len(), 24);
    let corner = s
        .vertices
        .iter()
        .map(|v| vector(*v))
        .find(|v| v.x.abs() > 0.2 && v.y.abs() > 0.2 && v.z.abs() > 0.2)
        .expect("a relaxed corner");
    assert!(
        corner.x.abs() < 0.5 && corner.y.abs() < 0.5 && corner.z.abs() < 0.5,
        "corner moved inward: {corner:?}"
    );
}

#[test]
fn catmull_clark_keeps_a_border() {
    let square = Mesh {
        vertices: vec![
            at(0.0, 0.0, 0.0),
            at(8.0, 0.0, 0.0),
            at(8.0, 8.0, 0.0),
            at(0.0, 8.0, 0.0),
        ],
        faces: vec![Face { indices: vec![0, 1, 2, 3] }],
    };
    let s = square.catmull_clark(&middle, &join, &relax);
    assert_eq!(s.vertices.len(), 9);
    assert_eq!(s.faces.len(), 4);
    assert_eq!(s.vertices[0], at(0.5, 0.5, 0.0), "a corner is pulled by its two borders");
    assert_eq!(s.vertices[4], at(4.0, 4.0, 0.0), "the point of the face");
    assert_eq!(s.faces[0].indices[0], 0);
    assert_eq!(s.faces[0].indices[2], 4);
}

#[test]
fn mirror_and_array_modifiers_generate_geometry() {
    let cube = Mesh::cube();
    let m = cube.mirrored(0);
    assert_eq!(m.vertices.len(), 16);
    assert_eq!(m.faces.len(), 12);

    let a = cube.arrayed(3, at(2.0, 0.0, 0.0), &shift);
    assert_eq!(a.vertices.len(), 24);
    assert_eq!(a.faces.len(), 18);
    assert!(a.vertices[16..].iter().all(|v| fl(v.x) > 1.0));
}

#[test]
fn mirrors_turn_faces_round() {
    let mesh = Mesh {
        vertices: vec![at(1.0, 2.0, 3.0), at(4.0, 0.0, 0.0), at(0.0, 5.0, 0.0)],
        faces: vec![Face { indices: vec![0, 1, 2] }],
    };
    let m = mesh.mirrored(1);
    assert_eq!(m.faces[0].indices, vec![0, 1, 2]);
    assert_eq!(m.faces[1].indices, vec![3, 5, 4]);
    assert_eq!(m.vertices[3], at(1.0, -2.0, 3.0));
    assert_eq!(m.vertices[5], at(0.0, -5.0, 0.0));
    let one = mesh.arrayed(0, at(1.0, 0.0, 0.0), &shift);
    assert_eq!(one.vertices, mesh.vertices, "at least one copy");
    let two = mesh.arrayed(2, at(1.0, 0.0, 0.0), &shift);
    assert_eq!(two.faces[1].indices, vec![3, 4, 5]);
    assert_eq!(two.vertices[3], at(2.0, 2.0, 3.0));
}

#[test]
fn inset_adds_a_ring_without_destroying_the_face() {
    let mut m = Mesh::cube();
    let (v0, f0) = (m.vertices.len(), m.faces.len());
    assert!(m.inset_face(0, re(0.3), &middle, &pull));
    assert_eq!(m.vertices.len(), v0 + 4);
    assert_eq!(m.faces.len(), f0 + 4);
}

#[test]
fn insets_are_held_to_their_range() {
    let mut m = Mesh::cube();
    let before = outline(&m, 0);
    assert!(m.inset_face(0, re(-3.0), &middle, &pull));
    assert_eq!(outline(&m, 0), before, "nothing shrinks");
    assert!(!m.inset_face(99, re(0.3), &middle, &pull), "no such face");
}

#[test]
fn extrusion_stitches_the_rim() {
    let mut m = Mesh {
        vertices: vec![
            at(0.0, 0.0, 0.0),
            at(1.0, 0.0, 0.0),
            at(1.0, 1.0, 0.0),
            at(0.0, 1.0, 0.0),
        ],
        faces: vec![Face { indices: vec![0, 1, 2, 3] }],
    };
    assert!(m.extrude_face(0, re(2.0), &normal, &raise));
    assert_eq!(m.faces[0].indices, vec![4, 5, 6, 7]);
    assert_eq!(m.faces[1].indices, vec![0, 1, 5, 4]);
    assert_eq!(m.faces[4].indices, vec![3, 0, 4, 7]);
    assert_eq!(m.vertices[6], at(1.0, 1.0, 2.0));
    assert!(!m.extrude_face(5, re(1.0), &normal, &raise), "no such face");
}

#[test]
fn faces_become_fans() {
    let mesh = Mesh {
        vertices: vec![at(0.0, 0.0, 0.0); 5],
        faces: vec![
            Face { indices: vec![0, 1] },
            Face { indices: vec![0, 1, 2, 3] },
            Face { indices: vec![4, 3, 2] },
        ],
    };
    assert_eq!(mesh.triangulate(), vec![0, 1, 2, 0, 2, 3, 4, 3, 2]);
    let corners = mesh.tessellate(Some(2));
    assert_eq!(corners.len(), 9);
    assert_eq!((corners[0].face, corners[0].vertex, corners[0].lit), (1, 0, false));
    assert_eq!((corners[6].face, corners[6].vertex, corners[6].lit), (2, 4, true));
}

#[test]
fn rays_take_the_nearest_face() {
    let cube = Mesh::cube();
    let ahead = |_: (), o: Vec3, d: Vec3| (o, d);
    let (o, d) = (at(0.1, 10.0, 0.2), at(0.0, -1.0, 0.0));
    let (face, t) = cube.pick_face(o, d, (), &ahead, &measure).unwrap();
    assert!(outline(&cube, face).iter().all(|p| fl(p.y) == 0.5));
    assert_eq!(fl(t), 9.5);
    assert_eq!(cube.top_face_index(&normal), Some(face));
    let up = at(0.0, 1.0, 0.0);
    assert!(cube.pick_face(o, up, (), &ahead, &measure).is_none(), "the cube is behind");
    // The cube lies two further along the ray.
    let moved = |by: f32, o: Vec3, d: Vec3| (at(fl(o.x), fl(o.y) + by, fl(o.z)), d);
    assert_eq!(cube.pick_face(o, d, 2.0, &moved, &measure).map(|p| fl(p.1)), Some(11.5));
    assert!(Mesh::empty().top_face_index(&normal).is_none());
}

#[test]
fn auto_rig_produces_correct_bone_count() {
    let mesh = Mesh::cube();
    let skel = rigged(&mesh, 5);
    assert_eq!(skel.bones.len(), 5, "auto_rig should produce exactly n_bones bones");
    assert!(skel.bones[0].parent.is_none(), "root bone has no parent");
    for i in 1..skel.bones.len() {
        assert_eq!(skel.bones[i].parent, Some(i - 1), "bone {} should parent to {}", i, i - 1);
    }
}

#[test]
fn bones_are_numbered() {
    let skel = rigged(&Mesh::cube(), 0);
    assert_eq!(skel.bones.len(), 2, "at least two bones");
    assert_eq!(skel.bones[0].name, "Bone.000");
    assert_eq!(skel.bones[1].name, "Bone.001");
    assert_eq!(rigged(&Mesh::cube(), 13).bones[12].name, "Bone.012");
    assert!(rigged(&Mesh::empty(), 4).bones.is_empty());
}

#[test]
fn spines_run_along_the_longest_side() {
    assert_eq!(spine_axis(at(1.0, 1.0, 1.0)), GizmoAxis::Y, "of equals the upright one");
    assert_eq!(spine_axis(at(2.0, 1.0, 2.0)), GizmoAxis::X);
    assert_eq!(spine_axis(at(1.0, 1.0, 2.0)), GizmoAxis::Z);
    let mut mesh = Mesh::cube();
    for v in &mut mesh.vertices {
        v.x = re(fl(v.x) * 4.0 + 1.0);
    }
    let around = bounds(&mesh.vertices);
    assert_eq!((around.min, around.max), (at(-1.0, -0.5, -0.5), at(3.0, 0.5, 0.5)));
    let skel = rigged(&mesh, 4);
    assert_eq!(skel.bones[0].head, at(-1.0, 0.0, 0.0));
    assert_eq!(skel.bones[1].head, skel.bones[0].tail);
    assert_eq!(skel.bones[3].tail, at(3.0, 0.0, 0.0));
}

#[test]
fn auto_rig_bones_span_bounding_box() {
    let mesh = Mesh::cube();
    let skel = rigged(&mesh, 4);
    let span =
        (vector(skel.world_tail(skel.bones.len() - 1)) - vector(skel.world_head(0))).length();
    assert!(span > 0.8, "skeleton should span most of the mesh height; span={}", span);
}

#[test]
fn skinning_identity_leaves_mesh_at_rest() {
    let mesh = Mesh::cube().catmull_clark(&middle, &join, &relax);
    let skel = rigged(&mesh, 4);
    let skin = skel.auto_skin(&mesh, distance, weigh);
    let mats = matrices(&skel);
    for m in &mats {
        assert!(
            m.abs_diff_eq(glam::Mat4::IDENTITY, 1e-5),
            "rest pose gives the identity skinning matrix"
        );
    }
    let deformed = mesh.skin_deform(&skin, &mats, &blend);
    for (a, b) in mesh.vertices.iter().zip(deformed.vertices.iter()) {
        let d = (vector(*a) - vector(*b)).length();
        assert!(d < 1e-5, "rest skinning leaves vertices put; moved {}", d);
    }
}

#[test]
fn auto_skin_weights_normalized() {
    let mesh = Mesh::cube().catmull_clark(&middle, &join, &relax);
    let skel = rigged(&mesh, 4);
    let skin = skel.auto_skin(&mesh, distance, weigh);
    assert_eq!(skin.weights.len(), mesh.vertices.len(), "one weight set per vertex");
    for w in &skin.weights {
        let sum: f32 = w.iter().map(|x| fl(*x)).sum();
        assert!((sum - 1.0).abs() < 1e-4, "weights sum to 1, got {sum}");
    }
}

#[test]
fn skins_take_the_nearest_bones() {
    let mesh = Mesh { vertices: vec![at(0.0, 2.6, 0.0)], faces: vec![] };
    let mut bones = Vec::new();
    for i in 0..4 {
        let head = at(0.0, i as f32, 0.0);
        let tail = at(0.0, i as f32 + 1.0, 0.0);
        bones.push(Bone::new(format!("b{i}"), head, tail, None));
    }
    let one = Skeleton { bones: vec![bones.pop().unwrap()] };
    let skin = one.auto_skin(&mesh, distance, weigh);
    assert_eq!(skin.indices, vec![[0, 0, 0, 0]]);
    assert_eq!(fl(skin.weights[0][0]), 1.0);
    let three = Skeleton { bones };
    let skin = three.auto_skin(&mesh, distance, weigh);
    assert_eq!(skin.indices, vec![[2, 1, 0, 0]], "on bone two, then nearest to bone one");
}

#[test]
fn skins_that_do_not_fit_change_nothing() {
    let mesh = Mesh::cube();
    let skin = Skin { indices: vec![], weights: vec![] };
    let one = vec![1u8];
    let out = mesh.skin_deform(&skin, &one, &|_, _| Some(at(9.0, 9.0, 9.0)));
    assert_eq!(out.vertices, mesh.vertices);
    let n = mesh.vertices.len();
    let skin = Skin { indices: vec![[0, 7, 0, 0]; n], weights: vec![[re(0.0), re(1.0), re(0.0), re(0.0)]; n] };
    let out = mesh.skin_deform(&skin, &one, &|_, given: Vec<(u8, Real)>| {
        assert!(given.is_empty(), "no weight, or no such bone");
        None
    });
    assert_eq!(out.vertices, mesh.vertices);
    let skin = Skin { indices: vec![[7, 0, 0, 0]; n], weights: vec![[re(1.0), re(0.5), re(0.0), re(0.0)]; n] };
    let out = mesh.skin_deform(&skin, &one, &|_, given: Vec<(u8, Real)>| {
        assert_eq!(given, vec![(1, re(0.5))], "the transform of the bone that there is");
        None
    });
    assert_eq!(out.vertices, mesh.vertices);
}

#[test]
fn posed_tip_bone_bends_only_the_tip() {
    let mut mesh = Mesh::cube();
    for v in &mut mesh.vertices {
        v.y = re(fl(v.y) * 3.0);
    }
    let mut skel = rigged(&mesh, 4);
    let skin = skel.auto_skin(&mesh, distance, weigh);
    let last = skel.bones.len() - 1;
    let turn = glam::Quat::from_rotation_z(std::f32::consts::FRAC_PI_2);
    skel.bones[last].pose = Quat { x: re(turn.x), y: re(turn.y), z: re(turn.z), w: re(turn.w) };
    let mats = matrices(&skel);
    let deformed = mesh.skin_deform(&skin, &mats, &blend);

    let height = |i: usize| fl(mesh.vertices[i].y);
    let top_i = (0..mesh.vertices.len())
        .max_by(|&a, &b| height(a).partial_cmp(&height(b)).unwrap())
        .unwrap();
    let bot_i = (0..mesh.vertices.len())
        .min_by(|&a, &b| height(a).partial_cmp(&height(b)).unwrap())
        .unwrap();
    let moved = |i: usize| (vector(mesh.vertices[i]) - vector(deformed.vertices[i])).length();
    let (top_move, bot_move) = (moved(top_i), moved(bot_i));
    assert!(top_move > 0.5, "top vertex should swing with the posed tip bone; moved {top_move}");
    assert!(bot_move < 0.2, "bottom vertex should barely move; moved {bot_move}");
}

fn hill(x: usize, y: usize, w: usize, h: usize, color: Option<(u8, u8, u8)>) -> Vec3 {
    let luma = match color {
        None => 0.0,
        Some((r, g, b)) => {
            0.2126 * (r as f32 / 255.0) + 0.7152 * (g as f32 / 255.0) + 0.0722 * (b as f32 / 255.0)
        }
    };
    at(x as f32 / (w - 1) as f32 - 0.5, luma, y as f32 / (h - 1) as f32 - 0.5)
}

#[test]
fn heightmap_mesh_size() {
    let pixels = vec![255u8; 4 * 4 * 4];
    let mesh = Mesh::from_heightmap(&pixels, 4, 4, hill);
    assert_eq!(mesh.vertices.len(), 16, "4x4 grid = 16 verts");
    assert_eq!(mesh.faces.len(), 18, "(4-1)x(4-1)x2 = 18 triangles");
    for v in &mesh.vertices {
        assert!((fl(v.y) - 1.0).abs() < 1e-4, "white pixel has Y=scale=1.0, got {}", fl(v.y));
    }
}

#[test]
fn heightmaps_read_what_is_there() {
    // One row of two pixels, the second cut off after its red.
    let mesh = Mesh::from_heightmap(&[255, 0, 0, 255, 255], 2, 1, |x, y, w, h, c| {
        assert_eq!((w, h), (2, 2), "at least two by two");
        if x == 0 {
            assert_eq!(c, Some((255, 0, 0)));
        } else {
            assert_eq!(c, None);
        }
        at(x as f32, y as f32, 0.0)
    });
    assert_eq!(mesh.faces[0].indices, vec![0, 1, 3]);
    assert_eq!(mesh.faces[1].indices, vec![0, 3, 2]);
}

#[test]
fn decimate_cluster_reduces_mesh() {
    let dense =
        Mesh::cube().catmull_clark(&middle, &join, &relax).catmull_clark(&middle, &join, &relax);
    let decimated = dense.decimate_cluster(4, &assign, &middle).expect("decimate returned None");
    assert!(
        decimated.vertices.len() < dense.vertices.len(),
        "decimated mesh should have fewer verts: {} to {}",
        dense.vertices.len(),
        decimated.vertices.len()
    );
    assert!(!decimated.faces.is_empty(), "decimated mesh should have faces");
    let nv = decimated.vertices.len() as u32;
    for face in &decimated.faces {
        for &i in &face.indices {
            assert!(i < nv, "decimate produced out-of-bounds face index");
        }
    }
}

#[test]
fn clusters_merge_what_shares_a_cell() {
    let mesh = Mesh {
        vertices: vec![
            at(0.0, 0.0, 0.0),
            at(2.0, 0.0, 0.0),
            at(10.0, 0.0, 0.0),
            at(0.0, 10.0, 0.0),
        ],
        faces: vec![Face { indices: vec![0, 2, 3] }, Face { indices: vec![0, 1, 2] }],
    };
    let out = mesh.decimate_cluster(2, &assign, &middle).unwrap();
    assert_eq!(out.vertices, vec![at(1.0, 0.0, 0.0), at(10.0, 0.0, 0.0), at(0.0, 10.0, 0.0)]);
    assert_eq!(out.faces.len(), 1);
    assert_eq!(out.faces[0].indices, vec![0, 1, 2]);
    assert!(Mesh::empty().decimate_cluster(4, &assign, &middle).is_none());
    let flat = Mesh {
        vertices: vec![at(0.0, 0.0, 0.0), at(1.0, 0.0, 0.0), at(2.0, 0.0, 0.0)],
        faces: vec![Face { indices: vec![0, 1, 2] }],
    };
    assert!(flat.decimate_cluster(2, &assign, &middle).is_none(), "no triangle stays");
}

#[test]
fn sculpt_draw_displaces_vertices() {
    let mut mesh = Mesh::cube();
    let original_verts = mesh.vertices.clone();
    let by = Sculptor {
        local: here,
        fall,
        normal,
        sum: sum_up,
        push,
        ease,
        touches,
        level,
        press,
        pull: gather,
    };
    let moved = mesh.sculpt_draw(at(0.0, 0.0, 0.0), re(5.0), re(0.1), (), &by);
    assert!(moved, "sculpt_draw should have moved some vertices");
    let changed = mesh.vertices.iter().zip(&original_verts).any(|(a, b)| a != b);
    assert!(changed, "no vertex was displaced");
}

#[test]
fn sculpt_smooth_reduces_variance() {
    let mut mesh = Mesh::cube();
    mesh.vertices[0] = at(0.0, 0.0, 0.0);
    let by = Sculptor {
        local: here,
        fall,
        normal,
        sum: sum_up,
        push,
        ease,
        touches,
        level,
        press,
        pull: gather,
    };
    let moved = mesh.sculpt_smooth(at(0.0, 0.0, 0.0), re(5.0), re(0.9), (), &by);
    assert!(moved, "sculpt_smooth should have moved some vertices");
    let new_pos = vector(mesh.vertices[0]);
    assert!(
        new_pos.length() > 0.01,
        "vertex at brush center should move toward neighbor average; new={:?}",
        new_pos
    );
}

#[test]
fn smoothing_sees_each_side_of_each_face() {
    let mut mesh = strip();
    let mut seen: Vec<(Vec3, usize)> = Vec::new();
    let counted = std::cell::RefCell::new(&mut seen);
    let by = Sculptor {
        local: here,
        fall,
        normal,
        sum: sum_up,
        push,
        ease: |p: Vec3, around: Vec<Vec3>, _: Real, _: Real| {
            counted.borrow_mut().push((p, around.len()));
            p
        },
        touches,
        level,
        press,
        pull: gather,
    };
    let moved = mesh.sculpt_smooth(at(0.0, 0.0, 0.0), re(9.0), re(1.0), (), &by);
    assert!(moved);
    assert_eq!(seen[0], (at(0.0, 0.0, 0.0), 2), "two sides at a corner");
    assert_eq!(seen[2], (at(1.0, 0.0, 0.0), 4), "twice where two faces share a side");
}

#[test]
fn normals_at_a_corner_of_a_cube_point_outward() {
    let cube = Mesh::cube();
    for (p, n) in cube.vertices.iter().zip(cube.vertex_normals(&normal, &sum_up)) {
        assert!(vector(*p).normalize().dot(vector(n)) > 0.99);
    }
}

#[test]
fn normals_see_the_corners_of_the_faces() {
    let mesh = strip();
    let seen = std::cell::RefCell::new(Vec::new());
    let up = |_: Vec<Vec3>| at(0.0, 0.0, 1.0);
    let out = mesh.vertex_normals(&up, &|corners: Vec<Corner>| {
        seen.borrow_mut().push(corners);
        at(1.0, 2.0, 3.0)
    });
    assert_eq!(out, vec![at(1.0, 2.0, 3.0); 8]);
    let seen = seen.into_inner();
    let lit = at(0.0, 0.0, 1.0);
    let (a, b) = (at(0.0, 0.0, 0.0), at(1.0, 0.0, 0.0));
    let first = Corner { normal: lit, before: at(0.0, 1.0, 0.0), at: a, after: b };
    assert_eq!(seen[0], vec![first]);
    assert_eq!(seen[2].len(), 2, "two faces meet there");
    assert_eq!((seen[2][0].before, seen[2][0].at, seen[2][0].after), (a, b, at(1.0, 1.0, 0.0)));
    assert_eq!(seen[2][1].before, at(1.0, 1.0, 0.0));
}

#[test]
fn normals_are_weighted_by_angle() {
    // At the first vertex a square faces up and two triangles, half as wide, face along x.
    let mesh = Mesh {
        vertices: vec![
            at(0.0, 0.0, 0.0),
            at(-1.0, 0.0, 0.0),
            at(-1.0, 0.0, 1.0),
            at(0.0, 0.0, 1.0),
            at(0.0, -1.0, 1.0),
            at(0.0, -1.0, 0.0),
        ],
        faces: vec![
            Face { indices: vec![0, 1, 2, 3] },
            Face { indices: vec![0, 3, 4] },
            Face { indices: vec![0, 4, 5] },
        ],
    };
    let n = vector(mesh.vertex_normals(&normal, &sum_up)[0]);
    let up = vector(normal(outline(&mesh, 0)));
    let side = vector(normal(outline(&mesh, 1)));
    assert!((n.dot(up).abs() - n.dot(side).abs()).abs() < 1e-5, "a right angle each: {n:?}");
}

#[test]
fn brushes_move_only_what_they_touch() {
    let mut mesh = Mesh::cube();
    let before = mesh.vertices.clone();
    let by = Sculptor {
        local: here,
        fall,
        normal,
        sum: sum_up,
        push,
        ease,
        touches,
        level,
        press,
        pull: gather,
    };
    let far = at(9.0, 0.0, 0.0);
    assert!(!mesh.sculpt_flatten(far, re(1.0), re(1.0), (), &by), "no plane");
    assert!(!mesh.sculpt_pinch(far, re(1.0), re(1.0), (), &by));
    assert!(!mesh.sculpt_draw(far, re(1.0), re(1.0), (), &by));
    assert!(!mesh.sculpt_smooth(far, re(1.0), re(1.0), (), &by));
    assert_eq!(mesh.vertices, before);
    // Around the top the normals add up to the upright one, so what is touched comes down.
    let top = at(0.0, 0.75, 0.0);
    assert!(mesh.sculpt_flatten(top, re(0.8), re(1.0), (), &by));
    for (p, q) in before.iter().zip(&mesh.vertices) {
        if fl(p.y) > 0.0 {
            assert!(fl(q.y) > 0.5 && fl(q.y) < 0.75, "pressed toward the plane: {}", fl(q.y));
        } else {
            assert_eq!(p, q);
        }
    }
    let mut mesh = Mesh::cube();
    assert!(mesh.sculpt_pinch(at(0.5, 0.5, 0.5), re(0.5), re(1.0), (), &by));
    assert_eq!(mesh.vertices, before, "only the one at the center, and that stays there");
    assert!(mesh.sculpt_pinch(at(0.5, 0.5, 0.0), re(0.75), re(0.25), (), &by));
    let moved = mesh.vertices.iter().zip(&before).filter(|(a, b)| a != b).count();
    assert_eq!(moved, 2);
}

fn turned(slice: usize, steps: usize, r: Real, y: Real) -> Vec3 {
    let angle = std::f32::consts::TAU * slice as f32 / steps as f32;
    let (sin, cos) = angle.sin_cos();
    at(fl(r) * cos, fl(y), fl(r) * sin)
}

#[test]
fn revolve_lathe_vertex_count() {
    let profile: Vec<(Real, Real)> = vec![
        (re(0.0), re(-1.0)),
        (re(0.5), re(-0.5)),
        (re(0.5), re(0.5)),
        (re(0.0), re(1.0)),
    ];
    let mesh = Mesh::revolve(&profile, 8, turned);
    assert_eq!(mesh.vertices.len(), 34, "wrong vert count from revolve");
    assert!(!mesh.faces.is_empty(), "lathe produced no faces");
    let nv = mesh.vertices.len() as u32;
    for face in &mesh.faces {
        for &i in &face.indices {
            assert!(i < nv, "face index out of bounds");
        }
    }
}

#[test]
fn lathes_join_their_slices() {
    let open = vec![(re(1.0), re(0.0)), (re(1.0), re(1.0))];
    let tube = Mesh::revolve(&open, 0, turned);
    assert_eq!(tube.vertices.len(), 6, "at least three slices");
    assert_eq!(tube.faces.len(), 3);
    assert_eq!(tube.faces[0].indices, vec![0, 2, 3, 1]);
    assert_eq!(tube.faces[2].indices, vec![4, 0, 1, 5], "the last slice joins the first");
    let cone = vec![(re(0.0), re(0.0)), (re(1.0), re(1.0))];
    let cone = Mesh::revolve(&cone, 3, turned);
    assert_eq!(cone.vertices.len(), 7);
    assert_eq!(cone.faces[0].indices, vec![0, 1, 3]);
    assert_eq!(cone.faces[3].indices, vec![6, 2, 0], "a fan around the pole");
}

#[test]
fn path_extrude_vertex_and_face_count() {
    let path: Vec<glam::Vec3> = (0..5).map(|i| glam::Vec3::new(0.0, i as f32, 0.0)).collect();
    let shape: &[[f32; 2]] = &[[-0.5, -0.5], [0.5, -0.5], [0.5, 0.5], [-0.5, 0.5]];
    let mesh = Mesh::path_extrude(path.len(), shape.len(), |s, p| {
        point(path[s] + glam::Vec3::new(shape[p][0], 0.0, shape[p][1]))
    });
    assert_eq!(mesh.vertices.len(), 20, "5 path steps x 4 shape pts = 20 verts");
    assert_eq!(mesh.faces.len(), 16, "4 segments x 4 shape edges = 16 quad faces");
    let nv = mesh.vertices.len() as u32;
    for face in &mesh.faces {
        for &idx in &face.indices {
            assert!(idx < nv, "face index out of bounds in path_extrude");
        }
    }
    assert_eq!(mesh.faces[3].indices, vec![3, 0, 4, 7], "the outline closes");
}

#[test]
fn solids_come_back_from_flat_lists() {
    let numbers: Vec<Real> = (0..8).map(|i| re(i as f32)).collect();
    let mesh = Mesh::from_csg_output(&numbers, 4, &vec![0, 1, 0], |p| p);
    assert_eq!(mesh.vertices, vec![at(0.0, 1.0, 2.0), at(4.0, 5.0, 6.0)]);
    assert_eq!(mesh.faces.len(), 1);
    assert_eq!(mesh.faces[0].indices, vec![0, 1, 0]);
    assert!(in_bounds(&mesh));
}
