//! Documents: objects, edits of the selected mesh, history, and saved scenes.

use sweet::brush::{Corner, Sculptor};
use sweet::document::{Document, HISTORY_CAP};
use sweet::kinds::{blend_mode_const, AdjustmentKind, BlendMode, Compositing, Modifier, ObjectKind};
use sweet::document_shape::BooleanOp;
use sweet::mesh::{Face, Mesh};
use sweet::modifiers::{MeshTooLarge, Placing, Posing};
use sweet::number::{Quat, Real, Vec3};
use sweet::object::{objects_equal, ObjId, Trs};
use sweet::picking::TriangleHit;
use sweet::rig::{quat_identity, Skeleton};
use sweet::scene::{SceneDoc, SceneError, SCENE_SCHEMA, SCENE_VERSION};
use sweet::subdivide::VertexRule;

fn re(x: f32) -> Real {
    Real { bits: x.to_bits() }
}

fn fl(r: Real) -> f32 {
    f32::from_bits(r.bits)
}

fn point(p: glam::Vec3) -> Vec3 {
    Vec3 { x: re(p.x), y: re(p.y), z: re(p.z) }
}

fn at(x: f32, y: f32, z: f32) -> Vec3 {
    point(glam::Vec3::new(x, y, z))
}

fn vector(p: Vec3) -> glam::Vec3 {
    glam::Vec3::new(fl(p.x), fl(p.y), fl(p.z))
}

/// The mean of the points of a face.
fn middle(points: Vec<Vec3>) -> Vec3 {
    let mut sum = glam::Vec3::ZERO;
    for p in &points {
        sum += vector(*p);
    }
    point(sum / points.len().max(1) as f32)
}

/// The normal of a face by Newell's method, upward where there is none.
fn normal(points: Vec<Vec3>) -> Vec3 {
    let mut n = glam::Vec3::ZERO;
    for k in 0..points.len() {
        let a = vector(points[k]);
        let b = vector(points[(k + 1) % points.len()]);
        n.x += (a.y - b.y) * (a.z + b.z);
        n.y += (a.z - b.z) * (a.x + b.x);
        n.z += (a.x - b.x) * (a.y + b.y);
    }
    let len = n.length();
    if len < 1e-9 {
        at(0.0, 1.0, 0.0)
    } else {
        point(n / len)
    }
}

fn raise(p: Vec3, n: Vec3, t: Real) -> Vec3 {
    point(vector(p) + vector(n) * fl(t))
}

fn pull(p: Vec3, toward: Vec3, t: Real) -> Vec3 {
    point(vector(p) + (vector(toward) - vector(p)) * fl(t))
}

fn midpoint(p: Vec3, q: Vec3) -> Vec3 {
    point((vector(p) + vector(q)) * 0.5)
}

fn shift(p: Vec3, offset: Vec3, c: u32) -> Vec3 {
    point(vector(p) + vector(offset) * c as f32)
}

fn join(p: Vec3, q: Vec3, sides: Option<(Vec3, Vec3)>) -> Vec3 {
    match sides {
        Some((f, g)) => point((vector(p) + vector(q) + vector(f) + vector(g)) / 4.0),
        None => midpoint(p, q),
    }
}

fn relax(p: Vec3, rule: VertexRule) -> Vec3 {
    let p = vector(p);
    match rule {
        VertexRule::Crease { first, second } => {
            let a = vector(midpoint(first.0, first.1));
            let b = vector(midpoint(second.0, second.1));
            point((a + b + p * 6.0) / 8.0)
        }
        VertexRule::Smooth { face_points, edges } => {
            if face_points.is_empty() {
                return point(p);
            }
            let n = face_points.len() as f32;
            let faces: glam::Vec3 = face_points.iter().map(|f| vector(*f)).sum();
            let mids: glam::Vec3 = edges.iter().map(|e| vector(midpoint(e.0, e.1))).sum();
            point((faces / n + mids / edges.len() as f32 * 2.0 + p * (n - 3.0)) / n)
        }
    }
}

/// The cells of points in a grid over their bounds.
fn assign(points: Vec<Vec3>, side: usize) -> Vec<usize> {
    let (mut mn, mut mx) = (glam::Vec3::splat(f32::MAX), glam::Vec3::splat(f32::MIN));
    for p in &points {
        mn = mn.min(vector(*p));
        mx = mx.max(vector(*p));
    }
    let span = mx - mn + glam::Vec3::splat(1e-6);
    let cell = |d: f32, s: f32| ((d / s) * side as f32).min(side as f32 - 1.0) as usize;
    points
        .iter()
        .map(|p| {
            let d = vector(*p) - mn;
            cell(d.x, span.x) + cell(d.y, span.y) * side + cell(d.z, span.z) * side * side
        })
        .collect()
}

/// How long a side is.
fn side(lo: Real, hi: Real) -> Real {
    re(fl(hi) - fl(lo))
}

fn halfway(lo: Real, hi: Real) -> Real {
    re((fl(lo) + fl(hi)) * 0.5)
}

/// The end of the first `i` of `n` equal parts of a line.
fn along(start: Vec3, end: Vec3, i: usize, n: usize) -> Vec3 {
    point(vector(start).lerp(vector(end), i as f32 / n as f32))
}

fn distance(p: Vec3, a: Vec3, b: Vec3) -> Real {
    let (p, a, b) = (vector(p), vector(a), vector(b));
    let ab = b - a;
    let len2 = ab.length_squared();
    if len2 < 1e-12 {
        return re((p - a).length());
    }
    let t = ((p - a).dot(ab) / len2).clamp(0.0, 1.0);
    re((p - (a + ab * t)).length())
}

fn weigh(d0: Real, d1: Real) -> (Real, Real) {
    let w0 = 1.0 / (fl(d0) + 1e-4);
    let w1 = 1.0 / (fl(d1) + 1e-4);
    (re(w0 / (w0 + w1)), re(w1 / (w0 + w1)))
}

fn rest_frame(head: Vec3) -> glam::Mat4 {
    glam::Mat4::from_translation(vector(head))
}

fn posed_frame(head: Vec3, parent: Option<Vec3>, pose: Quat) -> glam::Mat4 {
    let origin = match parent {
        Some(p) => vector(p),
        None => glam::Vec3::ZERO,
    };
    let turn = glam::Quat::from_xyzw(fl(pose.x), fl(pose.y), fl(pose.z), fl(pose.w));
    glam::Mat4::from_translation(vector(head) - origin) * glam::Mat4::from_quat(turn)
}

fn composed(a: glam::Mat4, b: glam::Mat4) -> glam::Mat4 {
    a * b
}

fn unbound(posed: glam::Mat4, rest: glam::Mat4) -> glam::Mat4 {
    posed * rest.inverse()
}

fn blend(p: Vec3, given: Vec<(glam::Mat4, Real)>) -> Option<Vec3> {
    let mut acc = glam::Vec3::ZERO;
    let mut sum = 0.0f32;
    for (mat, weight) in given {
        acc += mat.transform_point3(vector(p)) * fl(weight);
        sum += fl(weight);
    }
    if sum > 1e-6 {
        Some(point(acc / sum))
    } else {
        None
    }
}

/// A normal of length one from the corners at a vertex, each face weighted by its angle there.
fn sum_up(corners: Vec<Corner>) -> Vec3 {
    let mut n = glam::Vec3::ZERO;
    for c in &corners {
        let (a, b) = (vector(c.before) - vector(c.at), vector(c.after) - vector(c.at));
        n += vector(c.normal) * a.angle_between(b);
    }
    point(n.normalize_or_zero())
}

/// How strongly a brush touches a point.
fn fall(p: Vec3, center: Vec3, radius: Real) -> Option<Real> {
    let d2 = (vector(p) - vector(center)).length_squared();
    let r2 = fl(radius) * fl(radius);
    if d2 >= r2 {
        return None;
    }
    let f = (std::f32::consts::FRAC_PI_2 * (d2 / r2).sqrt()).cos();
    Some(re(f * f))
}

fn touches(p: Vec3, center: Vec3, radius: Real) -> bool {
    (vector(p) - vector(center)).length_squared() < fl(radius) * fl(radius)
}

fn push(p: Vec3, n: Vec3, strength: Real, f: Real) -> Vec3 {
    point(vector(p) + vector(n) * (fl(strength) * fl(f)))
}

fn ease(p: Vec3, around: Vec<Vec3>, factor: Real, f: Real) -> Vec3 {
    let mean = vector(middle(around));
    point(vector(p) + (mean - vector(p)) * (fl(factor) * fl(f)))
}

fn level(normals: Vec<Vec3>) -> Option<Vec3> {
    let sum: glam::Vec3 = normals.iter().map(|n| vector(*n)).sum();
    let n = sum.normalize_or_zero();
    if n.length_squared() < 1e-6 {
        None
    } else {
        Some(point(n))
    }
}

fn press(p: Vec3, plane: Vec3, center: Vec3, strength: Real, f: Real) -> Vec3 {
    let off = (vector(p) - vector(center)).dot(vector(plane));
    point(vector(p) - vector(plane) * (off * fl(strength) * fl(f)))
}

fn gather(p: Vec3, center: Vec3, strength: Real, f: Real) -> Vec3 {
    let inward = (vector(center) - vector(p)).normalize_or_zero();
    point(vector(p) + inward * (fl(strength) * fl(f)))
}

/// What the test of a ray against a triangle measures.
fn measure(origin: Vec3, dir: Vec3, a: Vec3, b: Vec3, c: Vec3) -> TriangleHit {
    let (origin, dir) = (vector(origin), vector(dir));
    let (v0, v1, v2) = (vector(a), vector(b), vector(c));
    let (e1, e2) = (v1 - v0, v2 - v0);
    let p = dir.cross(e2);
    let det = e1.dot(p);
    let s = origin - v0;
    let u = s.dot(p) / det;
    let q = s.cross(e1);
    let v = dir.dot(q) / det;
    TriangleHit { det: re(det), u: re(u), v: re(v), uv: re(u + v), t: re(e2.dot(q) / det) }
}

fn frame(world: Trs) -> glam::Mat4 {
    let r = world.rotation;
    glam::Mat4::from_scale_rotation_translation(
        vector(world.scale),
        glam::Quat::from_xyzw(fl(r.x), fl(r.y), fl(r.z), fl(r.w)),
        vector(world.translation),
    )
}

fn local_point(world: Trs, p: Vec3) -> Vec3 {
    point(frame(world).inverse().transform_point3(vector(p)))
}

fn local_ray(world: Trs, origin: Vec3, dir: Vec3) -> (Vec3, Vec3) {
    let inv = frame(world).inverse();
    (point(inv.transform_point3(vector(origin))), point(inv.transform_vector3(vector(dir))))
}

const ORIGIN: Vec3 =
    Vec3 { x: Real { bits: 0 }, y: Real { bits: 0 }, z: Real { bits: 0 } };

fn smooth_cube() -> Mesh {
    Mesh::cube().catmull_clark(&middle, &join, &relax)
}

/// A document with one selected cube mesh.
fn modeling() -> (Document, ObjId) {
    let mut doc = Document::default();
    let id = doc.add(ObjectKind::Mesh, ORIGIN);
    doc.set_selection(Some(id));
    (doc, id)
}

fn size(doc: &Document, id: ObjId) -> (usize, usize) {
    let m = doc.get(id).unwrap().mesh.as_ref().unwrap();
    (m.vertices.len(), m.faces.len())
}

fn reopened(doc: &Document) -> Document {
    Document::from_scene_doc(doc.to_scene_doc()).expect("a saved scene opens")
}

fn outline(mesh: &Mesh, f: usize) -> Vec<Vec3> {
    mesh.faces[f].indices.iter().map(|&i| mesh.vertex(i)).collect()
}

fn draw(doc: &mut Document, radius: f32, strength: f32) -> bool {
    let by = Sculptor {
        local: local_point,
        fall,
        normal,
        sum: sum_up,
        push,
        ease,
        touches,
        level,
        press,
        pull: gather,
    };
    doc.sculpt_stroke(ORIGIN, re(radius), re(strength), 0, &by)
}

#[test]
fn scene_round_trips_through_json() {
    let mut doc = Document::with_starter_scene();
    let ids: Vec<ObjId> = doc.objects().iter().map(|o| o.id).collect();
    doc.set_selection(Some(ids[1]));
    if let Some(obj) = doc.get_mut(ids[0]) {
        obj.transform.translation = at(2.0, 3.0, -1.0);
        obj.transform.scale = at(1.5, 1.5, 1.5);
        obj.name = "Hero Cube".into();
    }

    let saved = format!("{:?}", doc.to_scene_doc());
    let reopened = Document::from_scene_doc(doc.to_scene_doc()).expect("deserialize");

    assert_eq!(reopened.object_count(), doc.object_count());
    assert_eq!(reopened.selection(), doc.selection(), "selection survives");

    let sel = reopened.selection().expect("has selection");
    assert!(reopened.get(sel).is_some(), "saved id resolves");

    let hero = reopened.get(ids[0]).expect("hero by id");
    assert_eq!(hero.name, "Hero Cube");
    assert_eq!(hero.transform.translation, at(2.0, 3.0, -1.0));
    assert_eq!(hero.transform.scale, at(1.5, 1.5, 1.5));

    let again = format!("{:?}", reopened.to_scene_doc());
    assert_eq!(saved, again, "save, load, save is identical");
}

#[test]
fn the_starter_scene_stands_where_it_should() {
    let doc = Document::with_starter_scene();
    let objects = doc.objects();
    let names: Vec<&str> = objects.iter().map(|o| o.name.as_str()).collect();
    assert_eq!(names, vec!["Paint Canvas 1", "Cube 2", "Sphere 3"]);
    assert_eq!(objects[0].transform.translation, at(0.0, 0.6, 0.0));
    assert_eq!(objects[0].transform.scale, at(3.0, 3.0, 1.0));
    assert_eq!(objects[1].transform.translation, at(-2.6, -0.5, 0.6));
    assert_eq!(objects[2].transform.translation, at(2.6, -0.5, 0.6));
    assert_eq!(doc.selection(), None);
    assert!(!doc.can_undo());
}

#[test]
fn rejects_unknown_schema_and_future_version() {
    let bad_schema = SceneDoc {
        schema: "some.other.doc".to_string(),
        version: 1,
        next_serial: 0,
        selection: None,
        objects: vec![],
    };
    let refused = Document::from_scene_doc(bad_schema);
    assert!(matches!(refused, Err(SceneError::UnknownSchema(_))));
    if let Err(e) = refused {
        assert_eq!(e.message(), "unknown scene schema: some.other.doc");
    }

    let future = SceneDoc {
        schema: SCENE_SCHEMA.to_string(),
        version: SCENE_VERSION + 1,
        next_serial: 0,
        selection: None,
        objects: vec![],
    };
    let refused = Document::from_scene_doc(future);
    assert!(matches!(refused, Err(SceneError::FutureVersion { .. })));
    if let Err(e) = refused {
        assert_eq!(e.message(), "scene version 2 is newer than supported 1");
    }
}

#[test]
fn full_counters_take_no_more_objects() {
    let mut saved = Document::with_starter_scene().to_scene_doc();
    saved.next_serial = u32::MAX;
    assert!(!Document::from_scene_doc(saved).unwrap().can_add());
}

#[test]
fn dangling_selections_are_dropped_on_load() {
    let mut saved = Document::with_starter_scene().to_scene_doc();
    saved.selection = Some(ObjId { slot: 77, generation: 0 });
    let doc = Document::from_scene_doc(saved).unwrap();
    assert_eq!(doc.selection(), None);
}

#[test]
fn extrude_grows_a_mesh_and_survives_save_load() {
    let (mut doc, id) = modeling();
    assert_eq!(size(&doc, id), (8, 6));
    assert!(doc.extrude_selected_mesh(re(0.5), &normal, &raise));
    assert_eq!(size(&doc, id), (12, 10), "extrude added 4 verts + 4 side faces");

    let top_y = {
        let m = doc.get(id).unwrap().mesh.as_ref().unwrap();
        let ti = m.top_face_index(&normal).unwrap();
        fl(middle(outline(m, ti)).y)
    };
    assert!((top_y - 1.0).abs() < 1e-4, "top face near y=1.0, got {top_y}");

    assert_eq!(size(&reopened(&doc), id), (12, 10));
}

#[test]
fn modifier_stack_evaluates_nondestructively_and_round_trips() {
    let mut doc = Document::default();
    let id = doc.add(ObjectKind::Mesh, ORIGIN);
    {
        let obj = doc.get_mut(id).unwrap();
        obj.modifiers.push(Modifier::Array { count: 2, offset: at(2.0, 0.0, 0.0) });
        obj.modifiers.push(Modifier::Subdivide { levels: 1 });
    }
    let obj = doc.get(id).unwrap();
    assert_eq!(obj.mesh.as_ref().unwrap().vertices.len(), 8);
    let placing = Placing { shift, middle, join, relax, assign, mean: middle };
    let posing = Posing {
        place: rest_frame,
        local: posed_frame,
        compose: composed,
        bind: unbound,
        blend,
    };
    let display = obj.display_mesh(&posing, &placing).unwrap().unwrap();
    assert!(
        display.vertices.len() > 40,
        "stack generated geometry: {}",
        display.vertices.len()
    );
    assert_eq!((display.vertices.len(), display.faces.len()), (52, 48));

    assert_eq!(reopened(&doc).get(id).unwrap().modifiers.len(), 2);
}

#[test]
fn stacks_stop_where_vertices_cannot_be_numbered() {
    let placing = Placing { shift, middle, join, relax, assign, mean: middle };
    let cube = Mesh::cube();
    let many = vec![Modifier::Array { count: u32::MAX, offset: ORIGIN }];
    assert!(matches!(cube.evaluated(&many, &placing), Err(MeshTooLarge)));
    let coarse = vec![
        Modifier::Mirror { axis: 9 },
        Modifier::Decimate { grid_res: 2 },
        Modifier::Subdivide { levels: 0 },
    ];
    let out = cube.evaluated(&coarse, &placing).unwrap();
    assert_eq!(out.vertices.len(), 8, "the copies share the cells");
    let alone = Mesh { vertices: vec![at(0.0, 0.0, 0.0)], faces: vec![] };
    let out = alone.evaluated(&vec![Modifier::Decimate { grid_res: 2 }], &placing).unwrap();
    assert_eq!(out.vertices.len(), 1, "what cannot be made coarser stays");
}

#[test]
fn objects_without_a_mesh_show_none() {
    let mut doc = Document::default();
    let id = doc.add(ObjectKind::Sphere, ORIGIN);
    let placing = Placing { shift, middle, join, relax, assign, mean: middle };
    let posing = Posing {
        place: rest_frame,
        local: posed_frame,
        compose: composed,
        bind: unbound,
        blend,
    };
    assert!(matches!(doc.get(id).unwrap().display_mesh(&posing, &placing), Ok(None)));
}

#[test]
fn posed_bones_bend_what_is_shown() {
    let (mut doc, id) = modeling();
    let mesh = Mesh::cube();
    assert!(doc.auto_rig_selected_mesh(4, &side, &halfway, &along, distance, weigh));
    let placing = Placing { shift, middle, join, relax, assign, mean: middle };
    let posing = Posing {
        place: rest_frame,
        local: posed_frame,
        compose: composed,
        bind: unbound,
        blend,
    };
    let shown = |doc: &Document| {
        let o = doc.get(id).unwrap();
        o.display_mesh(&posing, &placing).unwrap().unwrap()
    };
    assert_eq!(shown(&doc).vertices, mesh.vertices, "at rest");
    let turn = Quat { x: re(0.0), y: re(0.0), z: re(1.0), w: re(0.0) };
    assert!(doc.set_selected_bone_pose(3, turn));
    assert!(shown(&doc).vertices != mesh.vertices, "the tip is turned");
    assert!(doc.set_bone_pose(id, 3, quat_identity()));
    assert_eq!(shown(&doc).vertices, mesh.vertices);
    assert!(!doc.set_bone_pose(id, 4, turn), "no such bone");
}

#[test]
fn loop_cut_through_document_grows_the_mesh_and_round_trips() {
    let (mut doc, id) = modeling();
    let (v0, f0) = size(&doc, id);
    assert!(doc.loop_cut_selected_mesh(&normal, midpoint), "cube loop-cuts");
    let (v1, f1) = size(&doc, id);
    assert_eq!(v1, v0 + 4, "4 midpoint verts added");
    assert_eq!(f1, f0 + 4, "4 quads split into 8");

    assert_eq!(size(&reopened(&doc), id), (v1, f1));
}

#[test]
fn bevel_through_document_truncates_a_corner_and_round_trips() {
    let (mut doc, id) = modeling();
    assert!(doc.bevel_selected_mesh_corner(&normal, pull), "cube corner bevels");
    let (v1, f1) = size(&doc, id);
    assert_eq!(v1, 10, "8 - 1 corner + 3 new verts");
    assert_eq!(f1, 7, "6 faces + 1 cap");

    assert_eq!(size(&reopened(&doc), id), (v1, f1));
}

#[test]
fn edges_bevel_and_faces_inset_through_the_document() {
    let (mut doc, id) = modeling();
    assert!(doc.bevel_selected_mesh_edge(&normal, pull));
    assert_eq!(size(&doc, id), (12, 7));
    let (mut doc, id) = modeling();
    doc.set_selected_face(Some(2));
    assert!(doc.inset_selected_mesh(re(0.5), &normal, &middle, &pull));
    assert_eq!(size(&doc, id), (12, 10));
    assert_eq!(doc.selected_face(), Some(2));
    doc.set_selection(None);
    assert!(!doc.inset_selected_mesh(re(0.5), &normal, &middle, &pull));
    assert!(!doc.bevel_selected_mesh_edge(&normal, pull));
    assert!(!doc.loop_cut_selected_mesh(&normal, midpoint));
    assert_eq!(doc.selected_face(), None, "the face goes with the selection");
}

#[test]
fn pick_face_hits_the_front_face_and_extrudes_it() {
    let (mut doc, id) = modeling();
    let (from, dir) = (at(0.0, 0.0, 3.0), at(0.0, 0.0, -1.0));
    let face = doc.pick_selected_mesh_face(from, dir, &local_ray, &measure);
    assert!(face.is_some(), "ray hits a face");
    let fi = face.unwrap();
    let n = {
        let m = doc.get(id).unwrap().mesh.as_ref().unwrap();
        vector(normal(outline(m, fi)))
    };
    assert!(n.z > 0.9, "picked the front (+Z) face, normal {n:?}");

    assert!(doc.extrude_selected_mesh(re(0.5), &normal, &raise));
    let cz = {
        let m = doc.get(id).unwrap().mesh.as_ref().unwrap();
        fl(middle(outline(m, doc.selected_face().unwrap())).z)
    };
    assert!((cz - 1.0).abs() < 1e-4, "front face pushed to z near 1.0, got {cz}");
}

#[test]
fn missed_rays_keep_the_selected_face() {
    let (mut doc, id) = modeling();
    doc.set_selected_face(Some(4));
    let (from, dir) = (at(2.0, 0.0, 3.0), at(0.0, 0.0, -1.0));
    assert!(doc.pick_selected_mesh_face(from, dir, &local_ray, &measure).is_none());
    assert_eq!(doc.selected_face(), Some(4));
    // The mesh is where its object puts it.
    doc.get_mut(id).unwrap().transform.translation = at(2.0, 0.0, 0.0);
    let front = doc.pick_selected_mesh_face(from, dir, &local_ray, &measure).unwrap();
    assert_eq!(doc.selected_face(), Some(front));
    doc.set_selection(None);
    assert!(doc.pick_selected_mesh_face(from, dir, &local_ray, &measure).is_none());
}

/// Two solids that lie apart, as one.
fn apart(s: Trs, a: Mesh, t: Trs, b: Mesh) -> Mesh {
    let base = a.vertices.len() as u32;
    let moved = |p: &Vec3, t: &Trs| point(vector(*p) + vector(t.translation));
    let mut vertices: Vec<Vec3> = a.vertices.iter().map(|p| moved(p, &s)).collect();
    vertices.extend(b.vertices.iter().map(|p| moved(p, &t)));
    let mut faces = a.faces;
    for f in b.faces {
        faces.push(Face { indices: f.indices.iter().map(|i| i + base).collect() });
    }
    Mesh { vertices, faces }
}

#[test]
fn bool_union_produces_larger_mesh() {
    let mut doc = Document::default();
    let a = doc.add(ObjectKind::Mesh, ORIGIN);
    let b = doc.add(ObjectKind::Mesh, at(3.0, 0.0, 0.0));
    doc.set_selection(Some(a));
    let n_a = doc.get(a).unwrap().mesh.as_ref().unwrap().vertices.len();
    let solve = |op, s, m, t, n| {
        assert_eq!(op, BooleanOp::Union);
        Some(apart(s, m, t, n))
    };
    assert!(doc.apply_boolean(b, 0, solve), "union returned false");
    assert!(doc.get(b).is_none(), "tool object must be removed after op");
    let n_out = doc.get(a).unwrap().mesh.as_ref().unwrap().vertices.len();
    assert!(n_out > n_a, "union of two cubes should have more verts than one cube");
}

#[test]
fn bool_subtract_removes_overlap() {
    let mut doc = Document::default();
    let a = doc.add(ObjectKind::Mesh, ORIGIN);
    let b = doc.add(ObjectKind::Mesh, at(0.5, 0.0, 0.0));
    doc.set_selection(Some(a));
    // Boxes of one size that differ along x: what is left of the first ends where the other
    // begins.
    let solve = |op, s: Trs, m: Mesh, t: Trs, _n: Mesh| {
        assert_eq!(op, BooleanOp::Subtract);
        let edge = fl(t.translation.x) - 0.5;
        let mut out = m.copy();
        for p in &mut out.vertices {
            p.x = re((fl(p.x) + fl(s.translation.x)).min(edge));
        }
        Some(out)
    };
    assert!(doc.apply_boolean(b, 1, solve), "subtract returned false");
    assert!(doc.get(b).is_none(), "tool removed after subtract");
    let mesh = doc.get(a).unwrap().mesh.as_ref().unwrap();
    assert!(!mesh.vertices.is_empty(), "subtract result must not be empty");
    assert!(mesh.vertices.iter().all(|p| fl(p.x) <= 0.0));
}

#[test]
fn solids_without_a_result_stay() {
    let mut doc = Document::default();
    let a = doc.add(ObjectKind::Mesh, at(1.0, 0.0, 0.0));
    let b = doc.add(ObjectKind::Mesh, ORIGIN);
    let c = doc.add(ObjectKind::Cube, ORIGIN);
    doc.set_selection(Some(a));
    let none = |_: BooleanOp, _: Trs, _: Mesh, _: Trs, _: Mesh| None;
    assert!(!doc.apply_boolean(b, 0, none));
    assert!(doc.get(b).is_some());
    let solve = |op, s, m, t, n| {
        assert_eq!(op, BooleanOp::Intersect);
        Some(apart(s, m, t, n))
    };
    assert!(!doc.apply_boolean(c, 2, solve), "no mesh");
    assert!(!doc.apply_boolean(a, 2, solve), "not with itself");
    assert!(doc.apply_boolean(b, 2, solve));
    assert_eq!(doc.get(a).unwrap().transform, Trs::default());
}

#[test]
fn freed_slots_dont_alias_after_load() {
    let mut doc = Document::default();
    let a = doc.add(ObjectKind::Cube, ORIGIN);
    let _b = doc.add(ObjectKind::Sphere, at(1.0, 0.0, 0.0));
    doc.remove(a);
    let reopened = reopened(&doc);
    assert!(reopened.get(a).is_none(), "freed id stays dead across save/load");
    assert_eq!(reopened.object_count(), 1);
}

#[test]
fn names_of_removed_objects_stay_dead_after_load() {
    let mut doc = Document::default();
    let a = doc.add(ObjectKind::Cube, ORIGIN);
    let b = doc.add(ObjectKind::Sphere, at(1.0, 0.0, 0.0));
    doc.remove(b);
    let mut again = reopened(&doc);
    let c = again.add(ObjectKind::Cube, ORIGIN);
    assert!(c != a && c != b);
    assert!(again.get(b).is_none(), "the removed sphere's name finds nothing");
    assert_eq!(again.get(a).unwrap().name, "Cube 1");
    assert_eq!(again.get(c).unwrap().name, "Cube 3");

    // The other order: the first slot is free.
    let mut doc = Document::default();
    let a = doc.add(ObjectKind::Cube, ORIGIN);
    let b = doc.add(ObjectKind::Sphere, at(1.0, 0.0, 0.0));
    doc.remove(a);
    let mut again = reopened(&doc);
    let c = again.add(ObjectKind::Cube, ORIGIN);
    assert_eq!(c.slot, a.slot);
    assert!(c != a && c != b);
    assert!(again.get(a).is_none() && again.get(b).is_some());

    // All objects gone: slots past the end are not named again either.
    let mut doc = Document::default();
    let a = doc.add(ObjectKind::Cube, ORIGIN);
    doc.remove(a);
    let mut again = reopened(&reopened(&doc));
    let c = again.add(ObjectKind::Cube, ORIGIN);
    assert_ne!(c, a);
    assert!(again.get(a).is_none());
}

#[test]
fn names_stay_dead_across_undo() {
    let mut doc = Document::default();
    let a = doc.add(ObjectKind::Cube, ORIGIN);
    doc.checkpoint(&[a]);
    doc.remove(a);
    doc.commit();
    let b = doc.add(ObjectKind::Sphere, ORIGIN);
    assert_eq!(b.slot, a.slot);
    assert!(doc.undo());
    assert!(doc.get(a).is_some() && doc.get(b).is_none());
    doc.remove(a);
    let c = doc.add(ObjectKind::Cube, ORIGIN);
    assert!(c != a && c != b);
    assert!(doc.get(a).is_none() && doc.get(b).is_none());
}

#[test]
fn the_selected_face_goes_with_the_selection() {
    let (mut doc, id) = modeling();
    doc.set_selected_face(Some(2));
    let gone = doc.remove(id).unwrap();
    assert_eq!(gone.id, id);
    assert!(doc.get(id).is_none());
    assert_eq!(doc.object_count(), 0);
    assert_eq!(doc.selection(), None);
    assert_eq!(doc.selected_face(), None);

    let mut doc = Document::default();
    doc.checkpoint(&[]);
    let id = doc.add(ObjectKind::Mesh, ORIGIN);
    doc.commit();
    doc.set_selection(Some(id));
    doc.set_selected_face(Some(1));
    assert!(doc.undo());
    assert_eq!((doc.selection(), doc.selected_face()), (None, None));
    assert!(doc.redo());
    assert_eq!((doc.selection(), doc.selected_face()), (None, None));

    let (mut doc, _) = modeling();
    let other = doc.add(ObjectKind::Cube, ORIGIN);
    doc.set_selected_face(Some(3));
    doc.remove(other);
    assert_eq!(doc.selected_face(), Some(3), "another object was removed");
}

#[test]
fn undo_gives_the_list_of_objects_back() {
    let mut doc = Document::with_starter_scene();
    let listed = |doc: &Document| -> Vec<String> {
        doc.objects().iter().map(|o| format!("{o:?}")).collect()
    };
    let ids: Vec<ObjId> = doc.objects().iter().map(|o| o.id).collect();
    let before = listed(&doc);
    doc.checkpoint(&[ids[0], ids[1]]);
    doc.remove(ids[1]);
    doc.get_mut(ids[0]).unwrap().lock = true;
    doc.add(ObjectKind::ImagePlane, ORIGIN);
    assert!(doc.commit());
    let after = listed(&doc);
    assert!(doc.undo());
    assert_eq!(listed(&doc), before);
    assert!(doc.can_redo() && doc.redo());
    assert_eq!(listed(&doc), after);
}

#[test]
fn reused_slots_get_new_names() {
    let mut doc = Document::default();
    assert!(doc.can_add());
    let a = doc.add(ObjectKind::Cube, ORIGIN);
    doc.set_selection(Some(a));
    assert!(doc.remove(a).is_some());
    assert_eq!(doc.selection(), None);
    assert!(doc.remove(a).is_none());
    let b = doc.add(ObjectKind::Sphere, ORIGIN);
    assert_eq!(a.slot, b.slot);
    assert_ne!(a, b);
    assert!(doc.get(a).is_none());
    assert_eq!(doc.get(b).unwrap().name, "Sphere 2");
    doc.set_selection(Some(a));
    assert_eq!(doc.selection(), None, "a dead name selects nothing");
}

#[test]
fn objects_start_out_by_their_kind() {
    let mut doc = Document::default();
    let id = doc.add(ObjectKind::PaintCanvas, at(1.0, 2.0, 3.0));
    let o = doc.get(id).unwrap();
    assert_eq!(o.transform.translation, at(1.0, 2.0, 3.0));
    assert_eq!(o.transform.scale, at(1.0, 1.0, 1.0));
    assert_eq!(o.transform.rotation, quat_identity());
    assert_eq!(o.compositing, Compositing::DepthOrdered);
    assert_eq!(o.blend_mode, BlendMode::Normal);
    assert!(o.visibility && !o.lock && o.mesh.is_none() && o.adjustment.is_none());
    assert_eq!(o.local_aabb.min, at(-0.5, -0.5, -0.02));
    let id = doc.add(ObjectKind::Adjustment, ORIGIN);
    assert_eq!(
        doc.get(id).unwrap().adjustment,
        Some(AdjustmentKind::BrightnessContrast { brightness: re(0.0), contrast: re(0.0) })
    );
    assert!(ObjectKind::PaintCanvas.is_paintable() && !ObjectKind::Cube.is_paintable());
}

#[test]
fn the_picker_lists_kinds() {
    assert_eq!(AdjustmentKind::all_defaults().len(), 13);
    assert_eq!(AdjustmentKind::Invert.label(), "Invert");
    assert_eq!(AdjustmentKind::EdgeDetect.label(), "Edge Detect");
    assert_eq!(BlendMode::all().len(), 20);
    for (i, mode) in BlendMode::all().into_iter().enumerate() {
        assert_eq!(blend_mode_const(mode), i as u32);
    }
    assert_eq!(Modifier::Decimate { grid_res: 8 }.label(), "Decimate");
}

#[test]
fn selected_layers_take_settings() {
    let mut doc = Document::default();
    assert!(!doc.set_selected_opacity(re(0.5)), "nothing is selected");
    assert!(!doc.set_selected_blend_mode(BlendMode::Screen));
    let id = doc.add(ObjectKind::Adjustment, ORIGIN);
    doc.set_selection(Some(id));
    assert!(doc.set_selected_opacity(re(7.0)));
    assert_eq!(fl(doc.get(id).unwrap().opacity), 1.0);
    assert!(doc.set_selected_opacity(re(-1.0)));
    assert_eq!(fl(doc.get(id).unwrap().opacity), 0.0);
    assert!(doc.set_selected_blend_mode(BlendMode::Screen));
    assert_eq!(doc.get(id).unwrap().blend_mode, BlendMode::Screen);
    assert!(doc.set_selected_adjustment(AdjustmentKind::Invert));
    assert_eq!(doc.get(id).unwrap().adjustment, Some(AdjustmentKind::Invert));
    let cube = doc.add(ObjectKind::Cube, ORIGIN);
    doc.set_selection(Some(cube));
    assert!(!doc.set_selected_adjustment(AdjustmentKind::Invert), "no adjustment layer");
}

#[test]
fn undo_redo_add_object() {
    let mut doc = Document::default();
    doc.checkpoint(&[]);
    let id = doc.add(ObjectKind::Cube, ORIGIN);
    doc.commit();
    assert_eq!(doc.object_count(), 1);
    assert!(doc.can_undo());

    assert!(doc.undo());
    assert_eq!(doc.object_count(), 0, "undo removes the added object");
    assert!(doc.get(id).is_none());

    assert!(doc.redo());
    assert_eq!(doc.object_count(), 1, "redo re-adds it");
    assert!(doc.get(id).is_some(), "id resolves again after redo");
}

#[test]
fn undo_redo_remove_object() {
    let mut doc = Document::default();
    let id = doc.add(ObjectKind::Sphere, at(1.0, 0.0, 0.0));
    doc.checkpoint(&[id]);
    doc.remove(id);
    doc.commit();
    assert_eq!(doc.object_count(), 0);

    assert!(doc.undo(), "undo restores the removed object");
    assert_eq!(doc.object_count(), 1);
    let restored = doc.get(id).expect("removed object comes back with its exact id");
    assert_eq!(restored.kind, ObjectKind::Sphere);

    assert!(doc.redo());
    assert_eq!(doc.object_count(), 0, "redo removes it again");
}

#[test]
fn undo_redo_transform_edit() {
    let mut doc = Document::default();
    let id = doc.add(ObjectKind::Cube, ORIGIN);
    doc.checkpoint(&[id]);
    doc.get_mut(id).unwrap().transform.translation = at(5.0, 0.0, 0.0);
    doc.commit();
    assert_eq!(doc.get(id).unwrap().transform.translation, at(5.0, 0.0, 0.0));

    assert!(doc.undo());
    assert_eq!(
        doc.get(id).unwrap().transform.translation,
        ORIGIN,
        "undo restores prior transform"
    );
    assert!(doc.redo());
    assert_eq!(doc.get(id).unwrap().transform.translation, at(5.0, 0.0, 0.0), "redo re-applies");
}

#[test]
fn undo_covers_sculpt_and_skips_noops() {
    let mut doc = Document::default();
    let id = doc.add(ObjectKind::Mesh, ORIGIN);
    doc.get_mut(id).unwrap().mesh = Some(smooth_cube());
    doc.set_selection(Some(id));
    let shape = |doc: &Document| doc.get(id).unwrap().mesh.as_ref().unwrap().vertices.clone();
    let before = shape(&doc);

    doc.checkpoint(&[id]);
    draw(&mut doc, 2.0, 0.3);
    doc.commit();
    let after = shape(&doc);
    assert!(before != after, "sculpt changed the mesh");
    assert!(doc.can_undo());

    assert!(doc.undo());
    assert_eq!(shape(&doc), before, "undo restores pre-sculpt mesh");

    doc.checkpoint(&[id]);
    doc.commit();
    assert!(doc.can_redo(), "the sculpt redo is still available");
    assert!(!doc.can_undo(), "no-op transaction left no undo entry");
}

#[test]
fn strokes_go_by_their_number() {
    let (mut doc, id) = modeling();
    let mark = |x: f32| at(x, x, x);
    doc.get_mut(id).unwrap().transform.translation = at(5.0, 0.0, 0.0);
    let by = Sculptor {
        local: local_point,
        fall: |_: Vec3, center: Vec3, radius: Real| {
            assert_eq!((center, fl(radius)), (at(-5.0, 0.0, 0.0), 0.25), "in the space of the mesh");
            Some(re(8.0))
        },
        normal,
        sum: |_: Vec<Corner>| mark(7.0),
        push: |_: Vec3, n: Vec3, strength: Real, f: Real| {
            assert_eq!((n, fl(strength), fl(f)), (mark(7.0), 1.5, 8.0));
            mark(0.0)
        },
        ease: |_: Vec3, around: Vec<Vec3>, t: Real, _: Real| {
            assert_eq!(around.len(), 6, "three faces with two sides each");
            mark(1.0 + fl(t))
        },
        touches: |_: Vec3, _: Vec3, _: Real| true,
        level: |normals: Vec<Vec3>| Some(normals[0]),
        press: |_: Vec3, n: Vec3, center: Vec3, strength: Real, _: Real| {
            assert_eq!((n, center, fl(strength)), (mark(7.0), at(-5.0, 0.0, 0.0), 1.5));
            mark(2.5)
        },
        pull: |_: Vec3, _: Vec3, _: Real, _: Real| mark(3.0),
    };
    let stroke =
        |doc: &mut Document, op: u8| doc.sculpt_stroke(ORIGIN, re(0.25), re(1.5), op, &by);
    let first = |doc: &Document| doc.get(id).unwrap().mesh.as_ref().unwrap().vertices[0];
    assert!(stroke(&mut doc, 0));
    assert_eq!(first(&doc), mark(0.0));
    assert!(stroke(&mut doc, 1));
    assert_eq!(first(&doc), mark(2.0), "held to one");
    assert!(stroke(&mut doc, 2));
    assert_eq!(first(&doc), mark(2.5));
    assert!(stroke(&mut doc, 3));
    assert_eq!(first(&doc), mark(3.0));
    assert!(!stroke(&mut doc, 4));
    doc.set_selection(None);
    assert!(!stroke(&mut doc, 0));
}

#[test]
fn new_edit_clears_redo() {
    let mut doc = Document::default();
    doc.checkpoint(&[]);
    let _a = doc.add(ObjectKind::Cube, ORIGIN);
    doc.commit();
    doc.undo();
    assert!(doc.can_redo());
    doc.checkpoint(&[]);
    let _b = doc.add(ObjectKind::Sphere, at(0.0, 1.0, 0.0));
    doc.commit();
    assert!(!doc.can_redo(), "new edit clears the redo stack");
}

#[test]
fn single_edits_are_recorded_from_what_was() {
    let mut doc = Document::default();
    let id = doc.add(ObjectKind::Cube, ORIGIN);
    let before = doc.get(id).unwrap().copy();
    assert!(objects_equal(&before, doc.get(id).unwrap()));
    assert!(!doc.record_object_change(before), "nothing changed");
    let before = doc.get(id).unwrap().copy();
    doc.get_mut(id).unwrap().lock = true;
    assert!(!objects_equal(&before, doc.get(id).unwrap()));
    assert!(doc.record_object_change(before));
    assert!(doc.undo());
    assert!(!doc.get(id).unwrap().lock);
    assert!(!doc.undo());
}

#[test]
fn numbers_that_are_none_do_not_count_as_edits() {
    let mut doc = Document::default();
    let id = doc.add(ObjectKind::Cube, ORIGIN);
    doc.get_mut(id).unwrap().opacity = re(f32::NAN);
    let before = doc.get(id).unwrap().copy();
    doc.get_mut(id).unwrap().opacity = re(f32::INFINITY);
    assert!(objects_equal(&before, doc.get(id).unwrap()), "both are written as null");
    doc.get_mut(id).unwrap().opacity = re(0.5);
    assert!(!objects_equal(&before, doc.get(id).unwrap()));
}

#[test]
fn the_history_forgets_its_oldest_edits() {
    let mut doc = Document::default();
    let id = doc.add(ObjectKind::Cube, ORIGIN);
    for i in 0..HISTORY_CAP + 5 {
        doc.checkpoint(&[id]);
        doc.get_mut(id).unwrap().transform.translation = at(i as f32 + 1.0, 0.0, 0.0);
        assert!(doc.commit());
    }
    let mut undone = 0;
    while doc.undo() {
        undone += 1;
    }
    assert_eq!(undone, HISTORY_CAP);
    assert_eq!(doc.get(id).unwrap().transform.translation, at(5.0, 0.0, 0.0));
    assert!(!doc.commit(), "no checkpoint");
}

#[test]
fn skeleton_and_modifiers_survive_save_load() {
    let mut doc = Document::default();
    let id = doc.add(ObjectKind::Mesh, ORIGIN);
    let mesh = smooth_cube();
    if let Some(obj) = doc.get_mut(id) {
        obj.mesh = Some(mesh.copy());
        obj.modifiers.push(Modifier::Decimate { grid_res: 8 });
    }
    doc.set_selection(Some(id));
    assert!(
        doc.auto_rig_selected_mesh(5, &side, &halfway, &along, distance, weigh),
        "rig the cube"
    );

    let back = reopened(&doc);
    let obj = back.get(id).expect("object survives");

    let skel = obj.skeleton.as_ref().expect("skeleton survives save/load");
    assert_eq!(skel.bones.len(), 5, "all 5 bones round-trip");
    assert_eq!(skel.bones[0].parent, None, "root parent preserved");
    assert_eq!(skel.bones[4].parent, Some(3), "chain parent preserved");
    assert!(
        matches!(obj.modifiers.first(), Some(Modifier::Decimate { grid_res: 8 })),
        "decimate modifier round-trips with its param"
    );
}

fn hill(x: usize, y: usize, w: usize, h: usize, color: Option<(u8, u8, u8)>) -> Vec3 {
    let luma = match color {
        None => 0.0,
        Some((r, g, b)) => (0.2126 * r as f32 + 0.7152 * g as f32 + 0.0722 * b as f32) / 255.0,
    };
    at(x as f32 / (w - 1) as f32 - 0.5, luma, y as f32 / (h - 1) as f32 - 0.5)
}

#[test]
fn heightmap_mesh_survives_save_load() {
    let mut doc = Document::default();
    let pixels = vec![200u8; 8 * 8 * 4];
    let id = doc.add_heightmap_mesh(&pixels, 8, 8, 8, ORIGIN, hill);
    let before = size(&doc, id);
    let after = size(&reopened(&doc), id);
    assert_eq!(before, after, "heightmap mesh geometry round-trips losslessly");
    assert!(before.0 > 0, "heightmap actually produced geometry");
}

#[test]
fn coarse_heightmaps_step_across_the_picture() {
    let mut doc = Document::default();
    let mut pixels = Vec::new();
    for i in 0..16u8 {
        pixels.extend_from_slice(&[i, 0, 0, 255]);
    }
    let reds = |doc: &mut Document, w: u32, h: u32, resolution: u32| -> Vec<f32> {
        let id = doc.add_heightmap_mesh(&pixels, w, h, resolution, ORIGIN, |x, y, _, _, c| {
            at(x as f32, c.unwrap().0 as f32, y as f32)
        });
        assert_eq!(doc.get(id).unwrap().kind, ObjectKind::Mesh);
        doc.get(id).unwrap().mesh.as_ref().unwrap().vertices.iter().map(|p| fl(p.y)).collect()
    };
    assert_eq!(reds(&mut doc, 4, 4, 2), vec![0.0, 2.0, 8.0, 10.0]);
    assert_eq!(reds(&mut doc, 4, 4, 3), vec![0.0, 1.0, 2.0, 4.0, 5.0, 6.0, 8.0, 9.0, 10.0]);
    assert_eq!(reds(&mut doc, 8, 2, 2), vec![0.0, 4.0, 8.0, 12.0]);
    assert_eq!(reds(&mut doc, 4, 4, 1), vec![0.0, 2.0, 8.0, 10.0], "at least two by two");
    assert_eq!(reds(&mut doc, 4, 4, 9), (0..16).map(|i| i as f32).collect::<Vec<_>>());
}

#[test]
fn pipes_and_lathes_become_objects() {
    let mut doc = Document::default();
    let moved = |p: Vec3, by: Vec3| point(vector(p) + vector(by));
    let position = at(10.0, 20.0, 30.0);
    let pipe = doc.add_pipe(3, 4, position, |s, p| at(s as f32, p as f32, 0.0), &moved);
    assert_eq!(size(&doc, pipe), (12, 8));
    let corners = &doc.get(pipe).unwrap().mesh.as_ref().unwrap().vertices;
    assert_eq!(corners[0], position);
    assert_eq!(corners[6], at(11.0, 22.0, 30.0), "the third point of the second ring");
    assert_eq!(doc.get(pipe).unwrap().transform, Trs::default());
    let profile = vec![(re(1.0), re(0.0)), (re(1.0), re(1.0))];
    let lathe = doc.add_lathe(&profile, 5, at(0.0, 2.0, 0.0), |s, _, r, y| {
        Vec3 { x: r, y, z: re(s as f32) }
    });
    assert_eq!(size(&doc, lathe), (10, 5));
    assert_eq!(doc.get(lathe).unwrap().transform.translation, at(0.0, 2.0, 0.0));
}

#[test]
fn empty_meshes_are_not_rigged() {
    let (mut doc, id) = modeling();
    doc.get_mut(id).unwrap().mesh = Some(Mesh::empty());
    assert!(!doc.auto_rig_selected_mesh(3, &side, &halfway, &along, distance, weigh));
    doc.set_selection(None);
    assert!(!doc.auto_rig_selected_mesh(3, &side, &halfway, &along, distance, weigh));
    assert!(Skeleton::empty().bones.is_empty());
}

#[test]
fn only_the_face_in_focus_has_to_be_whole() {
    let (mut doc, id) = modeling();
    doc.get_mut(id).unwrap().mesh.as_mut().unwrap().faces.push(Face { indices: vec![99, 100] });
    doc.set_selected_face(Some(1));
    assert!(doc.extrude_selected_mesh(re(0.5), &normal, &raise));
    assert_eq!(size(&doc, id), (12, 11));
    assert_eq!(doc.selected_face(), Some(1));
}
