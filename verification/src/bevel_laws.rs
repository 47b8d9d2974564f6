//! What a bevel does to the faces of a mesh, told by the faces alone.
use crate::bevel::{edge_beveled, first_side, last_side, side_is};
use crate::halfedge::{lemma_polygons_step, polygons};
use crate::mesh::MeshModel;
use crate::number::Vec3;
use vstd::prelude::*;

verus! {

/// The index after place `i` around a face.
pub open spec fn following(face: Seq<u32>, i: int) -> u32 {
    face[if i == face.len() - 1 { 0 } else { i + 1 }]
}

/// The index before place `i` around a face.
pub open spec fn preceding(face: Seq<u32>, i: int) -> u32 {
    face[if i == 0 { face.len() - 1 } else { i - 1 }]
}

/// The index two after place `i` around a face.
pub open spec fn second_following(face: Seq<u32>, i: int) -> u32 {
    face[if i + 2 < face.len() { i + 2 } else { i + 2 - face.len() }]
}

/// Whether side `i` of polygon `f` of a mesh goes from `a` to `b`.
pub open spec fn walks(faces: Seq<Seq<u32>>, f: int, i: int, a: u32, b: u32) -> bool {
    &&& 0 <= f < faces.len()
    &&& faces[f].len() >= 3
    &&& 0 <= i < faces[f].len()
    &&& faces[f][i] == a
    &&& following(faces[f], i) == b
}

/// Whether side `i` of polygon `f` is the only one from `a` to `b`.
pub open spec fn walks_alone(faces: Seq<Seq<u32>>, f: int, i: int, a: u32, b: u32) -> bool {
    &&& walks(faces, f, i, a, b)
    &&& forall|g: int, j: int| #[trigger] walks(faces, g, j, a, b) ==> g == f && j == i
}

/// The face that polygon `k` is.
pub(crate) proof fn face_of_polygon(faces: Seq<Seq<u32>>, k: int) -> (f: int)
    requires
        0 <= k < polygons(faces).len(),
    ensures
        0 <= f < faces.len(),
        faces[f].len() >= 3,
        faces[f] == polygons(faces)[k],
        polygons(faces.take(f)).len() == k,
    decreases faces.len(),
{
    let front = faces.drop_last();
    let last = faces.len() - 1;
    assert(faces.take(last) =~= front);
    if k < polygons(front).len() {
        let f = face_of_polygon(front, k);
        assert(faces.take(f) =~= front.take(f));
        assert(front[f] == faces[f]);
        f
    } else {
        last
    }
}

/// The polygon that face `f` is.
pub(crate) proof fn lemma_polygon_of_face(faces: Seq<Seq<u32>>, f: int)
    requires
        0 <= f < faces.len(),
        faces[f].len() >= 3,
    ensures
        polygons(faces.take(f)).len() < polygons(faces).len(),
        polygons(faces)[polygons(faces.take(f)).len() as int] == faces[f],
    decreases faces.len(),
{
    let front = faces.drop_last();
    assert(faces.take(faces.len() - 1) =~= front);
    if f < faces.len() - 1 {
        assert(front[f] == faces[f]);
        assert(faces.take(f) =~= front.take(f));
        lemma_polygon_of_face(front, f);
    }
}

/// Different faces are different polygons.
proof fn lemma_polygons_apart(faces: Seq<Seq<u32>>, f: int, g: int)
    requires
        0 <= f < g < faces.len(),
        faces[f].len() >= 3,
    ensures
        polygons(faces.take(f)).len() < polygons(faces.take(g)).len(),
    decreases g - f,
{
    lemma_polygons_step(faces, g - 1);
    if f < g - 1 {
        lemma_polygons_apart(faces, f, g - 1);
    }
}

/// Beveling the edge between two faces leaves every other face as it is, and gives each of the two
/// a vertex of its own for each end of the edge: where an end stood in a face, there stands a
/// vertex pulled from that end toward its other neighbour in that face. A quad over the four new
/// vertices bridges the two faces: along the first from `a` to `b`, and along the second back.
pub proof fn bevels_part_the_faces_at_an_edge(
    before: MeshModel,
    after: MeshModel,
    a: u32,
    b: u32,
    k0: int,
    j0: int,
    k1: int,
    j1: int,
    pulled: spec_fn(Vec3, Vec3, Vec3) -> bool,
    f: int,
    i: int,
    g: int,
    j: int,
)
    requires
        before.in_range(),
        before.vertices.len() + 4 <= u32::MAX,
        first_side(polygons(before.faces), k0, j0, a, b),
        last_side(polygons(before.faces), k1, j1, b, a),
        edge_beveled(before, after, a, b, k0, j0, k1, j1, pulled),
        a != b,
        f != g,
        walks_alone(before.faces, f, i, a, b),
        walks_alone(before.faces, g, j, b, a),
    ensures
        ({
            let n = before.vertices.len() as int;
            let p = before.vertices;
            let q = after.vertices;
            let (old_f, old_g) = (before.faces[f], before.faces[g]);
            let (new_f, new_g) = (after.faces[f], after.faces[g]);
            let strip = after.faces[before.faces.len() as int];
            &&& q.len() == n + 4
            &&& forall|v: int| 0 <= v < n ==> #[trigger] q[v] == p[v]
            &&& after.faces.len() == before.faces.len() + 1
            &&& forall|h: int|
                0 <= h < before.faces.len() && h != f && h != g ==> #[trigger] after.faces[h]
                    == before.faces[h]
            &&& new_f.len() == old_f.len() && new_g.len() == old_g.len()
            &&& forall|k: int|
                0 <= k < old_f.len() && old_f[k] != a && old_f[k] != b ==> #[trigger] new_f[k]
                    == old_f[k]
            &&& forall|k: int|
                0 <= k < old_g.len() && old_g[k] != a && old_g[k] != b ==> #[trigger] new_g[k]
                    == old_g[k]
            &&& forall|k: int|
                0 <= k < old_f.len() && old_f[k] == a ==> #[trigger] new_f[k] == strip[0]
            &&& forall|k: int|
                0 <= k < old_f.len() && old_f[k] == b ==> #[trigger] new_f[k] == strip[1]
            &&& forall|k: int|
                0 <= k < old_g.len() && old_g[k] == b ==> #[trigger] new_g[k] == strip[2]
            &&& forall|k: int|
                0 <= k < old_g.len() && old_g[k] == a ==> #[trigger] new_g[k] == strip[3]
            &&& strip.len() == 4
            &&& strip.no_duplicates()
            &&& forall|k: int| 0 <= k < 4 ==> n <= #[trigger] strip[k] < n + 4
            &&& pulled(p[a as int], p[preceding(old_f, i) as int], q[strip[0] as int])
            &&& pulled(p[b as int], p[second_following(old_f, i) as int], q[strip[1] as int])
            &&& pulled(p[b as int], p[preceding(old_g, j) as int], q[strip[2] as int])
            &&& pulled(p[a as int], p[second_following(old_g, j) as int], q[strip[3] as int])
        }),
{
    let polys = polygons(before.faces);
    let faces = before.faces;
    assert(side_is(polys, k0, j0, a, b));
    assert(side_is(polys, k1, j1, b, a));
    let x = face_of_polygon(faces, k0);
    let y = face_of_polygon(faces, k1);
    assert(walks(faces, x, j0, a, b));
    assert(walks(faces, y, j1, b, a));
    assert(x == f && j0 == i && y == g && j1 == j);
    assert(polys[k0] == faces[f] && polys[k1] == faces[g]);
    let p = before.vertices;
    let q = after.vertices;
    assert forall|v: int| 0 <= v < p.len() implies #[trigger] q[v] == p[v] by {
        assert(q.take(p.len() as int)[v] == p[v]);
    }
    assert forall|h: int|
        0 <= h < faces.len() && h != f && h != g implies #[trigger] after.faces[h] == faces[h] by {
        if faces[h].len() >= 3 {
            if h < f {
                lemma_polygons_apart(faces, h, f);
            } else {
                lemma_polygons_apart(faces, f, h);
            }
            if h < g {
                lemma_polygons_apart(faces, h, g);
            } else {
                lemma_polygons_apart(faces, g, h);
            }
        }
    }
    if f < g {
        lemma_polygons_apart(faces, f, g);
    } else {
        lemma_polygons_apart(faces, g, f);
    }
}

} // verus!
