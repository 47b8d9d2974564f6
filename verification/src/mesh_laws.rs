//! What every edit keeps: faces name vertices that the mesh has, and counts add up.
use crate::bevel::{
    cap_face, corner_cut, edge_beveled, face_beveled, face_cornered, first_index,
    lemma_first_index, lemma_last_index, on_spoke, spokes_reach,
};
use crate::halfedge::edge_of;
use crate::mesh::{face_below, faces_below, pred, succ, MeshModel};
use crate::mesh_edit::{crossed_at, cut_along, cut_face, cut_faces, halves, side_on};
use crate::number::Vec3;
use vstd::prelude::*;

verus! {

proof fn lemma_cut_face_below(face: Seq<u32>, ring: Seq<(u32, u32)>, n: nat)
    requires
        face_below(face, n),
        n + ring.len() <= u32::MAX,
    ensures
        faces_below(cut_face(face, ring, n as int), n + ring.len()),
{
    let all = n + ring.len();
    let out = cut_face(face, ring, n as int);
    if crossed_at(face, ring, 0) || crossed_at(face, ring, 1) {
        let p: int = if crossed_at(face, ring, 0) { 0 } else { 1 };
        assert(side_on(face, ring, p) && side_on(face, ring, p + 2));
        let e = edge_of(face[p], face[p + 1]);
        let g = edge_of(face[p + 2], face[succ(p + 2, 4)]);
        assert(ring.contains(e) && ring.contains(g));
        assert(0 <= ring.index_of(e) < ring.len() && 0 <= ring.index_of(g) < ring.len());
        assert(out == halves(face, ring, n as int, p));
        assert(face_below(out[0], all));
        assert(face_below(out[1], all));
    } else {
        assert(face_below(out[0], all));
    }
    assert forall|f: int| 0 <= f < out.len() implies #[trigger] face_below(out[f], all) by {
        if f == 0 {
            assert(face_below(out[0], all));
        } else {
            assert(face_below(out[1], all));
        }
    }
}

proof fn lemma_cut_faces_below(faces: Seq<Seq<u32>>, ring: Seq<(u32, u32)>, n: nat)
    requires
        faces_below(faces, n),
        n + ring.len() <= u32::MAX,
    ensures
        faces_below(cut_faces(faces, ring, n as int), n + ring.len()),
    decreases faces.len(),
{
    if faces.len() > 0 {
        let rest = faces.drop_last();
        assert(faces_below(rest, n)) by {
            assert forall|f: int| 0 <= f < rest.len() implies #[trigger] face_below(rest[f], n) by {
                assert(face_below(faces[f], n));
            }
        }
        lemma_cut_faces_below(rest, ring, n);
        assert(face_below(faces[faces.len() - 1], n));
        lemma_cut_face_below(faces.last(), ring, n);
        let a = cut_faces(rest, ring, n as int);
        let b = cut_face(faces.last(), ring, n as int);
        assert forall|f: int| 0 <= f < (a + b).len() implies #[trigger] face_below(
            (a + b)[f],
            n + ring.len(),
        ) by {
            if f < a.len() {
                assert(face_below(a[f], n + ring.len()));
            } else {
                assert(face_below(b[f - a.len()], n + ring.len()));
            }
        }
    }
}

/// How many of the first faces the ring crosses.
pub open spec fn crossed_count(faces: Seq<Seq<u32>>, ring: Seq<(u32, u32)>) -> nat
    decreases faces.len(),
{
    if faces.len() == 0 {
        0
    } else if crossed_at(faces.last(), ring, 0) || crossed_at(faces.last(), ring, 1) {
        crossed_count(faces.drop_last(), ring) + 1
    } else {
        crossed_count(faces.drop_last(), ring)
    }
}

pub(crate) proof fn lemma_cut_count(faces: Seq<Seq<u32>>, ring: Seq<(u32, u32)>, n: int)
    ensures
        cut_faces(faces, ring, n).len() == faces.len() + crossed_count(faces, ring),
    decreases faces.len(),
{
    if faces.len() > 0 {
        lemma_cut_count(faces.drop_last(), ring, n);
    }
}

/// A loop cut gives a mesh whose faces name its own vertices, with one vertex more for each
/// edge of the ring and one face more for each quad that the ring crosses.
pub proof fn loop_cut_keeps_range(
    before: MeshModel,
    after: MeshModel,
    ring: Seq<(u32, u32)>,
    between: spec_fn(Vec3, Vec3, Vec3) -> bool,
)
    requires
        before.in_range(),
        before.vertices.len() + ring.len() <= u32::MAX,
        cut_along(before, after, ring, between),
    ensures
        after.in_range(),
        after.vertices.len() == before.vertices.len() + ring.len(),
        after.faces.len() == before.faces.len() + crossed_count(before.faces, ring),
{
    lemma_cut_faces_below(before.faces, ring, before.vertices.len());
    lemma_cut_count(before.faces, ring, before.vertices.len() as int);
}

/// A corner bevel gives a mesh whose faces name its own vertices, with one vertex for each
/// spoke in place of the corner, and one face more.
pub proof fn corner_bevel_keeps_range(
    before: MeshModel,
    after: MeshModel,
    v: u32,
    ends: Seq<u32>,
    pulled: spec_fn(Vec3, Vec3, Vec3) -> bool,
)
    requires
        before.in_range(),
        v < before.vertices.len(),
        ends.len() > 0,
        before.vertices.len() + ends.len() <= u32::MAX,
        spokes_reach(before.faces, v, ends),
        corner_cut(before, after, v, ends, pulled),
    ensures
        after.in_range(),
        after.vertices.len() == before.vertices.len() - 1 + ends.len(),
        after.faces.len() == before.faces.len() + 1,
{
    let n = before.vertices.len() as int;
    let all = after.vertices.len();
    assert forall|f: int| 0 <= f < after.faces.len() implies #[trigger] face_below(
        after.faces[f],
        all,
    ) by {
        if f < before.faces.len() {
            let face = before.faces[f];
            let m = face.len() as int;
            let at = first_index(face, v);
            lemma_first_index(face, v);
            assert(face_below(face, before.vertices.len()));
            let made = face_cornered(face, v, ends, n);
            if at < m {
                lemma_last_index(ends, face[pred(at, m)]);
                lemma_last_index(ends, face[succ(at, m)]);
            }
            assert forall|k: int| 0 <= k < made.len() implies #[trigger] made[k] < n + ends.len() by {
                if at < m && k > at + 1 {
                    assert(made[k] == face[k - 1]);
                } else if at < m && k < at {
                    assert(made[k] == face[k]);
                }
            }
            assert forall|k: int| 0 <= k < after.faces[f].len() implies #[trigger] after.faces[f][k]
                < all by {
                assert(made[k] < n + ends.len());
            }
        } else {
            let cap = cap_face(ends, n);
            assert forall|k: int| 0 <= k < after.faces[f].len() implies #[trigger] after.faces[f][k]
                < all by {
                let d = ends[ends.len() - 1 - k];
                lemma_last_index(ends, d);
                assert(cap[k] == on_spoke(ends, n, d));
            }
        }
    }
}

/// An edge bevel gives a mesh whose faces name its own vertices, with four vertices and one
/// face more.
pub proof fn edge_bevel_keeps_range(
    before: MeshModel,
    after: MeshModel,
    a: u32,
    b: u32,
    k0: int,
    j0: int,
    k1: int,
    j1: int,
    pulled: spec_fn(Vec3, Vec3, Vec3) -> bool,
)
    requires
        before.in_range(),
        before.vertices.len() + 4 <= u32::MAX,
        edge_beveled(before, after, a, b, k0, j0, k1, j1, pulled),
    ensures
        after.in_range(),
        after.vertices.len() == before.vertices.len() + 4,
        after.faces.len() == before.faces.len() + 1,
{
    let n = before.vertices.len() as int;
    assert forall|f: int| 0 <= f < after.faces.len() implies #[trigger] face_below(
        after.faces[f],
        after.vertices.len(),
    ) by {
        if f < before.faces.len() {
            assert(face_below(before.faces[f], before.vertices.len()));
            assert(after.faces[f] == face_beveled(before.faces, f, a, b, k0, k1, n));
            assert forall|k: int| 0 <= k < after.faces[f].len() implies #[trigger] after.faces[f][k]
                < n + 4 by {
                assert(before.faces[f][k] < n);
            }
        }
    }
}

} // verus!
