//! What edits of the faces of a mesh promise, told by the faces alone.
use crate::bevel::{
    corner_cut, corner_fan, face_cornered, spokes, first_index, lemma_first_index, lemma_last_index, on_spoke,
    spokes_reach,
};
use crate::bevel_laws::{following, preceding};
use crate::halfedge::{
    across, ahead, crossing, dest_of, edge_at, edge_chain, edge_of, in_quad, is_side, iterate, lemma_crossing_inside,
    lemma_edge_of_side, lemma_side_inside, lemma_sides_linked,
    lemma_walk_sides, linked, lists_sides, locate, offset, opposes, rotation, twinned, walk, HalfEdge,
};
use crate::mesh::{face_below, made_from, outline, pred, succ, MeshModel};
use crate::mesh_edit::{
    bevel_fraction, crossed_at, cut_along, cut_face, cut_faces, inset_fraction, stitched,
    stitched_about, wall,
};
use crate::mesh_laws::crossed_count;
use crate::number::{Real, Vec3};
use crate::subdivide_laws::{corners_before, has_side, joins};
use vstd::prelude::*;

verus! {

proof fn lemma_before(polys: Seq<Seq<u32>>, k: int)
    ensures
        corners_before(polys, k) == offset(polys, k),
    decreases k,
{
    if k > 0 {
        lemma_before(polys, k - 1);
    }
}

/// The half-edge of side `j` of polygon `k`.
pub open spec fn half_edge_of(polys: Seq<Seq<u32>>, k: int, j: int) -> int {
    corners_before(polys, k) + j
}

/// The place after `j` around a loop of `m`.
pub open spec fn next_place(j: int, m: int) -> int {
    if j == m - 1 {
        0
    } else {
        j + 1
    }
}

/// The half-edge of a side springs from the vertex that the side begins at. Its next half-edge is
/// that of the next side, and leads back to it by its previous one. Its twin is a side that goes
/// the other way between the same two vertices, and is missing only where there is none.
pub proof fn half_edges_follow_the_sides(
    hes: Seq<HalfEdge>,
    starts: Seq<u32>,
    polys: Seq<Seq<u32>>,
    k: int,
    j: int,
)
    requires
        lists_sides(hes, starts, polys),
        hes.len() <= u32::MAX,
        forall|h: int| 0 <= h < hes.len() ==> #[trigger] twinned(hes, h),
        has_side(polys, k, j),
    ensures
        ({
            let h = half_edge_of(polys, k, j);
            let m = polys[k].len() as int;
            &&& 0 <= h < hes.len()
            &&& hes[h].origin == polys[k][j]
            &&& hes[h].face == k
            &&& hes[h].next == half_edge_of(polys, k, next_place(j, m))
            &&& hes[hes[h].next as int].prev == h
            &&& hes[hes[h].next as int].origin == following(polys[k], j)
            &&& starts[k] == half_edge_of(polys, k, 0)
            &&& match hes[h].twin {
                Some(t) => exists|l: int, i: int| #[trigger]
                    has_side(polys, l, i) && t == half_edge_of(polys, l, i) && polys[l][i]
                        == following(polys[k], j) && following(polys[l], i) == polys[k][j],
                None => forall|l: int, i: int| #[trigger]
                    has_side(polys, l, i) ==> !(polys[l][i] == following(polys[k], j)
                        && following(polys[l], i) == polys[k][j]),
            }
        }),
{
    let m = polys[k].len() as int;
    let h = offset(polys, k) + j;
    lemma_before(polys, k);
    lemma_edge_of_side(hes, starts, polys, k, j);
    lemma_edge_of_side(hes, starts, polys, k, succ(j, m));
    assert(polys[k][j] == polys[k][j]);
    assert(is_side(hes[h], polys, k, j));
    assert(polys[k][succ(j, m)] == polys[k][succ(j, m)]);
    assert(is_side(hes[offset(polys, k) + succ(j, m)], polys, k, succ(j, m)));
    assert(twinned(hes, h));
    if let Some(t) = hes[h].twin {
        assert(opposes(hes, h, t as int));
        let (l, i) = locate(polys, polys.len() as int, t as int);
        lemma_before(polys, l);
        lemma_edge_of_side(hes, starts, polys, l, i);
        assert(has_side(polys, l, i) && t == half_edge_of(polys, l, i));
    } else {
        assert forall|l: int, i: int| #[trigger] has_side(polys, l, i) implies !(polys[l][i]
            == following(polys[k], j) && following(polys[l], i) == polys[k][j]) by {
            lemma_before(polys, l);
            lemma_edge_of_side(hes, starts, polys, l, i);
            assert(!opposes(hes, h, offset(polys, l) + i));
        }
    }
}

/// Whether an edge lies on side `j` of polygon `k`.
pub open spec fn lies_on(polys: Seq<Seq<u32>>, k: int, j: int, e: (u32, u32)) -> bool {
    joins(polys, k, j, e.0, e.1)
}

/// The place across from `j` around a quad.
pub open spec fn opposite_place(j: int) -> int {
    if j < 2 {
        j + 2
    } else {
        j - 2
    }
}

/// Whether some polygon walks side `j` of polygon `k` the other way.
pub open spec fn is_shared(polys: Seq<Seq<u32>>, k: int, j: int) -> bool {
    exists|l: int, i: int| #[trigger]
        has_side(polys, l, i) && polys[l][i] == following(polys[k], j) && following(polys[l], i)
            == polys[k][j]
}

/// An edge ring begins with its edge and goes from quad to quad: each edge lies on a side of some
/// polygon, and where that is a quad whose side across is shared with another polygon, the edge
/// there is on the ring too. Each edge after the first lies across a quad from the one before it.
pub proof fn rings_go_across_quads(
    hes: Seq<HalfEdge>,
    starts: Seq<u32>,
    polys: Seq<Seq<u32>>,
    h: u32,
    ring: Seq<(u32, u32)>,
    n: int,
)
    requires
        lists_sides(hes, starts, polys),
        hes.len() <= u32::MAX,
        forall|i: int| 0 <= i < hes.len() ==> #[trigger] twinned(hes, i),
        h < hes.len(),
        edge_chain(hes, crossing(hes), h, ring),
        0 <= n < ring.len(),
    ensures
        exists|k: int, j: int| #[trigger]
            lies_on(polys, k, j, ring[n]) && (polys[k].len() == 4 && is_shared(
                polys,
                k,
                opposite_place(j),
            ) ==> exists|e: (u32, u32)| #[trigger]
                ring.contains(e) && lies_on(polys, k, opposite_place(j), e)) && (n + 1 < ring.len()
                ==> polys[k].len() == 4 && lies_on(polys, k, opposite_place(j), ring[n + 1])),
{
    assert forall|i: int| 0 <= i < hes.len() implies ((#[trigger] hes[i]).twin matches Some(t)
        ==> t < hes.len()) by {
        assert(twinned(hes, i));
    }
    lemma_sides_linked(hes, starts, polys);
    let step = crossing(hes);
    assert(iterate(step, h, n as nat) is Some);
    let g = iterate(step, h, n as nat)->0;
    lemma_crossing_inside(hes, h, n as nat);
    let (k, j) = locate(polys, polys.len() as int, g as int);
    lemma_edge_of_side(hes, starts, polys, k, j);
    assert(ring[n] == edge_at(hes, g));
    assert(lies_on(polys, k, j, ring[n]));
    let m = polys[k].len();
    lemma_side_inside(polys, k, j);
    assert(iterate(step, h, (n + 1) as nat) == step(g));
    assert(step(g) == across(hes, g));
    if crate::halfedge::in_quad(hes, g) {
        if m < 4 {
            lemma_walk_sides(hes, starts, polys, k, j, m);
            assert(walk(hes, g, m) == g);
        } else {
            lemma_walk_sides(hes, starts, polys, k, j, 4);
        }
        assert(m == 4);
    }
    if m == 4 {
        lemma_walk_sides(hes, starts, polys, k, j, 1);
        lemma_walk_sides(hes, starts, polys, k, j, 2);
        lemma_walk_sides(hes, starts, polys, k, j, 3);
        lemma_walk_sides(hes, starts, polys, k, j, 4);
        assert(walk(hes, g, 4) == g);
        assert forall|i: nat| 0 < i < 4 implies #[trigger] walk(hes, g, i) != g by {
            assert(i == 1 || i == 2 || i == 3);
        }
        assert(crate::halfedge::in_quad(hes, g));
        let o = opposite_place(j);
        let w = offset(polys, k) + o;
        assert(walk(hes, g, 2) == w);
        lemma_edge_of_side(hes, starts, polys, k, o);
        assert(twinned(hes, w));
        if let Some(t) = hes[w].twin {
            assert(opposes(hes, w, t as int));
            let e = edge_at(hes, t);
            assert(lies_on(polys, k, o, e));
            assert(step(g) == Some(t));
            if n + 1 < ring.len() {
                assert(iterate(step, h, (n + 1) as nat) is Some && ring[n + 1] == e);
            } else {
                assert(iterate(step, h, ring.len()) == Some(t));
            }
            assert(ring.contains(e));
        } else if is_shared(polys, k, o) {
            let (l, i) = choose|l: int, i: int| #[trigger]
                has_side(polys, l, i) && polys[l][i] == following(polys[k], o) && following(
                    polys[l],
                    i,
                ) == polys[k][o];
            lemma_edge_of_side(hes, starts, polys, l, i);
            assert(opposes(hes, w, offset(polys, l) + i));
        }
    }
    if n + 1 < ring.len() {
        assert(iterate(step, h, (n + 1) as nat) is Some);
    }
}

/// Lifting a face leaves all other faces and all vertices as they are. Each corner of the face gets
/// a vertex of its own, moved from the one that it stood at. Over each side stands a wall: it walks
/// the side as the face did, and the side of the lifted face the other way, and it meets the wall
/// over the next side along the same edge, the other way round.
pub proof fn lifting_builds_walls(
    before: MeshModel,
    after: MeshModel,
    idx: int,
    moved: spec_fn(Vec3, Vec3) -> bool,
)
    requires
        before.in_range(),
        0 <= idx < before.faces.len(),
        before.vertices.len() + before.faces[idx].len() <= u32::MAX,
        stitched(before, after, idx, moved),
    ensures
        ({
            let face = before.faces[idx];
            let top = after.faces[idx];
            let n = before.vertices.len() as int;
            let nf = before.faces.len() as int;
            let m = face.len() as int;
            &&& after.vertices.len() == n + m
            &&& forall|v: int| 0 <= v < n ==> #[trigger] after.vertices[v] == before.vertices[v]
            &&& after.faces.len() == nf + m
            &&& forall|f: int|
                0 <= f < nf && f != idx ==> #[trigger] after.faces[f] == before.faces[f]
            &&& top.len() == m
            &&& top.no_duplicates()
            &&& forall|k: int|
                0 <= k < m ==> n <= (#[trigger] top[k]) < n + m && moved(
                    before.vertices[face[k] as int],
                    after.vertices[top[k] as int],
                )
            &&& forall|k: int|
                0 <= k < m ==> {
                    let w = #[trigger] wall_over(before, after, k);
                    let next = after.faces[nf + next_place(k, m)];
                    &&& w.len() == 4
                    &&& w[0] == face[k] && w[1] == following(face, k)
                    &&& w[2] == following(top, k) && w[3] == top[k]
                    &&& next[0] == w[1] && next[3] == w[2]
                }
        }),
{
    let face = before.faces[idx];
    let n = before.vertices.len() as int;
    let nf = before.faces.len() as int;
    let m = face.len() as int;
    assert forall|v: int| 0 <= v < n implies #[trigger] after.vertices[v] == before.vertices[v] by {
        assert(after.vertices.take(n)[v] == before.vertices[v]);
    }
    let top = after.faces[idx];
    assert(top == Seq::new(m as nat, |k: int| (n + k) as u32));
    assert forall|k: int| 0 <= k < m implies n <= (#[trigger] top[k]) < n + m && moved(
        before.vertices[face[k] as int],
        after.vertices[top[k] as int],
    ) by {
        assert(moved(before.vertices[face[k] as int], after.vertices[n + k]));
    }
    assert forall|k: int| 0 <= k < m implies {
        let w = #[trigger] wall_over(before, after, k);
        let next = after.faces[nf + next_place(k, m)];
        &&& w.len() == 4
        &&& w[0] == face[k] && w[1] == following(face, k)
        &&& w[2] == following(top, k) && w[3] == top[k]
        &&& next[0] == w[1] && next[3] == w[2]
    } by {
        let l = next_place(k, m);
        assert(after.faces[nf + k] == wall(face, n, k));
        assert(after.faces[nf + l] == wall(face, n, l));
    }
}

/// The wall over side `k` of the lifted face.
pub open spec fn wall_over(before: MeshModel, after: MeshModel, k: int) -> Seq<u32> {
    after.faces[before.faces.len() + k]
}

/// Where a lifted face is moved: every new vertex by the one direction or middle that is made from
/// the outline of the face as it was.
pub proof fn lifted_faces_move_as_one<
    G: Fn(Vec<Vec3>) -> Vec3,
    F: Fn(Vec3, Vec3, Real) -> Vec3,
>(
    before: MeshModel,
    after: MeshModel,
    idx: int,
    t: Real,
    about: G,
    place: F,
)
    requires
        before.in_range(),
        0 <= idx < before.faces.len(),
        before.vertices.len() + before.faces[idx].len() <= u32::MAX,
        stitched_about(before, after, idx, t, about, place),
    ensures
        exists|center: Vec3, given: Vec<Vec3>|
            {
                &&& #[trigger] about.ensures((given,), center)
                &&& given.len() == before.faces[idx].len()
                &&& forall|k: int|
                    0 <= k < given.len() ==> #[trigger] given[k]
                        == before.vertices[before.faces[idx][k] as int]
                &&& forall|k: int|
                    0 <= k < given.len() ==> place.ensures(
                        (before.vertices[before.faces[idx][k] as int], center, t),
                        after.vertices[(#[trigger] after.faces[idx][k]) as int],
                    )
            },
{
    let face = before.faces[idx];
    let center = choose|center: Vec3| #[trigger]
        made_from(about, outline(before.vertices, face), center) && stitched(
            before,
            after,
            idx,
            |p: Vec3, q: Vec3| place.ensures((p, center, t), q),
        );
    lifting_builds_walls(before, after, idx, |p: Vec3, q: Vec3| place.ensures((p, center, t), q));
    let given = choose|given: Vec<Vec3>|
        given@ == outline(before.vertices, face) && #[trigger] about.ensures((given,), center);
    assert forall|k: int| 0 <= k < given.len() implies #[trigger] given[k]
        == before.vertices[face[k] as int] by {
        assert(given@[k] == outline(before.vertices, face)[k]);
    }
}

/// An inset shrinks by no less than nothing and no more than 0.95, and a bevel pulls by no less than
/// 0.01 and no more than 0.49. What lies between is taken as it is.
pub proof fn amounts_are_held(amount: Real)
    requires
        !amount.nan(),
    ensures
        ({
            let t = inset_fraction(amount);
            let (lo, hi) = (Real { bits: 0 }, Real { bits: 0x3f73_3333 });
            lo.at_most(t) && t.at_most(hi) && (lo.at_most(amount) && amount.at_most(hi) ==> t
                == amount)
        }),
        ({
            let t = bevel_fraction(amount);
            let (lo, hi) = (Real { bits: 0x3c23_d70a }, Real { bits: 0x3efa_e148 });
            lo.at_most(t) && t.at_most(hi) && (lo.at_most(amount) && amount.at_most(hi) ==> t
                == amount)
        }),
{
}

/// Whether the ring crosses a quad from side `p` to side `p + 2`: those two are on the ring, and the
/// two others are not.
pub open spec fn is_crossed(face: Seq<u32>, ring: Seq<(u32, u32)>, p: int) -> bool {
    &&& face.len() == 4
    &&& p == 0 || p == 1
    &&& on_ring(ring, face[p], face[p + 1])
    &&& on_ring(ring, face[p + 2], following(face, p + 2))
    &&& !on_ring(ring, face[1 - p], face[2 - p])
    &&& !on_ring(ring, face[3 - p], following(face, 3 - p))
}

/// Whether the edge between two vertices is on the ring.
pub open spec fn on_ring(ring: Seq<(u32, u32)>, a: u32, b: u32) -> bool {
    exists|i: int| 0 <= i < ring.len() && is_edge(#[trigger] ring[i], a, b)
}

/// Whether an edge lies between two vertices, whichever comes first.
pub open spec fn is_edge(e: (u32, u32), a: u32, b: u32) -> bool {
    e == (a, b) || e == (b, a)
}

/// Whether `v` is the new vertex in the middle of the edge between `a` and `b`.
pub open spec fn is_middle(
    before: MeshModel,
    after: MeshModel,
    ring: Seq<(u32, u32)>,
    between: spec_fn(Vec3, Vec3, Vec3) -> bool,
    a: u32,
    b: u32,
    v: u32,
) -> bool {
    let n = before.vertices.len() as int;
    let (p, q) = (before.vertices[a as int], before.vertices[b as int]);
    &&& n <= v < after.vertices.len()
    &&& is_edge(ring[v - n], a, b)
    &&& between(p, q, after.vertices[v as int]) || between(q, p, after.vertices[v as int])
}

/// Whether all edges of a ring have their smaller end first.
pub open spec fn ring_ordered(ring: Seq<(u32, u32)>) -> bool {
    &&& ring.no_duplicates()
    &&& forall|i: int| 0 <= i < ring.len() ==> (#[trigger] ring[i]).0 <= ring[i].1
}

proof fn lemma_on_ring(ring: Seq<(u32, u32)>, a: u32, b: u32)
    requires
        ring_ordered(ring),
    ensures
        on_ring(ring, a, b) <==> ring.contains(edge_of(a, b)),
        ring.contains(edge_of(a, b)) ==> 0 <= ring.index_of(edge_of(a, b)) < ring.len()
            && ring[ring.index_of(edge_of(a, b))] == edge_of(a, b),
{
    if on_ring(ring, a, b) {
        let i = choose|i: int| 0 <= i < ring.len() && is_edge(#[trigger] ring[i], a, b);
        assert(ring[i] == edge_of(a, b));
    }
    if ring.contains(edge_of(a, b)) {
        let i = ring.index_of(edge_of(a, b));
        assert(is_edge(ring[i], a, b));
    }
}

proof fn lemma_crossed(face: Seq<u32>, ring: Seq<(u32, u32)>, p: int)
    requires
        ring_ordered(ring),
        p == 0 || p == 1,
    ensures
        crossed_at(face, ring, p) <==> is_crossed(face, ring, p),
{
    if face.len() == 4 {
        lemma_on_ring(ring, face[0], face[1]);
        lemma_on_ring(ring, face[1], face[2]);
        lemma_on_ring(ring, face[2], face[3]);
        lemma_on_ring(ring, face[3], face[0]);
    }
}

/// Where the faces that face `f` becomes stand.
proof fn lemma_cut_place(faces: Seq<Seq<u32>>, ring: Seq<(u32, u32)>, n: int, f: int)
    requires
        0 <= f < faces.len(),
    ensures
        ({
            let at = f + crossed_count(faces.take(f), ring);
            let all = cut_faces(faces, ring, n);
            let own = cut_face(faces[f], ring, n);
            &&& at + own.len() <= all.len()
            &&& forall|i: int| 0 <= i < own.len() ==> #[trigger] all[at + i] == own[i]
        }),
    decreases faces.len(),
{
    let front = faces.drop_last();
    let last = faces.len() - 1;
    crate::mesh_laws::lemma_cut_count(front, ring, n);
    assert(faces.take(last) =~= front);
    let all = cut_faces(faces, ring, n);
    let less = cut_faces(front, ring, n);
    if f < last {
        lemma_cut_place(front, ring, n, f);
        assert(faces.take(f) =~= front.take(f));
        let at = f + crossed_count(faces.take(f), ring);
        let own = cut_face(faces[f], ring, n);
        assert forall|i: int| 0 <= i < own.len() implies #[trigger] all[at + i] == own[i] by {
            assert(less[at + i] == own[i]);
        }
    }
}

/// A loop cut leaves every face alone that the ring does not cross. A quad that it crosses becomes
/// two, which meet along the cut from the middle of the one side to the middle of the other, each
/// walking it the other way, and which keep the corners of the quad in their order. Faces on both
/// sides of an edge of the ring share its middle.
pub proof fn loop_cuts_halve_the_quads(
    before: MeshModel,
    after: MeshModel,
    ring: Seq<(u32, u32)>,
    between: spec_fn(Vec3, Vec3, Vec3) -> bool,
    f: int,
    p: int,
)
    requires
        before.in_range(),
        before.vertices.len() + ring.len() <= u32::MAX,
        ring_ordered(ring),
        cut_along(before, after, ring, between),
        0 <= f < before.faces.len(),
        p == 0 || p == 1,
    ensures
        ({
            let at = f + crossed_count(before.faces.take(f), ring);
            let face = before.faces[f];
            let one = after.faces[at as int];
            let other = after.faces[at + 1];
            &&& !is_crossed(face, ring, 0) && !is_crossed(face, ring, 1) ==> one == face
            &&& is_crossed(face, ring, p) ==> {
                &&& one.len() == 4 && other.len() == 4
                &&& one[0] == face[p] && one[3] == following(face, p + 2)
                &&& other[1] == face[p + 1] && other[2] == face[p + 2]
                &&& other[0] == one[1] && other[3] == one[2]
                &&& is_middle(before, after, ring, between, face[p], face[p + 1], one[1])
                &&& is_middle(
                    before,
                    after,
                    ring,
                    between,
                    face[p + 2],
                    following(face, p + 2),
                    one[2],
                )
            }
        }),
        after.vertices.len() == before.vertices.len() + ring.len(),
        forall|v: int|
            0 <= v < before.vertices.len() ==> #[trigger] after.vertices[v] == before.vertices[v],
{
    let n = before.vertices.len() as int;
    let face = before.faces[f];
    lemma_cut_place(before.faces, ring, n, f);
    lemma_crossed(face, ring, 0);
    lemma_crossed(face, ring, 1);
    let own = cut_face(face, ring, n);
    let at = f + crossed_count(before.faces.take(f), ring);
    assert(after.faces[at + 0] == own[0]);
    assert forall|v: int| 0 <= v < n implies #[trigger] after.vertices[v] == before.vertices[v] by {
        assert(after.vertices.take(n)[v] == before.vertices[v]);
    }
    if is_crossed(face, ring, p) {
        assert(face_below(face, before.vertices.len()));
        if p == 1 {
            assert(!crossed_at(face, ring, 0));
        }
        assert(after.faces[at + 1] == own[1]);
        let (a, b, c, d) = (face[p], face[p + 1], face[p + 2], following(face, p + 2));
        lemma_on_ring(ring, a, b);
        lemma_on_ring(ring, c, d);
        let i = ring.index_of(edge_of(a, b));
        let j = ring.index_of(edge_of(c, d));
        assert(between(
            before.vertices[ring[i].0 as int],
            before.vertices[ring[i].1 as int],
            after.vertices[n + i],
        ));
        assert(between(
            before.vertices[ring[j].0 as int],
            before.vertices[ring[j].1 as int],
            after.vertices[n + j],
        ));
    }
}

/// The number that a vertex other than `v` has when `v` is taken out.
pub open spec fn renumbered(i: u32, v: u32) -> int {
    if i > v {
        i - 1
    } else {
        i as int
    }
}

/// Cutting off a corner leaves every other vertex where it is, and every face alone that does not
/// have the corner. A face that has it once gets two vertices in its place: the first on its side
/// that leads to the corner and the second on its side that leads on, each pulled from the corner
/// toward the other end. Two faces that share a side at the corner share the vertex on it.
pub proof fn corner_cuts_shorten_the_sides(
    before: MeshModel,
    after: MeshModel,
    v: u32,
    ends: Seq<u32>,
    pulled: spec_fn(Vec3, Vec3, Vec3) -> bool,
    f: int,
    i: int,
)
    requires
        before.in_range(),
        v < before.vertices.len(),
        before.vertices.len() + ends.len() <= u32::MAX,
        spokes_reach(before.faces, v, ends),
        ends.no_duplicates(),
        corner_cut(before, after, v, ends, pulled),
        has_side(before.faces, f, i),
        before.faces[f][i] == v,
        forall|k: int|
            0 <= k < before.faces[f].len() && k != i ==> #[trigger] before.faces[f][k] != v,
    ensures
        ({
            let old_face = before.faces[f];
            let face = after.faces[f];
            let m = old_face.len() as int;
            let n = before.vertices.len() as int;
            let (p, q) = (before.vertices, after.vertices);
            &&& q.len() == n - 1 + ends.len()
            &&& forall|u: u32| u < n && u != v ==> q[#[trigger] renumbered(u, v)] == p[u as int]
            &&& face.len() == m + 1
            &&& forall|k: int| 0 <= k < i ==> #[trigger] face[k] == renumbered(old_face[k], v)
            &&& forall|k: int|
                i + 1 < k < m + 1 ==> #[trigger] face[k] == renumbered(old_face[k - 1], v)
            &&& is_spoke_vertex(before, after, v, ends, pulled, preceding(old_face, i), face[i])
            &&& is_spoke_vertex(before, after, v, ends, pulled, following(old_face, i), face[i + 1])
        }),
        after.faces.len() == before.faces.len() + 1,
        forall|g: int|
            0 <= g < before.faces.len() && !before.faces[g].contains(v) ==> (
            #[trigger] after.faces[g]).len() == before.faces[g].len() && forall|k: int|
                0 <= k < before.faces[g].len() ==> #[trigger] after.faces[g][k] == renumbered(
                    before.faces[g][k],
                    v,
                ),
{
    let n = before.vertices.len() as int;
    let face = before.faces[f];
    let m = face.len() as int;
    assert(face_below(face, before.vertices.len()));
    lemma_first_index(face, v);
    assert(face.contains(v));
    assert(first_index(face, v) == i);
    let points = choose|points: Seq<Vec3>|
        {
            &&& points.len() == ends.len()
            &&& forall|k: int|
                0 <= k < ends.len() ==> pulled(
                    before.vertices[v as int],
                    before.vertices[ends[k] as int],
                    #[trigger] points[k],
                )
            &&& after.vertices == #[trigger] (before.vertices + points).remove(v as int)
        };
    let (a, b) = (preceding(face, i), following(face, i));
    assert(a == face[pred(i, m)] && b == face[succ(i, m)]);
    lemma_last_index(ends, a);
    lemma_last_index(ends, b);
    let made = face_cornered(face, v, ends, n);
    assert(made[i] == on_spoke(ends, n, a) && made[i + 1] == on_spoke(ends, n, b));
    assert forall|k: int| i + 1 < k < m + 1 implies #[trigger] after.faces[f][k] == renumbered(
        face[k - 1],
        v,
    ) by {
        assert(made[k] == face[k - 1]);
    }
    assert forall|k: int| 0 <= k < i implies #[trigger] after.faces[f][k] == renumbered(face[k], v) by {
        assert(made[k] == face[k]);
    }
    let ka = crate::bevel::last_index(ends, a);
    let kb = crate::bevel::last_index(ends, b);
    assert(pulled(before.vertices[v as int], before.vertices[ends[ka] as int], points[ka]));
    assert(pulled(before.vertices[v as int], before.vertices[ends[kb] as int], points[kb]));
    assert forall|g: int| 0 <= g < before.faces.len() && !before.faces[g].contains(v) implies (
    #[trigger] after.faces[g]).len() == before.faces[g].len() && forall|k: int|
        0 <= k < before.faces[g].len() ==> #[trigger] after.faces[g][k] == renumbered(
            before.faces[g][k],
            v,
        ) by {
        lemma_first_index(before.faces[g], v);
    }
}

/// The edges around a corner come in the order of the faces there: for each edge there is a polygon
/// that goes on along it from the corner, and comes to the corner along the next one. They begin
/// with the first side that springs from the corner, and come back to it.
pub proof fn spokes_go_from_face_to_face(
    polys: Seq<Seq<u32>>,
    v: u32,
    hes: Seq<HalfEdge>,
    fan: Seq<u32>,
    i: int,
)
    requires
        corner_fan(polys, v, hes, fan),
        hes.len() <= u32::MAX,
        0 <= i < fan.len(),
    ensures
        fan.len() >= 3,
        spokes(hes, fan).len() == fan.len(),
        exists|k: int, j: int| #[trigger]
            has_side(polys, k, j) && polys[k][j] == v && following(polys[k], j) == spokes(
                hes,
                fan,
            )[i] && preceding(polys[k], j) == spokes(hes, fan)[next_place(i, fan.len() as int)]
                && (i == 0 ==> forall|l: int, s: int| #[trigger]
                has_side(polys, l, s) && polys[l][s] == v ==> half_edge_of(polys, k, j)
                <= half_edge_of(polys, l, s)),
{
    let starts = choose|starts: Seq<u32>| lists_sides(hes, starts, polys);
    let step = rotation(hes);
    let m = fan.len() as int;
    lemma_fan_inside(hes, starts, polys, v, fan, i);
    let h = fan[i];
    let (k, j) = locate(polys, polys.len() as int, h as int);
    let mk = polys[k].len() as int;
    lemma_edge_of_side(hes, starts, polys, k, j);
    lemma_edge_of_side(hes, starts, polys, k, pred(j, mk));
    assert(polys[k][j] == polys[k][j]);
    assert(is_side(hes[h as int], polys, k, j));
    let before = hes[h as int].prev as int;
    assert(before == offset(polys, k) + pred(j, mk));
    assert(twinned(hes, before));
    let next = next_place(i, m);
    assert(iterate(step, fan[0], (i + 1) as nat) == Some(fan[next])) by {
        if i < m - 1 {
            assert(iterate(step, fan[0], (i + 1) as nat) == Some(fan[i + 1]));
        } else {
            assert(iterate(step, fan[0], fan.len()) == Some(fan[0]));
        }
    }
    assert(iterate(step, fan[0], i as nat) == Some(h));
    assert(step(h) == Some(fan[next]));
    assert(hes[before].twin == Some(fan[next]));
    assert(opposes(hes, before, fan[next] as int));
    assert(dest_of(hes, before) == hes[h as int].origin);
    assert(has_side(polys, k, j));
    if i == 0 {
        assert forall|l: int, s: int| #[trigger] has_side(polys, l, s) && polys[l][s] == v implies half_edge_of(
            polys,
            k,
            j,
        ) <= half_edge_of(polys, l, s) by {
            lemma_before(polys, k);
            lemma_before(polys, l);
            lemma_edge_of_side(hes, starts, polys, l, s);
            if offset(polys, l) + s < h {
                assert(hes[offset(polys, l) + s].origin != v);
            }
        }
    }
}

/// All half-edges of a fan spring from its corner.
proof fn lemma_fan_inside(
    hes: Seq<HalfEdge>,
    starts: Seq<u32>,
    polys: Seq<Seq<u32>>,
    v: u32,
    fan: Seq<u32>,
    i: int,
)
    requires
        corner_fan(polys, v, hes, fan),
        lists_sides(hes, starts, polys),
        hes.len() <= u32::MAX,
        0 <= i < fan.len(),
    ensures
        fan[i] < hes.len(),
        hes[fan[i] as int].origin == v,
    decreases i,
{
    let step = rotation(hes);
    if i > 0 {
        lemma_fan_inside(hes, starts, polys, v, fan, i - 1);
        let h = fan[i - 1];
        let (k, j) = locate(polys, polys.len() as int, h as int);
        let mk = polys[k].len() as int;
        lemma_edge_of_side(hes, starts, polys, k, j);
        lemma_edge_of_side(hes, starts, polys, k, pred(j, mk));
        assert(polys[k][j] == polys[k][j]);
        assert(is_side(hes[h as int], polys, k, j));
        let before = hes[h as int].prev as int;
        assert(twinned(hes, before));
        assert(iterate(step, fan[0], (i - 1) as nat) == Some(h));
        assert(iterate(step, fan[0], i as nat) == Some(fan[i]));
        assert(step(h) == Some(fan[i]));
        assert(opposes(hes, before, fan[i] as int));
    }
}

/// Whether `x` is the new vertex on the edge from corner `v` to `d`. There is one for each end.
pub open spec fn is_spoke_vertex(
    before: MeshModel,
    after: MeshModel,
    v: u32,
    ends: Seq<u32>,
    pulled: spec_fn(Vec3, Vec3, Vec3) -> bool,
    d: u32,
    x: u32,
) -> bool {
    let first = before.vertices.len() - 1;
    &&& first <= x < first + ends.len()
    &&& ends[x - first] == d
    &&& pulled(before.vertices[v as int], before.vertices[d as int], after.vertices[x as int])
}

/// The cap over a cut corner has a vertex for each edge at the corner, against the order of the
/// edges around it.
pub proof fn caps_close_the_corner(
    before: MeshModel,
    after: MeshModel,
    v: u32,
    ends: Seq<u32>,
    pulled: spec_fn(Vec3, Vec3, Vec3) -> bool,
    k: int,
)
    requires
        v < before.vertices.len(),
        before.vertices.len() + ends.len() <= u32::MAX,
        ends.no_duplicates(),
        corner_cut(before, after, v, ends, pulled),
        0 <= k < ends.len(),
    ensures
        after.faces.len() == before.faces.len() + 1,
        after.faces[before.faces.len() as int].len() == ends.len(),
        is_spoke_vertex(
            before,
            after,
            v,
            ends,
            pulled,
            ends[ends.len() - 1 - k],
            after.faces[before.faces.len() as int][k],
        ),
{
    let n = before.vertices.len() as int;
    let points = choose|points: Seq<Vec3>|
        {
            &&& points.len() == ends.len()
            &&& forall|k: int|
                0 <= k < ends.len() ==> pulled(
                    before.vertices[v as int],
                    before.vertices[ends[k] as int],
                    #[trigger] points[k],
                )
            &&& after.vertices == #[trigger] (before.vertices + points).remove(v as int)
        };
    let d = ends[ends.len() - 1 - k];
    lemma_last_index(ends, d);
    let at = crate::bevel::last_index(ends, d);
    assert(ends.contains(d));
    assert(pulled(before.vertices[v as int], before.vertices[ends[at] as int], points[at]));
}

/// An edge loop goes straight on: the next edge begins where the one before ends, in the quad across
/// the edge that leaves from there. It goes on exactly where there are quads on both sides of that
/// edge.
pub proof fn loops_go_straight_on(hes: Seq<HalfEdge>, h: u32)
    requires
        linked(hes),
        forall|i: int| 0 <= i < hes.len() ==> #[trigger] twinned(hes, i),
        h < hes.len(),
    ensures
        match ahead(hes, h) {
            Some(g) => {
                let side = hes[h as int].next as int;
                &&& g < hes.len()
                &&& hes[g as int].origin == dest_of(hes, h as int)
                &&& hes[side].twin is Some
                &&& hes[hes[side].twin->0 as int].next == g
                &&& in_quad(hes, h) && in_quad(hes, g)
            },
            None => {
                let side = hes[h as int].next as int;
                ||| hes[side].twin is None
                ||| !in_quad(hes, h)
                ||| !in_quad(hes, hes[hes[side].twin->0 as int].next)
            },
        },
{
    let side = hes[h as int].next as int;
    assert(twinned(hes, side));
}

} // verus!
