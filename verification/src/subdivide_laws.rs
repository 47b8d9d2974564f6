//! What subdivision makes of a mesh, told by the sides and the corners of its faces.
use crate::bevel_laws::following;
use crate::halfedge::{edge_of, offset};
use crate::mesh::{made_from, outline, MeshModel};
use crate::number::Vec3;
use crate::subdivide::{
    borders, both_sides, corner_quad, ends, faces_around, fanned, incident, is_relaxed, side_edge,
    subdivided, uses, uses_upto, VertexRule,
};
use vstd::prelude::*;

verus! {

/// Whether a face has a side `i`, which goes on from its corner `i`.
pub open spec fn has_side(faces: Seq<Seq<u32>>, f: int, i: int) -> bool {
    0 <= f < faces.len() && 0 <= i < faces[f].len()
}

/// Whether side `i` of face `f` joins `a` and `b`, whichever way.
pub open spec fn joins(faces: Seq<Seq<u32>>, f: int, i: int, a: u32, b: u32) -> bool {
    has_side(faces, f, i) && ((faces[f][i] == a && following(faces[f], i) == b) || (faces[f][i] == b
        && following(faces[f], i) == a))
}

/// Whether two pairs hold the same two points.
pub open spec fn same_pair(p: (Vec3, Vec3), a: Vec3, b: Vec3) -> bool {
    p == (a, b) || p == (b, a)
}

/// How many corners the first `f` faces have together.
pub open spec fn corners_before(faces: Seq<Seq<u32>>, f: int) -> int
    decreases f,
{
    if f <= 0 {
        0
    } else {
        corners_before(faces, f - 1) + faces[f - 1].len()
    }
}

proof fn lemma_corners_before(faces: Seq<Seq<u32>>, f: int)
    ensures
        corners_before(faces, f) == offset(faces, f),
    decreases f,
{
    if f > 0 {
        lemma_corners_before(faces, f - 1);
    }
}

/// The sides that use edge `e`, in order.
spec fn using_upto(faces: Seq<Seq<u32>>, f: int, k: int, e: (u32, u32)) -> Seq<(int, int)>
    decreases f, k,
{
    if k > 0 {
        let rest = using_upto(faces, f, k - 1, e);
        if side_edge(faces[f], k - 1) == e {
            rest.push((f, k - 1))
        } else {
            rest
        }
    } else if f > 0 {
        using_upto(faces, f - 1, faces[f - 1].len() as int, e)
    } else {
        Seq::empty()
    }
}

spec fn earlier(s: (int, int), f: int, k: int) -> bool {
    s.0 < f || (s.0 == f && s.1 < k)
}

proof fn lemma_using(faces: Seq<Seq<u32>>, f: int, k: int, e: (u32, u32))
    requires
        faces.len() <= usize::MAX,
        0 <= f <= faces.len(),
        0 <= k,
        f == faces.len() ==> k == 0,
        f < faces.len() ==> k <= faces[f].len(),
    ensures
        ({
            let s = using_upto(faces, f, k, e);
            &&& s.len() == uses_upto(faces, f, k, e).len()
            &&& s.no_duplicates()
            &&& forall|i: int|
                0 <= i < s.len() ==> uses_upto(faces, f, k, e)[i] == (#[trigger] s[i]).0
                    && has_side(faces, s[i].0, s[i].1) && side_edge(faces[s[i].0], s[i].1) == e
                    && earlier(s[i], f, k)
            &&& forall|g: int, j: int|
                has_side(faces, g, j) && earlier((g, j), f, k) && #[trigger] side_edge(faces[g], j)
                    == e ==> s.contains((g, j))
        }),
    decreases f, k,
{
    let s = using_upto(faces, f, k, e);
    if k > 0 {
        lemma_using(faces, f, k - 1, e);
        let rest = using_upto(faces, f, k - 1, e);
        assert forall|i: int| 0 <= i < s.len() implies uses_upto(faces, f, k, e)[i] == (
        #[trigger] s[i]).0 && has_side(faces, s[i].0, s[i].1) && side_edge(faces[s[i].0], s[i].1)
            == e && earlier(s[i], f, k) by {
            if i < rest.len() {
                assert(s[i] == rest[i]);
                assert(earlier(rest[i], f, k - 1));
            }
        }
        assert forall|i: int, j: int| 0 <= i < s.len() && 0 <= j < s.len() && i != j implies s[i]
            != s[j] by {
            if i < rest.len() && j < rest.len() {
                assert(rest[i] != rest[j]);
            } else if i < rest.len() {
                assert(earlier(rest[i], f, k - 1));
            } else {
                assert(earlier(rest[j], f, k - 1));
            }
        }
        assert forall|g: int, j: int|
            has_side(faces, g, j) && earlier((g, j), f, k) && #[trigger] side_edge(faces[g], j)
                == e implies s.contains((g, j)) by {
            if g == f && j == k - 1 {
                assert(s[s.len() - 1] == (g, j));
            } else {
                assert(earlier((g, j), f, k - 1));
                assert(rest.contains((g, j)));
                let i = rest.index_of((g, j));
                assert(s[i] == (g, j));
            }
        }
    } else if f > 0 {
        let m = faces[f - 1].len() as int;
        lemma_using(faces, f - 1, m, e);
        assert forall|i: int| 0 <= i < s.len() implies uses_upto(faces, f, k, e)[i] == (
        #[trigger] s[i]).0 && has_side(faces, s[i].0, s[i].1) && side_edge(faces[s[i].0], s[i].1)
            == e && earlier(s[i], f, k) by {
            assert(earlier(using_upto(faces, f - 1, m, e)[i], f - 1, m));
        }
        assert forall|g: int, j: int|
            has_side(faces, g, j) && earlier((g, j), f, k) && #[trigger] side_edge(faces[g], j)
                == e implies s.contains((g, j)) by {
            assert(earlier((g, j), f - 1, m));
        }
    }
}

/// Sides that join the same two vertices, and only those, have the same edge.
proof fn lemma_side_edges(faces: Seq<Seq<u32>>, f: int, i: int, a: u32, b: u32)
    requires
        has_side(faces, f, i),
    ensures
        joins(faces, f, i, a, b) <==> side_edge(faces[f], i) == edge_of(a, b),
{
}

/// The number of sides that join two vertices, by the sides alone.
proof fn lemma_users(faces: Seq<Seq<u32>>, a: u32, b: u32)
    requires
        faces.len() <= usize::MAX,
    ensures
        ({
            let by = uses(faces, edge_of(a, b));
            let s = using_upto(faces, faces.len() as int, 0, edge_of(a, b));
            &&& by.len() == s.len()
            &&& s.no_duplicates()
            &&& forall|i: int| 0 <= i < s.len() ==> by[i] == (#[trigger] s[i]).0 && joins(
                faces,
                s[i].0,
                s[i].1,
                a,
                b,
            )
            &&& forall|g: int, j: int| #[trigger] joins(faces, g, j, a, b) ==> s.contains((g, j))
        }),
{
    let e = edge_of(a, b);
    lemma_using(faces, faces.len() as int, 0, e);
    let s = using_upto(faces, faces.len() as int, 0, e);
    assert forall|i: int| 0 <= i < s.len() implies joins(
        faces,
        (#[trigger] s[i]).0,
        s[i].1,
        a,
        b,
    ) by {
        lemma_side_edges(faces, s[i].0, s[i].1, a, b);
    }
    assert forall|g: int, j: int| #[trigger] joins(faces, g, j, a, b) implies s.contains((g, j)) by {
        lemma_side_edges(faces, g, j, a, b);
        assert(earlier((g, j), faces.len() as int, 0));
        assert(side_edge(faces[g], j) == e);
    }
}

/// The number of the quad at corner `i` of face `f`.
pub open spec fn quad_at(faces: Seq<Seq<u32>>, f: int, i: int) -> int {
    corners_before(faces, f) + i
}

/// The number of the point of side `i` of face `f`, read from the quad at its corner.
pub open spec fn side_point(before: MeshModel, after: MeshModel, f: int, i: int) -> int {
    after.faces[quad_at(before.faces, f, i)][1] as int
}

/// Every corner of a face becomes a quad: the corner, the point of the side ahead, the point of
/// the face, and the point of the side behind. Sides that join the same two vertices share their
/// point, and no others do.
pub proof fn corners_become_quads(before: MeshModel, after: MeshModel, edges: Seq<(u32, u32)>)
    requires
        before.in_range(),
        before.vertices.len() + before.faces.len() + edges.len() <= u32::MAX,
        before.faces.len() <= usize::MAX,
        fanned(before, after, edges),
    ensures
        after.faces.len() == corners_before(before.faces, before.faces.len() as int),
        forall|f: int, i: int| #[trigger]
            has_side(before.faces, f, i) ==> {
                let quad = after.faces[quad_at(before.faces, f, i)];
                let n = before.vertices.len() as int;
                let m = before.faces[f].len() as int;
                &&& quad.len() == 4
                &&& quad[0] == before.faces[f][i]
                &&& quad[1] == side_point(before, after, f, i)
                &&& quad[2] == n + f
                &&& quad[3] == side_point(before, after, f, if i == 0 { m - 1 } else { i - 1 })
                &&& n + before.faces.len() <= side_point(before, after, f, i)
                    < after.vertices.len()
            },
        forall|f: int, i: int, g: int, j: int|
            #![trigger has_side(before.faces, f, i), has_side(before.faces, g, j)]
            has_side(before.faces, f, i) && has_side(before.faces, g, j) ==> (side_point(
                before,
                after,
                f,
                i,
            ) == side_point(before, after, g, j) <==> joins(
                before.faces,
                g,
                j,
                before.faces[f][i],
                following(before.faces[f], i),
            )),
{
    let faces = before.faces;
    let n = before.vertices.len() as int;
    lemma_corners_before(faces, faces.len() as int);
    assert forall|f: int, i: int| #[trigger] has_side(faces, f, i) implies {
        let quad = after.faces[quad_at(faces, f, i)];
        let m = faces[f].len() as int;
        &&& quad.len() == 4
        &&& quad[0] == faces[f][i]
        &&& quad[1] == side_point(before, after, f, i)
        &&& quad[2] == n + f
        &&& quad[3] == side_point(before, after, f, if i == 0 { m - 1 } else { i - 1 })
        &&& n + faces.len() <= side_point(before, after, f, i) < after.vertices.len()
    } by {
        lemma_quad(before, after, edges, f, i);
        let m = faces[f].len() as int;
        let h = if i == 0 { m - 1 } else { i - 1 };
        lemma_quad(before, after, edges, f, h);
    }
    assert forall|f: int, i: int, g: int, j: int|
        #![trigger has_side(faces, f, i), has_side(faces, g, j)]
        has_side(faces, f, i) && has_side(faces, g, j) implies (side_point(before, after, f, i)
        == side_point(before, after, g, j) <==> joins(
        faces,
        g,
        j,
        faces[f][i],
        following(faces[f], i),
    )) by {
        lemma_quad(before, after, edges, f, i);
        lemma_quad(before, after, edges, g, j);
        let e = side_edge(faces[f], i);
        let d = side_edge(faces[g], j);
        lemma_side_edges(faces, g, j, faces[f][i], following(faces[f], i));
        assert(e == edge_of(faces[f][i], following(faces[f], i)));
        if edges.index_of(e) == edges.index_of(d) {
            assert(edges[edges.index_of(e)] == e && edges[edges.index_of(d)] == d);
        }
    }
}

proof fn lemma_quad(before: MeshModel, after: MeshModel, edges: Seq<(u32, u32)>, f: int, i: int)
    requires
        before.in_range(),
        before.vertices.len() + before.faces.len() + edges.len() <= u32::MAX,
        before.faces.len() <= usize::MAX,
        fanned(before, after, edges),
        has_side(before.faces, f, i),
    ensures
        ({
            let quad = after.faces[quad_at(before.faces, f, i)];
            let n = before.vertices.len() as int;
            let m = before.faces[f].len() as int;
            let base = n + before.faces.len();
            let e = side_edge(before.faces[f], i);
            let h = if i == 0 { m - 1 } else { i - 1 };
            &&& quad.len() == 4
            &&& quad[0] == before.faces[f][i]
            &&& quad[1] == base + edges.index_of(e)
            &&& quad[2] == n + f
            &&& quad[3] == base + edges.index_of(side_edge(before.faces[f], h))
            &&& edges.contains(e)
            &&& 0 <= edges.index_of(e) < edges.len()
        }),
{
    let faces = before.faces;
    let n = before.vertices.len() as int;
    let m = faces[f].len() as int;
    let h = if i == 0 { m - 1 } else { i - 1 };
    lemma_corners_before(faces, f);
    assert(after.faces[offset(faces, f) + i] == corner_quad(faces, edges, n, f, i));
    lemma_listed(faces, edges, f, i);
    lemma_listed(faces, edges, f, h);
    assert(following(faces[f], h) == faces[f][i]);
}

/// Every side is in a full list of edges.
proof fn lemma_listed(faces: Seq<Seq<u32>>, edges: Seq<(u32, u32)>, f: int, i: int)
    requires
        faces.len() <= usize::MAX,
        crate::subdivide::enumerates(faces, edges),
        has_side(faces, f, i),
    ensures
        edges.contains(side_edge(faces[f], i)),
        0 <= edges.index_of(side_edge(faces[f], i)) < edges.len(),
{
    let (a, b) = (faces[f][i], following(faces[f], i));
    lemma_users(faces, a, b);
    let s = using_upto(faces, faces.len() as int, 0, edge_of(a, b));
    assert(joins(faces, f, i, a, b));
    assert(s.contains((f, i)));
    assert(side_edge(faces[f], i) == edge_of(a, b));
    assert(uses(faces, edge_of(a, b)).len() > 0);
    let e = edge_of(a, b);
    assert(edges.contains(e));
    let k = choose|k: int| 0 <= k < edges.len() && edges[k] == e;
    assert(edges[k] == e);
    assert(0 <= edges.index_of(e) < edges.len());
}

/// The point of a face is made from the positions around it.
pub proof fn face_points_are_middles<
    C: Fn(Vec<Vec3>) -> Vec3,
    E: Fn(Vec3, Vec3, Option<(Vec3, Vec3)>) -> Vec3,
    R: Fn(Vec3, VertexRule) -> Vec3,
>(
    before: MeshModel,
    after: MeshModel,
    edges: Seq<(u32, u32)>,
    middle: C,
    join: E,
    relax: R,
    f: int,
)
    requires
        subdivided(before, after, edges, middle, join, relax),
        0 <= f < before.faces.len(),
    ensures
        exists|given: Vec<Vec3>|
            {
                &&& #[trigger] middle.ensures((given,), after.vertices[before.vertices.len() + f])
                &&& given.len() == before.faces[f].len()
                &&& forall|k: int|
                    0 <= k < given.len() ==> #[trigger] given[k]
                        == before.vertices[before.faces[f][k] as int]
            },
{
    let n = before.vertices.len() as int;
    assert(made_from(
        middle,
        outline(before.vertices, before.faces[f]),
        after.vertices[n + f],
    ));
    let given = choose|given: Vec<Vec3>|
        given@ == outline(before.vertices, before.faces[f]) && #[trigger] middle.ensures(
            (given,),
            after.vertices[n + f],
        );
    assert forall|k: int| 0 <= k < given.len() implies #[trigger] given[k]
        == before.vertices[before.faces[f][k] as int] by {
        assert(given@[k] == outline(before.vertices, before.faces[f])[k]);
    }
}

/// Whether the point of side `i` of face `f` is made from the positions of its two ends, in some
/// order, and from `sides`.
pub open spec fn joined_from<E: Fn(Vec3, Vec3, Option<(Vec3, Vec3)>) -> Vec3>(
    before: MeshModel,
    after: MeshModel,
    join: E,
    f: int,
    i: int,
    sides: Option<(Vec3, Vec3)>,
) -> bool {
    let a = before.vertices[before.faces[f][i] as int];
    let b = before.vertices[following(before.faces[f], i) as int];
    let point = after.vertices[side_point(before, after, f, i)];
    join.ensures((a, b, sides), point) || join.ensures((b, a, sides), point)
}

/// Where exactly two sides join two vertices, the point of the edge is made from its ends and the
/// points of the faces of both sides: each occurs. Where one side alone joins them, or more than
/// two do, it is made from its ends only.
pub proof fn edge_points_see_both_faces<
    C: Fn(Vec<Vec3>) -> Vec3,
    E: Fn(Vec3, Vec3, Option<(Vec3, Vec3)>) -> Vec3,
    R: Fn(Vec3, VertexRule) -> Vec3,
>(
    before: MeshModel,
    after: MeshModel,
    edges: Seq<(u32, u32)>,
    middle: C,
    join: E,
    relax: R,
    f: int,
    i: int,
    g: int,
    j: int,
)
    requires
        before.in_range(),
        before.vertices.len() + before.faces.len() + edges.len() <= u32::MAX,
        before.faces.len() <= usize::MAX,
        subdivided(before, after, edges, middle, join, relax),
        has_side(before.faces, f, i),
        joins(before.faces, g, j, before.faces[f][i], following(before.faces[f], i)),
    ensures
        ({
            let (a, b) = (before.faces[f][i], following(before.faces[f], i));
            let n = before.vertices.len();
            let x = after.vertices[n + f];
            let y = after.vertices[n + g];
            let only = forall|h: int, k: int| #[trigger]
                joins(before.faces, h, k, a, b) ==> (h, k) == (f, i) || (h, k) == (g, j);
            &&& (f, i) != (g, j) && only ==> exists|p: (Vec3, Vec3)|
                same_pair(p, x, y) && #[trigger] joined_from(before, after, join, f, i, Some(p))
            &&& (f, i) == (g, j) && only ==> joined_from(before, after, join, f, i, None)
            &&& (f, i) != (g, j) && !only ==> joined_from(before, after, join, f, i, None)
        }),
{
    let faces = before.faces;
    let n = before.vertices.len() as int;
    let nf = faces.len() as int;
    let (a, b) = (faces[f][i], following(faces[f], i));
    let e = edge_of(a, b);
    lemma_quad(before, after, edges, f, i);
    lemma_users(faces, a, b);
    let s = using_upto(faces, nf, 0, e);
    assert(joins(faces, f, i, a, b));
    assert(s.contains((f, i)) && s.contains((g, j)));
    let at = edges.index_of(e);
    assert(side_edge(faces[f], i) == e);
    assert(edges[at] == e);
    let points = after.vertices.subrange(n, n + nf);
    assert(points[f] == after.vertices[n + f] && points[g] == after.vertices[n + g]);
    let sides = both_sides(faces, points, e);
    assert(join.ensures(
        (
            before.vertices[edges[at].0 as int],
            before.vertices[edges[at].1 as int],
            both_sides(faces, points, edges[at]),
        ),
        after.vertices[n + nf + at],
    ));
    assert(joined_from(before, after, join, f, i, sides));
    let only = forall|h: int, k: int| #[trigger]
        joins(faces, h, k, a, b) ==> (h, k) == (f, i) || (h, k) == (g, j);
    let x = s.index_of((f, i));
    let y = s.index_of((g, j));
    if only {
        assert forall|k: int| 0 <= k < s.len() implies #[trigger] s[k] == (f, i) || s[k] == (g, j) by {
            assert(joins(faces, s[k].0, s[k].1, a, b));
        }
        if s.len() > 2 {
            assert(s[0] != s[1] && s[1] != s[2] && s[0] != s[2]);
        }
        if (f, i) != (g, j) {
            assert(x != y);
            assert(s.len() == 2);
            assert(sides is Some);
            assert(same_pair(sides->0, points[f], points[g]));
        } else if s.len() == 2 {
            assert(s[0] != s[1]);
        }
    } else if (f, i) != (g, j) {
        let (h, k) = choose|h: int, k: int| #[trigger]
            joins(faces, h, k, a, b) && !((h, k) == (f, i) || (h, k) == (g, j));
        let z = s.index_of((h, k));
        assert(s.contains((h, k)));
        assert(s[z] == (h, k) && s[x] == (f, i) && s[y] == (g, j));
        assert(x != y && y != z && x != z);
        assert(s.len() > 2);
    }
}

/// Whether some side joins `a` and `b`.
pub open spec fn adjacent(faces: Seq<Seq<u32>>, a: u32, b: u32) -> bool {
    exists|f: int, i: int| #[trigger] joins(faces, f, i, a, b)
}

/// Whether exactly one side joins `a` and `b`.
pub open spec fn on_border(faces: Seq<Seq<u32>>, a: u32, b: u32) -> bool {
    adjacent(faces, a, b) && forall|f: int, i: int, g: int, j: int|
        #![trigger joins(faces, f, i, a, b), joins(faces, g, j, a, b)]
        joins(faces, f, i, a, b) && joins(faces, g, j, a, b) ==> f == g && i == j
}

/// Whether an edge is on the border is told by how many sides use it.
proof fn lemma_border(faces: Seq<Seq<u32>>, a: u32, b: u32)
    requires
        faces.len() <= usize::MAX,
    ensures
        on_border(faces, a, b) <==> uses(faces, edge_of(a, b)).len() == 1,
        adjacent(faces, a, b) <==> uses(faces, edge_of(a, b)).len() > 0,
{
    lemma_users(faces, a, b);
    let s = using_upto(faces, faces.len() as int, 0, edge_of(a, b));
    if adjacent(faces, a, b) {
        let (f, i) = choose|f: int, i: int| #[trigger] joins(faces, f, i, a, b);
        assert(s.contains((f, i)));
    }
    if s.len() > 0 {
        assert(joins(faces, s[0].0, s[0].1, a, b));
    }
    if s.len() > 1 {
        assert(joins(faces, s[1].0, s[1].1, a, b));
        assert(s[0] != s[1]);
    }
    if s.len() == 1 {
        assert forall|f: int, i: int, g: int, j: int|
            #![trigger joins(faces, f, i, a, b), joins(faces, g, j, a, b)]
            joins(faces, f, i, a, b) && joins(faces, g, j, a, b) implies f == g && i == j by {
            assert(s.contains((f, i)) && s.contains((g, j)));
        }
    }
}

/// The end of an edge across from `v`.
pub open spec fn across(e: (u32, u32), v: int) -> u32 {
    if e.0 == v {
        e.1
    } else {
        e.0
    }
}

/// Which edges meet at a vertex that no side joins to itself.
proof fn lemma_incident(edges: Seq<(u32, u32)>, v: int)
    requires
        edges.len() <= usize::MAX,
        forall|i: int| 0 <= i < edges.len() ==> !((#[trigger] edges[i]).0 == v && edges[i].1 == v),
    ensures
        incident(edges, v).no_duplicates(),
        forall|k: int|
            0 <= k < incident(edges, v).len() ==> (#[trigger] incident(edges, v)[k]) < edges.len()
                && (edges[incident(edges, v)[k] as int].0 == v || edges[incident(
                edges,
                v,
            )[k] as int].1 == v),
        forall|i: int|
            0 <= i < edges.len() && ((#[trigger] edges[i]).0 == v || edges[i].1 == v) ==> incident(
                edges,
                v,
            ).contains(i as usize),
    decreases edges.len(),
{
    if edges.len() > 0 {
        let front = edges.drop_last();
        assert forall|i: int| 0 <= i < front.len() implies !((#[trigger] front[i]).0 == v
            && front[i].1 == v) by {
            assert(front[i] == edges[i]);
        }
        lemma_incident(front, v);
        let less = incident(front, v);
        let all = incident(edges, v);
        let last = edges.len() - 1;
        assert(edges[last] == edges.last());
        assert forall|k: int| 0 <= k < all.len() implies (#[trigger] all[k]) < edges.len() && (
        edges[all[k] as int].0 == v || edges[all[k] as int].1 == v) by {
            if k < less.len() {
                assert(less[k] == all[k]);
                assert(front[less[k] as int] == edges[all[k] as int]);
            }
        }
        assert forall|i: int, j: int| 0 <= i < all.len() && 0 <= j < all.len() && i != j implies all[i]
            != all[j] by {
            if i < less.len() {
                assert(less[i] < front.len());
            }
            if j < less.len() {
                assert(less[j] < front.len());
            }
        }
        assert forall|i: int|
            0 <= i < edges.len() && ((#[trigger] edges[i]).0 == v || edges[i].1 == v) implies all.contains(
            i as usize,
        ) by {
            if i < last {
                assert(front[i] == edges[i]);
                assert(less.contains(i as usize));
                let k = less.index_of(i as usize);
                assert(all[k] == i as usize);
            } else {
                assert(all[all.len() - 1] == i as usize);
            }
        }
    }
}

/// Which of some edges are on the border.
proof fn lemma_borders(faces: Seq<Seq<u32>>, edges: Seq<(u32, u32)>, numbers: Seq<usize>)
    requires
        numbers.no_duplicates(),
    ensures
        borders(faces, edges, numbers).no_duplicates(),
        forall|x: usize| #[trigger]
            borders(faces, edges, numbers).contains(x) <==> numbers.contains(x) && uses(
                faces,
                edges[x as int],
            ).len() == 1,
    decreases numbers.len(),
{
    if numbers.len() > 0 {
        let front = numbers.drop_last();
        let last = numbers.last();
        assert(front.no_duplicates());
        lemma_borders(faces, edges, front);
        let less = borders(faces, edges, front);
        let all = borders(faces, edges, numbers);
        assert(!front.contains(last)) by {
            if front.contains(last) {
                let i = front.index_of(last);
                assert(numbers[i] == numbers[numbers.len() - 1]);
            }
        }
        assert(!less.contains(last));
        assert forall|i: int, j: int| 0 <= i < all.len() && 0 <= j < all.len() && i != j implies all[i]
            != all[j] by {
            if i < less.len() {
                assert(less.contains(less[i]));
            }
            if j < less.len() {
                assert(less.contains(less[j]));
            }
        }
        assert forall|x: usize| #[trigger] all.contains(x) <==> numbers.contains(x) && uses(
            faces,
            edges[x as int],
        ).len() == 1 by {
            if numbers.contains(x) {
                let i = numbers.index_of(x);
                if i < front.len() {
                    assert(front[i] == x);
                    assert(front.contains(x));
                }
            }
            if front.contains(x) {
                let i = front.index_of(x);
                assert(numbers[i] == x);
            }
            if x == last {
                assert(numbers[numbers.len() - 1] == x);
            }
            if less.contains(x) {
                let i = less.index_of(x);
                assert(all[i] == x);
            }
            if all.contains(x) {
                let i = all.index_of(x);
                if i < less.len() {
                    assert(less[i] == x);
                }
            }
            if x == last && uses(faces, edges[x as int]).len() == 1 {
                assert(all[all.len() - 1] == x);
            }
        }
    }
}

/// Whether exactly two edges at `v` are on the border: those to `a` and to `b`.
pub open spec fn two_borders(faces: Seq<Seq<u32>>, v: u32, a: u32, b: u32) -> bool {
    &&& a != b
    &&& on_border(faces, v, a)
    &&& on_border(faces, v, b)
    &&& forall|c: u32| #[trigger] on_border(faces, v, c) ==> c == a || c == b
}

/// Whether face `f` names `v`.
pub open spec fn names(faces: Seq<Seq<u32>>, f: int, v: u32) -> bool {
    0 <= f < faces.len() && faces[f].contains(v)
}

/// Whether no side joins a vertex to itself.
pub open spec fn no_loops(faces: Seq<Seq<u32>>, v: u32) -> bool {
    !adjacent(faces, v, v)
}

/// The edge list around a vertex, by its neighbours.
proof fn lemma_met(faces: Seq<Seq<u32>>, edges: Seq<(u32, u32)>, v: u32)
    requires
        faces.len() <= usize::MAX,
        edges.len() <= usize::MAX,
        crate::subdivide::enumerates(faces, edges),
        no_loops(faces, v),
    ensures
        ({
            let met = incident(edges, v as int);
            &&& met.no_duplicates()
            &&& forall|k: int|
                0 <= k < met.len() ==> (#[trigger] met[k]) < edges.len() && edges[met[k] as int]
                    == edge_of(v, across(edges[met[k] as int], v as int))
            &&& forall|c: u32| #[trigger]
                adjacent(faces, v, c) ==> edges.contains(edge_of(v, c)) && met.contains(
                    edges.index_of(edge_of(v, c)) as usize,
                ) && 0 <= edges.index_of(edge_of(v, c)) < edges.len() && c != v
        }),
{
    assert forall|i: int| 0 <= i < edges.len() implies !((#[trigger] edges[i]).0 == v
        && edges[i].1 == v) by {
        if edges[i].0 == v && edges[i].1 == v {
            assert(edges.contains(edges[i]));
            assert(edges[i] == edge_of(v, v));
            lemma_border(faces, v, v);
        }
    }
    lemma_incident(edges, v as int);
    let met = incident(edges, v as int);
    assert forall|k: int| 0 <= k < met.len() implies (#[trigger] met[k]) < edges.len()
        && edges[met[k] as int] == edge_of(v, across(edges[met[k] as int], v as int)) by {
        let e = edges[met[k] as int];
        assert(edges.contains(e));
        lemma_listed_ordered(faces, edges, met[k] as int);
    }
    assert forall|c: u32| #[trigger] adjacent(faces, v, c) implies edges.contains(edge_of(v, c))
        && met.contains(edges.index_of(edge_of(v, c)) as usize) && 0 <= edges.index_of(
        edge_of(v, c),
    ) < edges.len() && c != v by {
        lemma_border(faces, v, c);
        let e = edge_of(v, c);
        assert(edges.contains(e));
        let k = choose|k: int| 0 <= k < edges.len() && edges[k] == e;
        assert(edges[k] == e);
        let i = edges.index_of(e);
        assert(edges[i] == e);
    }
}

/// Every listed edge has its smaller end first.
proof fn lemma_listed_ordered(faces: Seq<Seq<u32>>, edges: Seq<(u32, u32)>, k: int)
    requires
        faces.len() <= usize::MAX,
        crate::subdivide::enumerates(faces, edges),
        0 <= k < edges.len(),
    ensures
        edges[k] == edge_of(edges[k].0, edges[k].1),
        edges[k] == edge_of(edges[k].1, edges[k].0),
{
    let e = edges[k];
    assert(edges.contains(e));
    lemma_using(faces, faces.len() as int, 0, e);
    let s = using_upto(faces, faces.len() as int, 0, e);
    assert(s.len() > 0);
    assert(side_edge(faces[s[0].0], s[0].1) == e);
}

/// A vertex where exactly two border edges meet is moved by those two edges, each told by its ends.
pub proof fn creases_follow_the_border<
    C: Fn(Vec<Vec3>) -> Vec3,
    E: Fn(Vec3, Vec3, Option<(Vec3, Vec3)>) -> Vec3,
    R: Fn(Vec3, VertexRule) -> Vec3,
>(
    before: MeshModel,
    after: MeshModel,
    edges: Seq<(u32, u32)>,
    middle: C,
    join: E,
    relax: R,
    v: u32,
    a: u32,
    b: u32,
)
    requires
        before.in_range(),
        before.vertices.len() + before.faces.len() + edges.len() <= u32::MAX,
        before.faces.len() <= usize::MAX,
        edges.len() <= usize::MAX,
        subdivided(before, after, edges, middle, join, relax),
        v < before.vertices.len(),
        no_loops(before.faces, v),
        two_borders(before.faces, v, a, b),
    ensures
        ({
            let p = before.vertices;
            exists|first: (Vec3, Vec3), second: (Vec3, Vec3)|
                {
                    &&& (same_pair(first, p[v as int], p[a as int]) && same_pair(
                        second,
                        p[v as int],
                        p[b as int],
                    )) || (same_pair(first, p[v as int], p[b as int]) && same_pair(
                        second,
                        p[v as int],
                        p[a as int],
                    ))
                    &&& #[trigger] relax.ensures(
                        (p[v as int], VertexRule::Crease { first, second }),
                        after.vertices[v as int],
                    )
                }
        }),
{
    let faces = before.faces;
    let n = before.vertices.len() as int;
    let points = after.vertices.subrange(n, n + faces.len());
    assert(is_relaxed(before, points, edges, v as int, relax, after.vertices[v as int]));
    lemma_met(faces, edges, v);
    let met = incident(edges, v as int);
    lemma_borders(faces, edges, met);
    let border = borders(faces, edges, met);
    lemma_border(faces, v, a);
    lemma_border(faces, v, b);
    let i = edges.index_of(edge_of(v, a)) as usize;
    let j = edges.index_of(edge_of(v, b)) as usize;
    assert(edges[i as int] == edge_of(v, a) && edges[j as int] == edge_of(v, b));
    assert(border.contains(i) && border.contains(j));
    assert(i != j);
    assert forall|k: int| 0 <= k < border.len() implies #[trigger] border[k] == i || border[k] == j by {
        let x = border[k];
        assert(border.contains(x));
        assert(met.contains(x));
        let y = met.index_of(x);
        let c = across(edges[x as int], v as int);
        assert(edges[met[y] as int] == edge_of(v, across(edges[met[y] as int], v as int)));
        assert(edges[x as int] == edge_of(v, c));
        lemma_border(faces, v, c);
        assert(on_border(faces, v, c));
        assert(c == a || c == b);
        assert(edges[x as int] == edges[i as int] || edges[x as int] == edges[j as int]);
    }
    if border.len() > 2 {
        assert(border[0] != border[1] && border[1] != border[2] && border[0] != border[2]);
    }
    let k = border.index_of(i);
    let l = border.index_of(j);
    assert(border[k] == i && border[l] == j && k != l);
    assert(border.len() == 2);
    assert(faces_around(faces, v as int).len() > 0) by {
        let (f, s) = choose|f: int, s: int| #[trigger] joins(faces, f, s, v, a);
        lemma_around_all(faces, v);
        assert(names(faces, f, v)) by {
            if faces[f][s] == v {
                assert(faces[f].contains(v));
            } else {
                let m = faces[f].len() as int;
                let t = if s == m - 1 { 0 } else { s + 1 };
                assert(faces[f][t] == v);
            }
        }
    }
    let first = ends(before.vertices, edges[border[0] as int]);
    let second = ends(before.vertices, edges[border[1] as int]);
    assert(relax.ensures(
        (before.vertices[v as int], VertexRule::Crease { first, second }),
        after.vertices[v as int],
    ));
}

/// The corners at `v`, face and place.
spec fn cornering_upto(faces: Seq<Seq<u32>>, f: int, k: int, v: int) -> Seq<(int, int)>
    decreases f, k,
{
    if k > 0 {
        let rest = cornering_upto(faces, f, k - 1, v);
        if faces[f][k - 1] == v {
            rest.push((f, k - 1))
        } else {
            rest
        }
    } else if f > 0 {
        cornering_upto(faces, f - 1, faces[f - 1].len() as int, v)
    } else {
        Seq::empty()
    }
}

proof fn lemma_cornering(faces: Seq<Seq<u32>>, f: int, k: int, v: int)
    requires
        faces.len() <= usize::MAX,
        0 <= f <= faces.len(),
        0 <= k,
        f == faces.len() ==> k == 0,
        f < faces.len() ==> k <= faces[f].len(),
    ensures
        ({
            let s = cornering_upto(faces, f, k, v);
            let by = crate::subdivide::around_upto(faces, f, k, v);
            &&& s.len() == by.len()
            &&& s.no_duplicates()
            &&& forall|i: int|
                0 <= i < s.len() ==> by[i] == (#[trigger] s[i]).0 && has_side(
                    faces,
                    s[i].0,
                    s[i].1,
                ) && faces[s[i].0][s[i].1] == v && earlier(s[i], f, k)
            &&& forall|g: int, j: int|
                has_side(faces, g, j) && earlier((g, j), f, k) && #[trigger] faces[g][j] == v
                    ==> s.contains((g, j))
        }),
    decreases f, k,
{
    let s = cornering_upto(faces, f, k, v);
    let by = crate::subdivide::around_upto(faces, f, k, v);
    if k > 0 {
        lemma_cornering(faces, f, k - 1, v);
        let rest = cornering_upto(faces, f, k - 1, v);
        assert forall|i: int| 0 <= i < s.len() implies by[i] == (#[trigger] s[i]).0 && has_side(
            faces,
            s[i].0,
            s[i].1,
        ) && faces[s[i].0][s[i].1] == v && earlier(s[i], f, k) by {
            if i < rest.len() {
                assert(s[i] == rest[i]);
                assert(earlier(rest[i], f, k - 1));
            }
        }
        assert forall|i: int, j: int| 0 <= i < s.len() && 0 <= j < s.len() && i != j implies s[i]
            != s[j] by {
            if i < rest.len() && j < rest.len() {
                assert(rest[i] != rest[j]);
            } else if i < rest.len() {
                assert(earlier(rest[i], f, k - 1));
            } else {
                assert(earlier(rest[j], f, k - 1));
            }
        }
        assert forall|g: int, j: int|
            has_side(faces, g, j) && earlier((g, j), f, k) && #[trigger] faces[g][j] == v implies s.contains(
            (g, j),
        ) by {
            if g == f && j == k - 1 {
                assert(s[s.len() - 1] == (g, j));
            } else {
                assert(earlier((g, j), f, k - 1));
                assert(rest.contains((g, j)));
                let i = rest.index_of((g, j));
                assert(s[i] == (g, j));
            }
        }
    } else if f > 0 {
        let m = faces[f - 1].len() as int;
        lemma_cornering(faces, f - 1, m, v);
        assert forall|i: int| 0 <= i < s.len() implies by[i] == (#[trigger] s[i]).0 && has_side(
            faces,
            s[i].0,
            s[i].1,
        ) && faces[s[i].0][s[i].1] == v && earlier(s[i], f, k) by {
            assert(earlier(cornering_upto(faces, f - 1, m, v)[i], f - 1, m));
        }
        assert forall|g: int, j: int|
            has_side(faces, g, j) && earlier((g, j), f, k) && #[trigger] faces[g][j] == v implies s.contains(
            (g, j),
        ) by {
            assert(earlier((g, j), f - 1, m));
        }
    }
}

/// The corners at a vertex, all of them.
proof fn lemma_around_all(faces: Seq<Seq<u32>>, v: u32)
    requires
        faces.len() <= usize::MAX,
    ensures
        ({
            let by = faces_around(faces, v as int);
            let s = cornering_upto(faces, faces.len() as int, 0, v as int);
            &&& by.len() == s.len()
            &&& s.no_duplicates()
            &&& forall|i: int|
                0 <= i < s.len() ==> by[i] == (#[trigger] s[i]).0 && has_side(
                    faces,
                    s[i].0,
                    s[i].1,
                ) && faces[s[i].0][s[i].1] == v
            &&& forall|g: int, j: int|
                has_side(faces, g, j) && #[trigger] faces[g][j] == v ==> s.contains((g, j))
            &&& forall|f: int| #[trigger] names(faces, f, v) ==> by.contains(f as usize)
        }),
{
    let nf = faces.len() as int;
    lemma_cornering(faces, nf, 0, v as int);
    let by = faces_around(faces, v as int);
    let s = cornering_upto(faces, nf, 0, v as int);
    assert forall|g: int, j: int| has_side(faces, g, j) && #[trigger] faces[g][j] == v implies s.contains(
        (g, j),
    ) by {
        assert(earlier((g, j), nf, 0));
    }
    assert forall|f: int| #[trigger] names(faces, f, v) implies by.contains(f as usize) by {
        let j = faces[f].index_of(v);
        assert(has_side(faces, f, j) && faces[f][j] == v);
        assert(s.contains((f, j)));
        let i = s.index_of((f, j));
        assert(by[i] == f);
    }
}

/// A vertex that no face names stays where it is.
pub proof fn loose_vertices_stay<
    C: Fn(Vec<Vec3>) -> Vec3,
    E: Fn(Vec3, Vec3, Option<(Vec3, Vec3)>) -> Vec3,
    R: Fn(Vec3, VertexRule) -> Vec3,
>(
    before: MeshModel,
    after: MeshModel,
    edges: Seq<(u32, u32)>,
    middle: C,
    join: E,
    relax: R,
    v: u32,
)
    requires
        before.faces.len() <= usize::MAX,
        subdivided(before, after, edges, middle, join, relax),
        v < before.vertices.len(),
        forall|f: int| !(#[trigger] names(before.faces, f, v)),
    ensures
        after.vertices[v as int] == before.vertices[v as int],
{
    let faces = before.faces;
    let n = before.vertices.len() as int;
    let points = after.vertices.subrange(n, n + faces.len());
    assert(is_relaxed(before, points, edges, v as int, relax, after.vertices[v as int]));
    lemma_around_all(faces, v);
    let s = cornering_upto(faces, faces.len() as int, 0, v as int);
    if s.len() > 0 {
        assert(faces[s[0].0].contains(v));
        assert(names(faces, s[0].0, v));
    }
}

/// Whether `fs` holds the points of the faces at `v`, once for each corner there: `at` tells of
/// which corner each is.
pub open spec fn points_around(
    before: MeshModel,
    after: MeshModel,
    v: u32,
    fs: Seq<Vec3>,
    at: Seq<(int, int)>,
) -> bool {
    &&& at.len() == fs.len()
    &&& at.no_duplicates()
    &&& forall|i: int|
        0 <= i < at.len() ==> has_side(before.faces, (#[trigger] at[i]).0, at[i].1)
            && before.faces[at[i].0][at[i].1] == v && fs[i] == after.vertices[before.vertices.len()
            + at[i].0]
    &&& forall|f: int, k: int|
        has_side(before.faces, f, k) && #[trigger] before.faces[f][k] == v ==> at.contains((f, k))
}

/// Whether `es` holds the edges at `v`, each once: `to` tells which vertex each leads to.
pub open spec fn edges_around(
    before: MeshModel,
    v: u32,
    es: Seq<(Vec3, Vec3)>,
    to: Seq<u32>,
) -> bool {
    &&& to.len() == es.len()
    &&& to.no_duplicates()
    &&& forall|i: int|
        0 <= i < to.len() ==> adjacent(before.faces, v, #[trigger] to[i]) && same_pair(
            es[i],
            before.vertices[v as int],
            before.vertices[to[i] as int],
        )
    &&& forall|c: u32| #[trigger] adjacent(before.faces, v, c) ==> to.contains(c)
}

/// Any other vertex of a face is moved by the points of the faces at all its corners, and by all
/// edges that meet there, each once.
pub proof fn vertices_are_smoothed_by_all_around<
    C: Fn(Vec<Vec3>) -> Vec3,
    E: Fn(Vec3, Vec3, Option<(Vec3, Vec3)>) -> Vec3,
    R: Fn(Vec3, VertexRule) -> Vec3,
>(
    before: MeshModel,
    after: MeshModel,
    edges: Seq<(u32, u32)>,
    middle: C,
    join: E,
    relax: R,
    v: u32,
)
    requires
        before.in_range(),
        before.faces.len() <= usize::MAX,
        edges.len() <= usize::MAX,
        subdivided(before, after, edges, middle, join, relax),
        v < before.vertices.len(),
        no_loops(before.faces, v),
        exists|f: int| #[trigger] names(before.faces, f, v),
        forall|a: u32, b: u32| !(#[trigger] two_borders(before.faces, v, a, b)),
    ensures
        exists|fs: Vec<Vec3>, es: Vec<(Vec3, Vec3)>, at: Seq<(int, int)>, to: Seq<u32>|
            {
                &&& #[trigger] points_around(before, after, v, fs@, at)
                &&& #[trigger] edges_around(before, v, es@, to)
                &&& relax.ensures(
                    (
                        before.vertices[v as int],
                        VertexRule::Smooth { face_points: fs, edges: es },
                    ),
                    after.vertices[v as int],
                )
            },
{
    let faces = before.faces;
    let n = before.vertices.len() as int;
    let points = after.vertices.subrange(n, n + faces.len());
    let p = before.vertices[v as int];
    assert(is_relaxed(before, points, edges, v as int, relax, after.vertices[v as int]));
    lemma_around_all(faces, v);
    let by = faces_around(faces, v as int);
    let f = choose|f: int| #[trigger] names(faces, f, v);
    assert(by.contains(f as usize));
    lemma_met(faces, edges, v);
    let met = incident(edges, v as int);
    lemma_borders(faces, edges, met);
    let border = borders(faces, edges, met);
    if border.len() == 2 {
        let a = across(edges[border[0] as int], v as int);
        let b = across(edges[border[1] as int], v as int);
        lemma_border_ends(faces, edges, v, 0);
        lemma_border_ends(faces, edges, v, 1);
        assert(border[0] != border[1]);
        assert(edges[border[0] as int] != edges[border[1] as int]);
        assert(a != b);
        assert forall|c: u32| #[trigger] on_border(faces, v, c) implies c == a || c == b by {
            lemma_border(faces, v, c);
            let x = edges.index_of(edge_of(v, c)) as usize;
            assert(edges[x as int] == edge_of(v, c));
            assert(border.contains(x));
            let k = border.index_of(x);
            assert(k == 0 || k == 1);
        }
        assert(two_borders(faces, v, a, b));
    }
    let (fs, es) = choose|fs: Vec<Vec3>, es: Vec<(Vec3, Vec3)>|
        {
            &&& fs@ == Seq::new(by.len(), |i: int| points[by[i] as int])
            &&& es@ == Seq::new(
                met.len(),
                |i: int| ends(before.vertices, edges[met[i] as int]),
            )
            &&& #[trigger] relax.ensures(
                (p, VertexRule::Smooth { face_points: fs, edges: es }),
                after.vertices[v as int],
            )
        };
    let at = cornering_upto(faces, faces.len() as int, 0, v as int);
    assert(points_around(before, after, v, fs@, at));
    let to = Seq::new(met.len(), |i: int| across(edges[met[i] as int], v as int));
    assert forall|i: int| 0 <= i < to.len() implies adjacent(faces, v, #[trigger] to[i])
        && same_pair(es@[i], p, before.vertices[to[i] as int]) by {
        assert(edges[met[i] as int] == edge_of(v, to[i]));
        assert(edges.contains(edges[met[i] as int]));
        lemma_border(faces, v, to[i]);
    }
    assert forall|i: int, j: int| 0 <= i < to.len() && 0 <= j < to.len() && i != j implies to[i]
        != to[j] by {
        assert(met[i] != met[j]);
        assert(edges[met[i] as int] == edge_of(v, to[i]));
        assert(edges[met[j] as int] == edge_of(v, to[j]));
    }
    assert forall|c: u32| #[trigger] adjacent(faces, v, c) implies to.contains(c) by {
        let x = edges.index_of(edge_of(v, c)) as usize;
        assert(edges[x as int] == edge_of(v, c));
        let k = met.index_of(x);
        assert(met[k] == x);
        assert(to[k] == c);
    }
    assert(edges_around(before, v, es@, to));
}

proof fn lemma_border_ends(faces: Seq<Seq<u32>>, edges: Seq<(u32, u32)>, v: u32, k: int)
    requires
        faces.len() <= usize::MAX,
        edges.len() <= usize::MAX,
        crate::subdivide::enumerates(faces, edges),
        no_loops(faces, v),
        0 <= k < borders(faces, edges, incident(edges, v as int)).len(),
    ensures
        ({
            let x = borders(faces, edges, incident(edges, v as int))[k];
            let c = across(edges[x as int], v as int);
            x < edges.len() && edges[x as int] == edge_of(v, c) && on_border(faces, v, c)
        }),
{
    lemma_met(faces, edges, v);
    let met = incident(edges, v as int);
    lemma_borders(faces, edges, met);
    let border = borders(faces, edges, met);
    let x = border[k];
    assert(border.contains(x));
    let y = met.index_of(x);
    assert(met[y] == x);
    lemma_border(faces, v, across(edges[x as int], v as int));
}

} // verus!
