//! Catmull-Clark subdivision: every face becomes a fan of quads.
//!
//! The subdivision decides which points each new point is made from, by which rule, and how
//! the faces of the result are joined. Where a point lies is computed by the functions that
//! the caller hands in.
use crate::halfedge::{
    code_of, edge_of, lemma_offset_monotone, lemma_pair_code, lemma_side_inside, locate, offset,
    pair_code, side_count, undirected,
};
use crate::mesh::{
    face_below, faces_below, loops, made_from, outline, pred, pred_of, quad, succ, succ_of, Face,
    Mesh, MeshModel,
};
use crate::mesh_edit::numbers_ring;
use crate::number::Vec3;
use std::collections::HashMap;
use vstd::prelude::*;

verus! {

broadcast use vstd::std_specs::hash::group_hash_axioms;

/// What a vertex of the mesh is moved by.
#[derive(Debug)]
pub enum VertexRule {
    /// The vertex lies on a border: the two border edges that meet there.
    Crease { first: (Vec3, Vec3), second: (Vec3, Vec3) },
    /// Any other vertex: the points of the faces around it, and the edges that meet there.
    Smooth { face_points: Vec<Vec3>, edges: Vec<(Vec3, Vec3)> },
}

/// The undirected edge of side `k` of a face.
pub open spec fn side_edge(face: Seq<u32>, k: int) -> (u32, u32) {
    edge_of(face[k], face[succ(k, face.len() as int)])
}

/// The faces that use edge `e`, once for each side, among the first `f` faces and the first
/// `k` sides of face `f`.
pub open spec fn uses_upto(faces: Seq<Seq<u32>>, f: int, k: int, e: (u32, u32)) -> Seq<usize>
    decreases f, k,
{
    if k > 0 {
        let rest = uses_upto(faces, f, k - 1, e);
        if side_edge(faces[f], k - 1) == e {
            rest.push(f as usize)
        } else {
            rest
        }
    } else if f > 0 {
        uses_upto(faces, f - 1, faces[f - 1].len() as int, e)
    } else {
        Seq::empty()
    }
}

/// The faces that use edge `e`, once for each side.
pub open spec fn uses(faces: Seq<Seq<u32>>, e: (u32, u32)) -> Seq<usize> {
    uses_upto(faces, faces.len() as int, 0, e)
}

/// The faces around vertex `v`, once for each time they name it, among the first `f` faces
/// and the first `k` indices of face `f`.
pub open spec fn around_upto(faces: Seq<Seq<u32>>, f: int, k: int, v: int) -> Seq<usize>
    decreases f, k,
{
    if k > 0 {
        let rest = around_upto(faces, f, k - 1, v);
        if faces[f][k - 1] == v {
            rest.push(f as usize)
        } else {
            rest
        }
    } else if f > 0 {
        around_upto(faces, f - 1, faces[f - 1].len() as int, v)
    } else {
        Seq::empty()
    }
}

/// The faces around vertex `v`, once for each time they name it.
pub open spec fn faces_around(faces: Seq<Seq<u32>>, v: int) -> Seq<usize> {
    around_upto(faces, faces.len() as int, 0, v)
}

/// Whether `edges` lists every edge of the faces once, in some order.
pub open spec fn enumerates(faces: Seq<Seq<u32>>, edges: Seq<(u32, u32)>) -> bool {
    &&& edges.no_duplicates()
    &&& forall|e: (u32, u32)| #[trigger] edges.contains(e) <==> uses(faces, e).len() > 0
}

/// The edges that meet at `v`, by their numbers in the list, once for each end at `v`.
pub open spec fn incident(edges: Seq<(u32, u32)>, v: int) -> Seq<usize>
    decreases edges.len(),
{
    if edges.len() == 0 {
        Seq::empty()
    } else {
        let rest = incident(edges.drop_last(), v);
        let i = (edges.len() - 1) as usize;
        let one = if edges.last().0 == v {
            rest.push(i)
        } else {
            rest
        };
        if edges.last().1 == v {
            one.push(i)
        } else {
            one
        }
    }
}

/// Those of the numbered edges that only one side uses.
pub open spec fn borders(
    faces: Seq<Seq<u32>>,
    edges: Seq<(u32, u32)>,
    numbers: Seq<usize>,
) -> Seq<usize>
    decreases numbers.len(),
{
    if numbers.len() == 0 {
        Seq::empty()
    } else {
        let rest = borders(faces, edges, numbers.drop_last());
        if uses(faces, edges[numbers.last() as int]).len() == 1 {
            rest.push(numbers.last())
        } else {
            rest
        }
    }
}

/// The positions of the ends of an edge.
pub open spec fn ends(points: Seq<Vec3>, e: (u32, u32)) -> (Vec3, Vec3) {
    (points[e.0 as int], points[e.1 as int])
}

/// The points of the two faces at an edge, none unless exactly two sides use it.
pub open spec fn both_sides(
    faces: Seq<Seq<u32>>,
    face_points: Seq<Vec3>,
    e: (u32, u32),
) -> Option<(Vec3, Vec3)> {
    let by = uses(faces, e);
    if by.len() == 2 {
        Some((face_points[by[0] as int], face_points[by[1] as int]))
    } else {
        None
    }
}

/// Whether `point` is where vertex `v` moves. A vertex of no face stays. Where exactly two
/// border edges meet, the crease rule holds, and the smooth rule everywhere else.
pub open spec fn is_relaxed<R: Fn(Vec3, VertexRule) -> Vec3>(
    before: MeshModel,
    face_points: Seq<Vec3>,
    edges: Seq<(u32, u32)>,
    v: int,
    relax: R,
    point: Vec3,
) -> bool {
    let p = before.vertices[v];
    let by = faces_around(before.faces, v);
    let met = incident(edges, v);
    let border = borders(before.faces, edges, met);
    if by.len() == 0 {
        point == p
    } else if border.len() == 2 {
        relax.ensures(
            (
                p,
                VertexRule::Crease {
                    first: ends(before.vertices, edges[border[0] as int]),
                    second: ends(before.vertices, edges[border[1] as int]),
                },
            ),
            point,
        )
    } else {
        exists|fs: Vec<Vec3>, es: Vec<(Vec3, Vec3)>|
            {
                &&& fs@ == Seq::new(by.len(), |i: int| face_points[by[i] as int])
                &&& es@ == Seq::new(
                    met.len(),
                    |i: int| ends(before.vertices, edges[met[i] as int]),
                )
                &&& #[trigger] relax.ensures(
                    (p, VertexRule::Smooth { face_points: fs, edges: es }),
                    point,
                )
            }
    }
}

/// The quad at corner `i` of face `f`: the corner, the point of the edge ahead, the point of
/// the face, the point of the edge behind. Face points start at vertex `n`, and edge points
/// after them.
pub open spec fn corner_quad(
    faces: Seq<Seq<u32>>,
    edges: Seq<(u32, u32)>,
    n: int,
    f: int,
    i: int,
) -> Seq<u32> {
    let face = faces[f];
    let m = face.len() as int;
    let base = n + faces.len();
    seq![
        face[i],
        (base + edges.index_of(edge_of(face[i], face[succ(i, m)]))) as u32,
        (n + f) as u32,
        (base + edges.index_of(edge_of(face[pred(i, m)], face[i]))) as u32,
    ]
}

/// Whether the faces of `after` are a quad for each corner of each face of `before`, over the
/// vertices of `before`, a vertex for each face, and a vertex for each edge in the order of
/// `edges`.
pub open spec fn fanned(before: MeshModel, after: MeshModel, edges: Seq<(u32, u32)>) -> bool {
    let n = before.vertices.len() as int;
    let nf = before.faces.len() as int;
    &&& enumerates(before.faces, edges)
    &&& after.vertices.len() == n + nf + edges.len()
    &&& after.faces.len() == side_count(before.faces)
    &&& forall|f: int, i: int|
        0 <= f < nf && 0 <= i < before.faces[f].len() ==> after.faces[offset(before.faces, f) + i]
            == #[trigger] corner_quad(before.faces, edges, n, f, i)
}

/// Whether `after` is `before` subdivided once, with its edges in the order of `edges`: the
/// moved vertices, then a point for each face, then a point for each edge, and a quad for
/// each corner of each face.
pub open spec fn subdivided<
    C: Fn(Vec<Vec3>) -> Vec3,
    E: Fn(Vec3, Vec3, Option<(Vec3, Vec3)>) -> Vec3,
    R: Fn(Vec3, VertexRule) -> Vec3,
>(
    before: MeshModel,
    after: MeshModel,
    edges: Seq<(u32, u32)>,
    middle: C,
    join: E,
    relax: R,
) -> bool {
    let n = before.vertices.len() as int;
    let nf = before.faces.len() as int;
    let face_points = after.vertices.subrange(n, n + nf);
    &&& fanned(before, after, edges)
    &&& forall|v: int|
        0 <= v < n ==> is_relaxed(
            before,
            face_points,
            edges,
            v,
            relax,
            #[trigger] after.vertices[v],
        )
    &&& forall|f: int|
        0 <= f < nf ==> made_from(
            middle,
            outline(before.vertices, #[trigger] before.faces[f]),
            after.vertices[n + f],
        )
    &&& forall|i: int|
        0 <= i < edges.len() ==> join.ensures(
            (
                before.vertices[(#[trigger] edges[i]).0 as int],
                before.vertices[edges[i].1 as int],
                both_sides(before.faces, face_points, edges[i]),
            ),
            after.vertices[n + nf + i],
        )
}

/// The edges of a mesh while they are collected.
struct EdgeTable {
    edges: Vec<(u32, u32)>,
    numbers: HashMap<u64, u32>,
    users: Vec<Vec<usize>>,
}

impl EdgeTable {
    /// Whether the table holds the edges of the first `f` faces and the first `k` sides of
    /// face `f`.
    spec fn holds(&self, faces: Seq<Seq<u32>>, f: int, k: int) -> bool {
        &&& self.edges@.no_duplicates()
        &&& numbers_ring(self.numbers@, self.edges@, self.edges.len() as int, 0)
        &&& self.users.len() == self.edges.len()
        &&& forall|i: int|
            0 <= i < self.edges.len() ==> (#[trigger] self.users[i])@ == uses_upto(
                faces,
                f,
                k,
                self.edges[i],
            )
        &&& forall|e: (u32, u32)| #[trigger]
            self.edges@.contains(e) <==> uses_upto(faces, f, k, e).len() > 0
        &&& self.edges.len() <= offset(faces, f) + k
    }

    /// Note that side `k` of face `f` uses edge `(a, b)`.
    fn note(&mut self, Ghost(faces): Ghost<Seq<Seq<u32>>>, f: usize, k: usize, a: u32, b: u32)
        requires
            old(self).holds(faces, f as int, k as int),
            0 <= f < faces.len(),
            k < faces[f as int].len(),
            edge_of(a, b) == side_edge(faces[f as int], k as int),
            offset(faces, f as int) + k < u32::MAX,
        ensures
            final(self).holds(faces, f as int, k + 1),
    {
        let e: (u32, u32) = undirected(a, b);
        let code: u64 = code_of(e.0, e.1);
        let found: Option<u32> = match self.numbers.get(&code) {
            Some(i) => Some(*i),
            None => None,
        };
        let ghost before = *self;
        match found {
            Some(i) => {
                proof {
                    let j = choose|j: int|
                        0 <= j < self.edges.len() && code == pair_code(
                            (#[trigger] self.edges@[j]).0,
                            self.edges@[j].1,
                        );
                    lemma_pair_code(e.0, e.1, self.edges@[j].0, self.edges@[j].1);
                    assert(j == i);
                    assert(self.edges@[j] == e);
                }
                self.users[i as usize].push(f);
                assert forall|j: int| 0 <= j < self.edges.len() implies (
                #[trigger] self.users[j])@ == uses_upto(faces, f as int, k + 1, self.edges[j]) by {
                    assert(before.users[j]@ == uses_upto(
                        faces,
                        f as int,
                        k as int,
                        before.edges[j],
                    ));
                    if j != i {
                        assert(self.edges@[j] != self.edges@[i as int]);
                    }
                }
                assert forall|g: (u32, u32)| #[trigger] self.edges@.contains(g) <==> uses_upto(
                    faces,
                    f as int,
                    k + 1,
                    g,
                ).len() > 0 by {
                    assert(before.edges@.contains(g) <==> uses_upto(
                        faces,
                        f as int,
                        k as int,
                        g,
                    ).len() > 0);
                }
            },
            None => {
                proof {
                    if self.edges@.contains(e) {
                        let j = choose|j: int| 0 <= j < self.edges.len() && self.edges@[j] == e;
                        assert(self.numbers@.contains_key(
                            pair_code(self.edges@[j].0, self.edges@[j].1),
                        ));
                    }
                }
                let at: u32 = self.edges.len() as u32;
                self.numbers.insert(code, at);
                self.edges.push(e);
                let mut list: Vec<usize> = Vec::new();
                list.push(f);
                self.users.push(list);
                proof {
                    assert(uses_upto(faces, f as int, k as int, e).len() == 0);
                    assert(list@ =~= uses_upto(faces, f as int, k + 1, e));
                    assert(self.edges@ == before.edges@.push(e));
                    assert forall|j: int| 0 <= j < self.edges.len() implies (
                    #[trigger] self.users[j])@ == uses_upto(
                        faces,
                        f as int,
                        k + 1,
                        self.edges[j],
                    ) by {
                        if j < at {
                            assert(before.users[j]@ == uses_upto(
                                faces,
                                f as int,
                                k as int,
                                before.edges[j],
                            ));
                            assert(before.edges@.contains(before.edges@[j]));
                        }
                    }
                    assert forall|g: (u32, u32)| #[trigger] self.edges@.contains(g) <==> uses_upto(
                        faces,
                        f as int,
                        k + 1,
                        g,
                    ).len() > 0 by {
                        assert(before.edges@.contains(g) <==> uses_upto(
                            faces,
                            f as int,
                            k as int,
                            g,
                        ).len() > 0);
                        if before.edges@.contains(g) {
                            let j = before.edges@.index_of(g);
                            assert(self.edges@[j] == g);
                        }
                        if g == e {
                            assert(self.edges@[at as int] == g);
                        }
                        if self.edges@.contains(g) {
                            let j = self.edges@.index_of(g);
                            if j < at {
                                assert(before.edges@[j] == g);
                            }
                        }
                    }
                    assert forall|j: int| 0 <= j < self.edges.len() implies self.numbers@.contains_key(
                        pair_code((#[trigger] self.edges@[j]).0, self.edges@[j].1),
                    ) && self.numbers@[pair_code(self.edges@[j].0, self.edges@[j].1)] == 0 + j by {
                        lemma_pair_code(e.0, e.1, self.edges@[j].0, self.edges@[j].1);
                        if j < at {
                            assert(before.edges@[j] == self.edges@[j]);
                            assert(before.edges@.contains(before.edges@[j]));
                        }
                    }
                    assert forall|c: u64| #[trigger] self.numbers@.contains_key(c) implies exists|
                        j: int,
                    |
                        0 <= j < self.edges.len() && c == pair_code(
                            (#[trigger] self.edges@[j]).0,
                            self.edges@[j].1,
                        ) by {
                        if c == code {
                            assert(self.edges@[at as int] == e);
                        } else {
                            assert(before.numbers@.contains_key(c));
                            let j = choose|j: int|
                                0 <= j < before.edges.len() && c == pair_code(
                                    (#[trigger] before.edges@[j]).0,
                                    before.edges@[j].1,
                                );
                            assert(self.edges@[j] == before.edges@[j]);
                        }
                    }
                }
            },
        }
    }
}

/// All edges of a list of faces, with the faces that use each.
fn collect_edges(faces: &Vec<Face>) -> (r: EdgeTable)
    requires
        side_count(loops(faces@)) <= u32::MAX,
    ensures
        r.holds(loops(faces@), faces.len() as int, 0),
{
    let ghost all = loops(faces@);
    let mut table = EdgeTable { edges: Vec::new(), numbers: HashMap::new(), users: Vec::new() };
    let mut f: usize = 0;
    while f < faces.len()
        invariant
            f <= faces.len(),
            all == loops(faces@),
            side_count(all) <= u32::MAX,
            table.holds(all, f as int, 0),
        decreases faces.len() - f,
    {
        let face = &faces[f].indices;
        assert(all[f as int] == face@);
        let mut k: usize = 0;
        proof {
            lemma_offset_monotone(all, f + 1, all.len() as int);
        }
        while k < face.len()
            invariant
                k <= face.len(),
                f < faces.len(),
                all.len() == faces.len(),
                all[f as int] == face@,
                offset(all, f as int) + face.len() <= u32::MAX,
                table.holds(all, f as int, k as int),
            decreases face.len() - k,
        {
            table.note(Ghost(all), f, k, face[k], face[succ_of(k, face.len())]);
            k = k + 1;
        }
        proof {
            assert forall|e: (u32, u32)| #[trigger] uses_upto(all, f + 1, 0, e) == uses_upto(
                all,
                f as int,
                all[f as int].len() as int,
                e,
            ) by {}
        }
        f = f + 1;
    }
    table
}

/// Faces that use an edge are faces of the list, and the ends of a used edge are vertices.
proof fn lemma_uses(faces: Seq<Seq<u32>>, f: int, k: int, e: (u32, u32), n: nat)
    requires
        faces_below(faces, n),
        faces.len() <= usize::MAX,
        0 <= f <= faces.len(),
        0 <= k,
        f == faces.len() ==> k == 0,
        f < faces.len() ==> k <= faces[f].len(),
    ensures
        forall|i: int|
            0 <= i < uses_upto(faces, f, k, e).len() ==> #[trigger] uses_upto(faces, f, k, e)[i]
                < faces.len(),
        uses_upto(faces, f, k, e).len() > 0 ==> e.0 < n && e.1 < n,
    decreases f, k,
{
    if k > 0 {
        lemma_uses(faces, f, k - 1, e, n);
        assert(face_below(faces[f], n));
        let m = faces[f].len() as int;
        let rest = uses_upto(faces, f, k - 1, e);
        let now = uses_upto(faces, f, k, e);
        assert forall|i: int| 0 <= i < now.len() implies #[trigger] now[i] < faces.len() by {
            if i < rest.len() {
                assert(rest[i] < faces.len());
            }
        }
        assert(faces[f][k - 1] < n && faces[f][succ(k - 1, m)] < n);
    } else if f > 0 {
        let m = faces[f - 1].len() as int;
        lemma_uses(faces, f - 1, m, e, n);
        let now = uses_upto(faces, f, k, e);
        assert forall|i: int| 0 <= i < now.len() implies #[trigger] now[i] < faces.len() by {
            assert(uses_upto(faces, f - 1, m, e)[i] < faces.len());
        }
    }
}

/// Faces around a vertex are faces of the list.
pub(crate) proof fn lemma_around(faces: Seq<Seq<u32>>, f: int, k: int, v: int)
    requires
        faces.len() <= usize::MAX,
        0 <= f <= faces.len(),
        f == faces.len() ==> k <= 0,
    ensures
        forall|i: int|
            0 <= i < around_upto(faces, f, k, v).len() ==> #[trigger] around_upto(
                faces,
                f,
                k,
                v,
            )[i] < faces.len(),
    decreases f, k,
{
    if k > 0 {
        lemma_around(faces, f, k - 1, v);
        let rest = around_upto(faces, f, k - 1, v);
        let now = around_upto(faces, f, k, v);
        assert forall|i: int| 0 <= i < now.len() implies #[trigger] now[i] < faces.len() by {
            if i < rest.len() {
                assert(rest[i] < faces.len());
            }
        }
    } else if f > 0 {
        let m = faces[f - 1].len() as int;
        lemma_around(faces, f - 1, m, v);
        let now = around_upto(faces, f, k, v);
        assert forall|i: int| 0 <= i < now.len() implies #[trigger] now[i] < faces.len() by {
            assert(around_upto(faces, f - 1, m, v)[i] < faces.len());
        }
    }
}

/// Numbers of edges that meet at a vertex are numbers of the list.
proof fn lemma_incident(edges: Seq<(u32, u32)>, v: int)
    requires
        edges.len() <= usize::MAX,
    ensures
        forall|i: int|
            0 <= i < incident(edges, v).len() ==> #[trigger] incident(edges, v)[i] < edges.len(),
    decreases edges.len(),
{
    if edges.len() > 0 {
        lemma_incident(edges.drop_last(), v);
        let rest = incident(edges.drop_last(), v);
        let now = incident(edges, v);
        assert forall|i: int| 0 <= i < now.len() implies #[trigger] now[i] < edges.len() by {
            if i < rest.len() {
                assert(rest[i] < edges.len() - 1);
            }
        }
    }
}

/// `n` empty lists.
pub(crate) fn empty_lists<T>(n: usize) -> (r: Vec<Vec<T>>)
    ensures
        r.len() == n,
        forall|i: int| 0 <= i < n ==> (#[trigger] r[i])@ == Seq::<T>::empty(),
{
    let mut out: Vec<Vec<T>> = Vec::new();
    let mut i: usize = 0;
    while i < n
        invariant
            i <= n,
            out.len() == i,
            forall|j: int| 0 <= j < i ==> (#[trigger] out[j])@ == Seq::<T>::empty(),
        decreases n - i,
    {
        out.push(Vec::new());
        i = i + 1;
    }
    out
}

/// For each vertex the faces around it.
pub(crate) fn collect_around(faces: &Vec<Face>, n: usize) -> (r: Vec<Vec<usize>>)
    requires
        faces_below(loops(faces@), n as nat),
    ensures
        r.len() == n,
        forall|v: int| 0 <= v < n ==> (#[trigger] r[v])@ == faces_around(loops(faces@), v),
{
    let ghost all = loops(faces@);
    let mut lists: Vec<Vec<usize>> = empty_lists(n);
    let mut f: usize = 0;
    while f < faces.len()
        invariant
            f <= faces.len(),
            all == loops(faces@),
            faces_below(all, n as nat),
            lists.len() == n,
            forall|v: int| 0 <= v < n ==> (#[trigger] lists[v])@ == around_upto(all, f as int, 0, v),
        decreases faces.len() - f,
    {
        let face = &faces[f].indices;
        assert(all[f as int] == face@);
        assert(face_below(all[f as int], n as nat));
        let mut k: usize = 0;
        while k < face.len()
            invariant
                k <= face.len(),
                f < faces.len(),
                all.len() == faces.len(),
                all[f as int] == face@,
                face_below(face@, n as nat),
                lists.len() == n,
                forall|v: int|
                    0 <= v < n ==> (#[trigger] lists[v])@ == around_upto(
                        all,
                        f as int,
                        k as int,
                        v,
                    ),
            decreases face.len() - k,
        {
            let v: usize = face[k] as usize;
            lists[v].push(f);
            k = k + 1;
        }
        f = f + 1;
    }
    lists
}

/// For each vertex the edges that meet there.
fn collect_incident(edges: &Vec<(u32, u32)>, n: usize) -> (r: Vec<Vec<usize>>)
    requires
        forall|i: int| 0 <= i < edges.len() ==> (#[trigger] edges[i]).0 < n && edges[i].1 < n,
    ensures
        r.len() == n,
        forall|v: int| 0 <= v < n ==> (#[trigger] r[v])@ == incident(edges@, v),
{
    let mut lists: Vec<Vec<usize>> = empty_lists(n);
    let mut i: usize = 0;
    assert(edges@.take(0) =~= Seq::empty());
    while i < edges.len()
        invariant
            i <= edges.len(),
            forall|i: int| 0 <= i < edges.len() ==> (#[trigger] edges[i]).0 < n && edges[i].1 < n,
            lists.len() == n,
            forall|v: int|
                0 <= v < n ==> (#[trigger] lists[v])@ == incident(edges@.take(i as int), v),
        decreases edges.len() - i,
    {
        let e: (u32, u32) = edges[i];
        let ghost before = lists@;
        lists[e.0 as usize].push(i);
        lists[e.1 as usize].push(i);
        proof {
            let more = edges@.take(i + 1);
            assert(more.drop_last() =~= edges@.take(i as int));
            assert(more.last() == e);
            assert forall|v: int| 0 <= v < n implies (#[trigger] lists[v])@ == incident(more, v) by {
                assert(before[v]@ == incident(edges@.take(i as int), v));
            }
        }
        i = i + 1;
    }
    assert(edges@.take(i as int) =~= edges@);
    lists
}

/// The numbers of the border edges among some edges.
fn pick_borders(table: &EdgeTable, Ghost(faces): Ghost<Seq<Seq<u32>>>, numbers: &Vec<usize>) -> (r:
    Vec<usize>)
    requires
        table.holds(faces, faces.len() as int, 0),
        forall|i: int| 0 <= i < numbers.len() ==> #[trigger] numbers[i] < table.edges.len(),
    ensures
        r@ == borders(faces, table.edges@, numbers@),
        forall|i: int| 0 <= i < r.len() ==> #[trigger] r[i] < table.edges.len(),
{
    let mut out: Vec<usize> = Vec::new();
    let mut i: usize = 0;
    assert(numbers@.take(0) =~= Seq::empty());
    while i < numbers.len()
        invariant
            i <= numbers.len(),
            table.holds(faces, faces.len() as int, 0),
            forall|i: int| 0 <= i < numbers.len() ==> #[trigger] numbers[i] < table.edges.len(),
            out@ == borders(faces, table.edges@, numbers@.take(i as int)),
            forall|i: int| 0 <= i < out.len() ==> #[trigger] out[i] < table.edges.len(),
        decreases numbers.len() - i,
    {
        let e: usize = numbers[i];
        proof {
            let more = numbers@.take(i + 1);
            assert(more.drop_last() =~= numbers@.take(i as int));
            assert(more.last() == e);
            assert(table.users[e as int]@ == uses(faces, table.edges[e as int]));
        }
        if table.users[e].len() == 1 {
            out.push(e);
        }
        i = i + 1;
    }
    assert(numbers@.take(i as int) =~= numbers@);
    out
}

impl Mesh {
    /// Where one vertex moves.
    fn relax_vertex<R: Fn(Vec3, VertexRule) -> Vec3>(
        &self,
        v: usize,
        table: &EdgeTable,
        by: &Vec<usize>,
        met: &Vec<usize>,
        face_points: &Vec<Vec3>,
        relax: &R,
    ) -> (r: Vec3)
        requires
            v < self@.vertices.len(),
            self@.in_range(),
            table.holds(self@.faces, self@.faces.len() as int, 0),
            forall|i: int|
                0 <= i < table.edges.len() ==> (#[trigger] table.edges[i]).0 < self@.vertices.len()
                    && table.edges[i].1 < self@.vertices.len(),
            by@ == faces_around(self@.faces, v as int),
            met@ == incident(table.edges@, v as int),
            face_points.len() == self@.faces.len(),
            forall|p: Vec3, rule: VertexRule| relax.requires((p, rule)),
        ensures
            is_relaxed(self@, face_points@, table.edges@, v as int, *relax, r),
    {
        let p: Vec3 = self.vertices[v];
        if by.len() == 0 {
            return p;
        }
        proof {
            lemma_incident(table.edges@, v as int);
            lemma_around(self@.faces, self@.faces.len() as int, 0, v as int);
        }
        let border = pick_borders(table, Ghost(self@.faces), met);
        if border.len() == 2 {
            let e: (u32, u32) = table.edges[border[0]];
            let g: (u32, u32) = table.edges[border[1]];
            let first: (Vec3, Vec3) = (self.vertices[e.0 as usize], self.vertices[e.1 as usize]);
            let second: (Vec3, Vec3) = (self.vertices[g.0 as usize], self.vertices[g.1 as usize]);
            return relax(p, VertexRule::Crease { first, second });
        }
        let ghost want_points = Seq::new(by@.len(), |i: int| face_points@[by@[i] as int]);
        let mut points: Vec<Vec3> = Vec::new();
        let mut i: usize = 0;
        while i < by.len()
            invariant
                i <= by.len(),
                face_points.len() == self@.faces.len(),
                forall|i: int| 0 <= i < by.len() ==> #[trigger] by[i] < self@.faces.len(),
                want_points == Seq::new(by@.len(), |i: int| face_points@[by@[i] as int]),
                points@ == want_points.take(i as int),
            decreases by.len() - i,
        {
            points.push(face_points[by[i]]);
            assert(points@ =~= want_points.take(i + 1));
            i = i + 1;
        }
        assert(want_points.take(i as int) =~= want_points);
        let ghost want_edges = Seq::new(
            met@.len(),
            |i: int| ends(self@.vertices, table.edges@[met@[i] as int]),
        );
        let mut edges: Vec<(Vec3, Vec3)> = Vec::new();
        let mut i: usize = 0;
        while i < met.len()
            invariant
                i <= met.len(),
                forall|i: int| 0 <= i < met.len() ==> #[trigger] met[i] < table.edges.len(),
                forall|i: int|
                    0 <= i < table.edges.len() ==> (#[trigger] table.edges[i]).0
                        < self@.vertices.len() && table.edges[i].1 < self@.vertices.len(),
                want_edges == Seq::new(
                    met@.len(),
                    |i: int| ends(self@.vertices, table.edges@[met@[i] as int]),
                ),
                edges@ == want_edges.take(i as int),
            decreases met.len() - i,
        {
            let e: (u32, u32) = table.edges[met[i]];
            edges.push((self.vertices[e.0 as usize], self.vertices[e.1 as usize]));
            assert(edges@ =~= want_edges.take(i + 1));
            i = i + 1;
        }
        assert(want_edges.take(i as int) =~= want_edges);
        relax(p, VertexRule::Smooth { face_points: points, edges })
    }

    /// The quads of the subdivided mesh.
    fn corner_quads(&self, table: &EdgeTable) -> (r: Vec<Face>)
        requires
            table.holds(self@.faces, self@.faces.len() as int, 0),
            self@.vertices.len() + self@.faces.len() + side_count(self@.faces) <= u32::MAX,
        ensures
            r@.len() == side_count(self@.faces),
            forall|f: int, i: int|
                0 <= f < self@.faces.len() && 0 <= i < self@.faces[f].len() ==> r[offset(
                    self@.faces,
                    f,
                ) + i]@ == #[trigger] corner_quad(
                    self@.faces,
                    table.edges@,
                    self@.vertices.len() as int,
                    f,
                    i,
                ),
    {
        let ghost all = self@.faces;
        let ghost n = self@.vertices.len() as int;
        let nv: usize = self.vertices.len();
        let base: usize = nv + self.faces.len();
        let mut quads: Vec<Face> = Vec::new();
        let mut f: usize = 0;
        while f < self.faces.len()
            invariant
                f <= self.faces.len(),
                all == self@.faces,
                n == self@.vertices.len(),
                nv == n,
                base == n + all.len(),
                base + side_count(all) <= u32::MAX,
                table.holds(all, all.len() as int, 0),
                quads.len() == offset(all, f as int),
                forall|g: int, i: int|
                    0 <= g < f && 0 <= i < all[g].len() ==> quads[offset(all, g) + i]@
                        == #[trigger] corner_quad(all, table.edges@, n, g, i),
            decreases self.faces.len() - f,
        {
            let face = &self.faces[f].indices;
            let m: usize = face.len();
            assert(all[f as int] == face@);
            let mut i: usize = 0;
            while i < m
                invariant
                    i <= m,
                    m == face.len(),
                    f < all.len(),
                    f < self.faces.len(),
                    face@ == all[f as int],
                    nv == n,
                    base == n + all.len(),
                    base + side_count(all) <= u32::MAX,
                    table.holds(all, all.len() as int, 0),
                    quads.len() == offset(all, f as int) + i,
                    forall|g: int, j: int|
                        0 <= g < f && 0 <= j < all[g].len() ==> quads[offset(all, g) + j]@
                            == #[trigger] corner_quad(all, table.edges@, n, g, j),
                    forall|j: int|
                        0 <= j < i ==> quads[offset(all, f as int) + j]@ == #[trigger] corner_quad(
                            all,
                            table.edges@,
                            n,
                            f as int,
                            j,
                        ),
                decreases m - i,
            {
                let v: u32 = face[i];
                let ahead: u32 = face[succ_of(i, m)];
                let behind: u32 = face[pred_of(i, m)];
                proof {
                    lemma_side_in_table(*table, all, f as int, i as int);
                    lemma_side_in_table(*table, all, f as int, pred(i as int, m as int));
                }
                let e_next: u32 = table.number(Ghost(all), v, ahead);
                let e_prev: u32 = table.number(Ghost(all), behind, v);
                let made = quad(
                    v,
                    (base + e_next as usize) as u32,
                    (nv + f) as u32,
                    (base + e_prev as usize) as u32,
                );
                let ghost before = quads@;
                quads.push(made);
                proof {
                    assert(made@ =~= corner_quad(all, table.edges@, n, f as int, i as int));
                    assert forall|g: int, j: int|
                        0 <= g < f && 0 <= j < all[g].len() implies quads[offset(all, g) + j]@
                        == #[trigger] corner_quad(all, table.edges@, n, g, j) by {
                        lemma_offset_monotone(all, g + 1, f as int);
                        lemma_offset_monotone(all, 0, g);
                        assert(before[offset(all, g) + j]@ == corner_quad(
                            all,
                            table.edges@,
                            n,
                            g,
                            j,
                        ));
                    }
                    lemma_offset_monotone(all, 0, f as int);
                }
                i = i + 1;
            }
            f = f + 1;
        }
        quads
    }

    /// One level of Catmull-Clark subdivision. `middle` gives the point of a face from the
    /// positions around it. `join` gives the point of an edge from its ends and, where exactly
    /// two sides use the edge, the points of the faces there. `relax` moves a vertex by the
    /// rule it is given.
    pub fn catmull_clark<
        C: Fn(Vec<Vec3>) -> Vec3,
        E: Fn(Vec3, Vec3, Option<(Vec3, Vec3)>) -> Vec3,
        R: Fn(Vec3, VertexRule) -> Vec3,
    >(&self, middle: &C, join: &E, relax: &R) -> (r: Mesh)
        requires
            self@.in_range(),
            self@.vertices.len() + self@.faces.len() + side_count(self@.faces) <= u32::MAX,
            forall|points: Vec<Vec3>| middle.requires((points,)),
            forall|p: Vec3, q: Vec3, s: Option<(Vec3, Vec3)>| join.requires((p, q, s)),
            forall|p: Vec3, rule: VertexRule| relax.requires((p, rule)),
        ensures
            exists|edges: Seq<(u32, u32)>| #[trigger]
                subdivided(self@, r@, edges, *middle, *join, *relax),
    {
        let ghost all = self@.faces;
        let n: usize = self.vertices.len();
        let nf: usize = self.faces.len();
        let mut face_points: Vec<Vec3> = Vec::new();
        let mut f: usize = 0;
        while f < nf
            invariant
                f <= nf,
                nf == self.faces.len(),
                all == self@.faces,
                self@.in_range(),
                forall|points: Vec<Vec3>| middle.requires((points,)),
                face_points.len() == f,
                forall|g: int|
                    0 <= g < f ==> made_from(
                        *middle,
                        outline(self@.vertices, #[trigger] all[g]),
                        face_points[g],
                    ),
            decreases nf - f,
        {
            assert(all[f as int] == self.faces[f as int]@);
            assert(face_below(all[f as int], self@.vertices.len()));
            let given = self.face_outline(&self.faces[f].indices);
            let point: Vec3 = middle(given);
            assert(middle.ensures((given,), point));
            face_points.push(point);
            f = f + 1;
        }
        let table = collect_edges(&self.faces);
        proof {
            assert forall|i: int| 0 <= i < table.edges.len() implies (
            #[trigger] table.edges[i]).0 < n && table.edges[i].1 < n by {
                assert(table.edges@.contains(table.edges@[i]));
                lemma_uses(all, all.len() as int, 0, table.edges[i], n as nat);
            }
        }
        let around = collect_around(&self.faces, n);
        let incident_edges = collect_incident(&table.edges, n);
        let mut vertices: Vec<Vec3> = Vec::new();
        let mut v: usize = 0;
        while v < n
            invariant
                v <= n,
                n == self@.vertices.len(),
                all == self@.faces,
                self@.in_range(),
                table.holds(all, all.len() as int, 0),
                forall|i: int|
                    0 <= i < table.edges.len() ==> (#[trigger] table.edges[i]).0 < n
                        && table.edges[i].1 < n,
                around.len() == n,
                incident_edges.len() == n,
                forall|v: int| 0 <= v < n ==> (#[trigger] around[v])@ == faces_around(all, v),
                forall|v: int|
                    0 <= v < n ==> (#[trigger] incident_edges[v])@ == incident(table.edges@, v),
                face_points.len() == all.len(),
                forall|p: Vec3, rule: VertexRule| relax.requires((p, rule)),
                vertices.len() == v,
                forall|u: int|
                    0 <= u < v ==> is_relaxed(
                        self@,
                        face_points@,
                        table.edges@,
                        u,
                        *relax,
                        #[trigger] vertices[u],
                    ),
            decreases n - v,
        {
            let point: Vec3 = self.relax_vertex(
                v,
                &table,
                &around[v],
                &incident_edges[v],
                &face_points,
                relax,
            );
            vertices.push(point);
            v = v + 1;
        }
        let ghost moved = vertices@;
        let mut f: usize = 0;
        assert(vertices@ =~= moved + face_points@.take(0));
        while f < nf
            invariant
                f <= nf,
                face_points.len() == nf,
                vertices@ == moved + face_points@.take(f as int),
            decreases nf - f,
        {
            vertices.push(face_points[f]);
            assert(vertices@ =~= moved + face_points@.take(f + 1));
            f = f + 1;
        }
        let mut i: usize = 0;
        assert(vertices@.take(n + nf) =~= moved + face_points@);
        while i < table.edges.len()
            invariant
                i <= table.edges.len(),
                n == self@.vertices.len(),
                nf == all.len(),
                all == self@.faces,
                all.len() <= usize::MAX,
                self@.in_range(),
                table.holds(all, all.len() as int, 0),
                forall|i: int|
                    0 <= i < table.edges.len() ==> (#[trigger] table.edges[i]).0 < n
                        && table.edges[i].1 < n,
                face_points.len() == nf,
                forall|p: Vec3, q: Vec3, s: Option<(Vec3, Vec3)>| join.requires((p, q, s)),
                vertices.len() == n + nf + i,
                vertices@.take(n + nf) == moved + face_points@,
                moved.len() == n,
                forall|j: int|
                    0 <= j < i ==> join.ensures(
                        (
                            self@.vertices[(#[trigger] table.edges[j]).0 as int],
                            self@.vertices[table.edges[j].1 as int],
                            both_sides(all, face_points@, table.edges[j]),
                        ),
                        vertices[n + nf + j],
                    ),
            decreases table.edges.len() - i,
        {
            let e: (u32, u32) = table.edges[i];
            proof {
                lemma_uses(all, all.len() as int, 0, e, n as nat);
                assert(table.users[i as int]@ == uses(all, e));
            }
            let sides: Option<(Vec3, Vec3)> = if table.users[i].len() == 2 {
                Some((face_points[table.users[i][0]], face_points[table.users[i][1]]))
            } else {
                None
            };
            let point: Vec3 = join(self.vertices[e.0 as usize], self.vertices[e.1 as usize], sides);
            let ghost before = vertices@;
            vertices.push(point);
            assert(vertices@.take(n + nf) =~= before.take(n + nf));
            i = i + 1;
        }
        let faces = self.corner_quads(&table);
        let out = Mesh { vertices, faces };
        proof {
            let nn = n as int;
            let nnf = nf as int;
            assert(out@.vertices.subrange(nn, nn + nnf) =~= face_points@) by {
                assert forall|f: int| 0 <= f < nf implies out@.vertices[nn + f] == face_points@[f] by {
                    assert(vertices@.take(nn + nnf)[nn + f] == face_points@[f]);
                }
            }
            assert forall|v: int| 0 <= v < n implies is_relaxed(
                self@,
                out@.vertices.subrange(nn, nn + nnf),
                table.edges@,
                v,
                *relax,
                #[trigger] out@.vertices[v],
            ) by {
                assert(vertices@.take(nn + nnf)[v] == moved[v]);
            }
            assert forall|f: int| 0 <= f < nf implies made_from(
                *middle,
                outline(self@.vertices, #[trigger] self@.faces[f]),
                out@.vertices[nn + f],
            ) by {
                assert(vertices@.take(nn + nnf)[nn + f] == face_points@[f]);
            }
            assert forall|f: int, i: int|
                0 <= f < nf && 0 <= i < self@.faces[f].len() implies out@.faces[offset(
                self@.faces,
                f,
            ) + i] == #[trigger] corner_quad(self@.faces, table.edges@, nn, f, i) by {
                lemma_side_inside(self@.faces, f, i);
            }
            assert(enumerates(all, table.edges@));
            assert(fanned(self@, out@, table.edges@));
            assert(subdivided(self@, out@, table.edges@, *middle, *join, *relax));
        }
        out
    }
}

/// Every side of every face is in the finished table.
proof fn lemma_side_in_table(table: EdgeTable, faces: Seq<Seq<u32>>, f: int, k: int)
    requires
        table.holds(faces, faces.len() as int, 0),
        0 <= f < faces.len(),
        0 <= k < faces[f].len(),
    ensures
        table.edges@.contains(side_edge(faces[f], k)),
{
    let e = side_edge(faces[f], k);
    lemma_uses_grow(faces, f, k + 1, faces.len() as int, 0, e);
}

/// Uses only become more.
proof fn lemma_uses_grow(
    faces: Seq<Seq<u32>>,
    f: int,
    k: int,
    g: int,
    i: int,
    e: (u32, u32),
)
    requires
        0 <= f <= g,
        0 <= k,
        0 <= i,
        f == g ==> k <= i,
        f < g ==> k <= faces[f].len(),
    ensures
        uses_upto(faces, f, k, e).len() <= uses_upto(faces, g, i, e).len(),
    decreases g, i,
{
    if f == g && k == i {
    } else if i > 0 {
        lemma_uses_grow(faces, f, k, g, i - 1, e);
    } else {
        lemma_uses_grow(faces, f, k, g - 1, faces[g - 1].len() as int, e);
    }
}

impl EdgeTable {
    /// The number of an edge of the table.
    fn number(&self, Ghost(faces): Ghost<Seq<Seq<u32>>>, a: u32, b: u32) -> (r: u32)
        requires
            self.holds(faces, faces.len() as int, 0),
            self.edges@.contains(edge_of(a, b)),
        ensures
            r == self.edges@.index_of(edge_of(a, b)),
            r < self.edges.len(),
    {
        let e: (u32, u32) = undirected(a, b);
        proof {
            let i = self.edges@.index_of(e);
            assert(self.edges@[i] == e);
            assert(self.numbers@.contains_key(pair_code(self.edges@[i].0, self.edges@[i].1)));
        }
        *self.numbers.get(&code_of(e.0, e.1)).unwrap()
    }
}

/// A quad of the subdivided mesh names vertices of it.
proof fn lemma_corner_quad_below(
    faces: Seq<Seq<u32>>,
    edges: Seq<(u32, u32)>,
    n: nat,
    f: int,
    i: int,
)
    requires
        faces_below(faces, n),
        enumerates(faces, edges),
        n + faces.len() + edges.len() <= u32::MAX,
        0 <= f < faces.len(),
        0 <= i < faces[f].len(),
    ensures
        face_below(corner_quad(faces, edges, n as int, f, i), n + faces.len() + edges.len()),
{
    let m = faces[f].len() as int;
    assert(face_below(faces[f], n));
    let e = side_edge(faces[f], i);
    let g = side_edge(faces[f], pred(i, m));
    lemma_uses_grow(faces, f, i + 1, faces.len() as int, 0, e);
    lemma_uses_grow(faces, f, pred(i, m) + 1, faces.len() as int, 0, g);
    assert(edges.contains(e) && edges.contains(g));
    assert(0 <= edges.index_of(e) < edges.len() && 0 <= edges.index_of(g) < edges.len());
    assert(faces[f][i] < n);
}

proof fn lemma_fanned(before: MeshModel, after: MeshModel, edges: Seq<(u32, u32)>)
    requires
        before.in_range(),
        before.vertices.len() + before.faces.len() + edges.len() <= u32::MAX,
        fanned(before, after, edges),
    ensures
        after.in_range(),
        forall|q: int| 0 <= q < after.faces.len() ==> (#[trigger] after.faces[q]).len() == 4,
{
    let n = before.vertices.len() as int;
    let all = before.faces;
    assert forall|q: int| 0 <= q < after.faces.len() implies (#[trigger] after.faces[q]).len() == 4
        && face_below(after.faces[q], after.vertices.len()) by {
        let (f, i) = locate(all, all.len() as int, q);
        assert(after.faces[q] == corner_quad(all, edges, n, f, i));
        lemma_corner_quad_below(all, edges, before.vertices.len(), f, i);
    }
}

/// A subdivided mesh has only quads, one for each corner of each face, and its faces name its
/// own vertices.
pub proof fn subdivision_gives_quads<
    C: Fn(Vec<Vec3>) -> Vec3,
    E: Fn(Vec3, Vec3, Option<(Vec3, Vec3)>) -> Vec3,
    R: Fn(Vec3, VertexRule) -> Vec3,
>(
    before: MeshModel,
    after: MeshModel,
    edges: Seq<(u32, u32)>,
    middle: C,
    join: E,
    relax: R,
)
    requires
        before.in_range(),
        before.vertices.len() + before.faces.len() + edges.len() <= u32::MAX,
        subdivided(before, after, edges, middle, join, relax),
    ensures
        after.in_range(),
        after.faces.len() == side_count(before.faces),
        forall|q: int| 0 <= q < after.faces.len() ==> (#[trigger] after.faces[q]).len() == 4,
{
    lemma_fanned(before, after, edges);
}

/// The face and the side of it that first uses an edge.
proof fn first_use(faces: Seq<Seq<u32>>, f: int, k: int, e: (u32, u32)) -> (at: (int, int))
    requires
        uses_upto(faces, f, k, e).len() > 0,
        0 <= f,
        f < faces.len() || k <= 0,
        f <= faces.len(),
        f < faces.len() ==> k <= faces[f].len(),
    ensures
        0 <= at.0 < faces.len(),
        0 <= at.1 < faces[at.0].len(),
        side_edge(faces[at.0], at.1) == e,
    decreases f, k,
{
    if k > 0 {
        if uses_upto(faces, f, k - 1, e).len() > 0 {
            first_use(faces, f, k - 1, e)
        } else {
            (f, k - 1)
        }
    } else {
        first_use(faces, f - 1, faces[f - 1].len() as int, e)
    }
}

/// There are no more edges than sides.
pub(crate) proof fn lemma_edges_bounded(faces: Seq<Seq<u32>>, edges: Seq<(u32, u32)>)
    requires
        enumerates(faces, edges),
    ensures
        edges.len() <= side_count(faces),
{
    let places = Seq::new(
        edges.len(),
        |i: int| offset(faces, use_of(faces, edges[i]).0) + use_of(faces, edges[i]).1,
    );
    assert forall|i: int| 0 <= i < edges.len() implies is_use(
        faces,
        use_of(faces, #[trigger] edges[i]),
        edges[i],
    ) by {
        assert(edges.contains(edges[i]));
        let at = first_use(faces, faces.len() as int, 0, edges[i]);
        assert(is_use(faces, at, edges[i]));
    }
    assert forall|i: int| 0 <= i < places.len() implies 0 <= #[trigger] places[i] < side_count(
        faces,
    ) by {
        let at = use_of(faces, edges[i]);
        lemma_side_inside(faces, at.0, at.1);
    }
    assert forall|i: int, j: int| 0 <= i < places.len() && 0 <= j < places.len() && i != j implies
        places[i] != places[j] by {
        let a = use_of(faces, edges[i]);
        let b = use_of(faces, edges[j]);
        assert(edges[i] != edges[j]);
        if a.0 < b.0 {
            lemma_offset_monotone(faces, a.0 + 1, b.0);
        } else if b.0 < a.0 {
            lemma_offset_monotone(faces, b.0 + 1, a.0);
        }
    }
    lemma_offset_monotone(faces, 0, faces.len() as int);
    crate::halfedge::lemma_distinct_below(places, side_count(faces) as nat);
}

/// Some side of a face that uses an edge.
spec fn use_of(faces: Seq<Seq<u32>>, e: (u32, u32)) -> (int, int) {
    choose|at: (int, int)| #[trigger] is_use(faces, at, e)
}

/// Whether a side of a face uses an edge.
spec fn is_use(faces: Seq<Seq<u32>>, at: (int, int), e: (u32, u32)) -> bool {
    &&& 0 <= at.0 < faces.len()
    &&& 0 <= at.1 < faces[at.0].len()
    &&& side_edge(faces[at.0], at.1) == e
}

} // verus!
