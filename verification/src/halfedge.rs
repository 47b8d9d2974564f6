//! Half-edge meshes: the adjacency form that topology operations work on.
//!
//! Every directed edge knows the same edge walked by the face on its other side, its
//! neighbours around its own face, and the vertex it springs from. The form is made from
//! a [`Mesh`], asked, and baked back into one.
use crate::mesh::{copy_points, loops, pred, pred_of, succ, succ_of, Face, Mesh};
use crate::number::Vec3;
use std::collections::{HashMap, HashSet};
use vstd::prelude::*;

verus! {

broadcast use vstd::std_specs::hash::group_hash_axioms;

/// One directed edge of one face, from `origin` to the origin of `next`.
#[derive(Clone, Copy, Debug, PartialEq, Eq, Structural)]
pub struct HalfEdge {
    /// Vertex this half-edge springs from.
    pub origin: u32,
    /// The same edge walked by the adjacent face, none on a boundary.
    pub twin: Option<u32>,
    /// Next half-edge around this face.
    pub next: u32,
    /// Previous half-edge around this face.
    pub prev: u32,
    /// The face this half-edge borders.
    pub face: u32,
}

/// A half-edge representation of a mesh.
#[derive(Clone, Debug)]
pub struct HalfEdgeMesh {
    pub positions: Vec<Vec3>,
    pub half_edges: Vec<HalfEdge>,
    /// One half-edge of each face.
    pub face_half: Vec<u32>,
}

/// The orientation-free form of an edge: its endpoints with the smaller first.
pub open spec fn edge_of(a: u32, b: u32) -> (u32, u32) {
    if a < b { (a, b) } else { (b, a) }
}

/// The orientation-free form of an edge: its endpoints with the smaller first.
pub fn undirected(a: u32, b: u32) -> (r: (u32, u32))
    ensures
        r == edge_of(a, b),
{
    if a < b {
        (a, b)
    } else {
        (b, a)
    }
}

/// One number for an ordered pair of vertices.
pub open spec fn pair_code(a: u32, b: u32) -> u64 {
    (a * 0x1_0000_0000 + b) as u64
}

pub(crate) fn code_of(a: u32, b: u32) -> (r: u64)
    ensures
        r == pair_code(a, b),
        r == a * 0x1_0000_0000 + b,
{
    a as u64 * 0x1_0000_0000 + b as u64
}

/// Different pairs have different codes.
pub(crate) proof fn lemma_pair_code(a: u32, b: u32, c: u32, d: u32)
    ensures
        pair_code(a, b) == pair_code(c, d) <==> (a == c && b == d),
        pair_code(a, b) == a * 0x1_0000_0000 + b,
{
}

/// The faces that bound a polygon: those with at least three vertices, in order.
pub open spec fn polygons(faces: Seq<Seq<u32>>) -> Seq<Seq<u32>>
    decreases faces.len(),
{
    if faces.len() == 0 {
        Seq::empty()
    } else {
        let rest = polygons(faces.drop_last());
        if faces.last().len() >= 3 {
            rest.push(faces.last())
        } else {
            rest
        }
    }
}

/// How many sides the first `k` polygons have together.
pub open spec fn offset(polys: Seq<Seq<u32>>, k: int) -> int
    decreases k,
{
    if k <= 0 {
        0
    } else {
        offset(polys, k - 1) + polys[k - 1].len()
    }
}

/// How many sides a list of polygons has.
pub open spec fn side_count(polys: Seq<Seq<u32>>) -> int {
    offset(polys, polys.len() as int)
}

/// Whether `he` is side `j` of polygon `k`, apart from its twin.
pub open spec fn is_side(he: HalfEdge, polys: Seq<Seq<u32>>, k: int, j: int) -> bool {
    let m = polys[k].len() as int;
    &&& he.origin == polys[k][j]
    &&& he.next == offset(polys, k) + succ(j, m)
    &&& he.prev == offset(polys, k) + pred(j, m)
    &&& he.face == k
}

/// Whether half-edges list the sides of the polygons, one polygon after the other.
pub open spec fn lists_sides(hes: Seq<HalfEdge>, starts: Seq<u32>, polys: Seq<Seq<u32>>) -> bool {
    &&& starts.len() == polys.len()
    &&& hes.len() == side_count(polys)
    &&& forall|k: int| 0 <= k < polys.len() ==> #[trigger] starts[k] == offset(polys, k)
    &&& forall|k: int, j: int|
        #![trigger polys[k][j]]
        0 <= k < polys.len() && 0 <= j < polys[k].len() ==> is_side(
            hes[offset(polys, k) + j],
            polys,
            k,
            j,
        )
}

/// The vertex a half-edge leads to.
pub open spec fn dest_of(hes: Seq<HalfEdge>, h: int) -> u32 {
    hes[hes[h].next as int].origin
}

/// Whether `t` walks the edge of `h` the other way.
pub open spec fn opposes(hes: Seq<HalfEdge>, h: int, t: int) -> bool {
    hes[t].origin == dest_of(hes, h) && dest_of(hes, t) == hes[h].origin
}

/// Whether the twin of `h` is the last half-edge that walks its edge the other way.
pub open spec fn twinned(hes: Seq<HalfEdge>, h: int) -> bool {
    match hes[h].twin {
        Some(t) => t < hes.len() && opposes(hes, h, t as int) && forall|u: int|
            t < u < hes.len() ==> !(#[trigger] opposes(hes, h, u)),
        None => forall|u: int| 0 <= u < hes.len() ==> !(#[trigger] opposes(hes, h, u)),
    }
}

/// The half-edge reached from `h` after `n` steps around its face.
pub open spec fn walk(hes: Seq<HalfEdge>, h: u32, n: nat) -> u32
    decreases n,
{
    if n == 0 {
        h
    } else {
        hes[walk(hes, h, (n - 1) as nat) as int].next
    }
}

/// Whether the walk around the face of `h` first comes back after `n` steps.
pub open spec fn closes_after(hes: Seq<HalfEdge>, h: u32, n: nat) -> bool {
    &&& n > 0
    &&& walk(hes, h, n) == h
    &&& forall|i: nat| 0 < i < n ==> #[trigger] walk(hes, h, i) != h
}

/// Whether the walk around the face of `h` comes back.
pub open spec fn comes_back(hes: Seq<HalfEdge>, h: u32) -> bool {
    exists|n: nat| 0 < n <= hes.len() && #[trigger] walk(hes, h, n) == h
}

/// Whether the face of `h` has four sides.
pub open spec fn in_quad(hes: Seq<HalfEdge>, h: u32) -> bool {
    closes_after(hes, h, 4)
}

/// Whether all links of the half-edges lead to half-edges, and every walk around a face
/// comes back.
pub open spec fn linked(hes: Seq<HalfEdge>) -> bool {
    &&& hes.len() <= u32::MAX
    &&& forall|h: int|
        0 <= h < hes.len() ==> (#[trigger] hes[h]).next < hes.len() && hes[h].prev < hes.len()
            && (hes[h].twin matches Some(t) ==> t < hes.len())
    &&& forall|h: u32| h < hes.len() ==> #[trigger] comes_back(hes, h)
}

/// The chain of half-edges that `step` leads through from `start`, as far as it goes.
pub open spec fn iterate(step: spec_fn(u32) -> Option<u32>, start: u32, n: nat) -> Option<u32>
    decreases n,
{
    if n == 0 {
        Some(start)
    } else {
        match iterate(step, start, (n - 1) as nat) {
            Some(h) => step(h),
            None => None,
        }
    }
}

/// The undirected edge that a half-edge spans.
pub open spec fn edge_at(hes: Seq<HalfEdge>, h: u32) -> (u32, u32) {
    edge_of(hes[h as int].origin, dest_of(hes, h as int))
}

/// Whether some half-edge spans the undirected edge `e`.
pub open spec fn spanned(hes: Seq<HalfEdge>, e: (u32, u32)) -> bool {
    exists|h: u32| h < hes.len() && e == #[trigger] edge_at(hes, h)
}

/// Across a quad to the parallel edge, and over it into the next face.
pub open spec fn across(hes: Seq<HalfEdge>, h: u32) -> Option<u32> {
    if in_quad(hes, h) {
        hes[walk(hes, h, 2) as int].twin
    } else {
        None
    }
}

/// Straight on through the vertex ahead, from quad to quad.
pub open spec fn ahead(hes: Seq<HalfEdge>, h: u32) -> Option<u32> {
    match hes[hes[h as int].next as int].twin {
        Some(t) => if in_quad(hes, h) && in_quad(hes, hes[t as int].next) {
            Some(hes[t as int].next)
        } else {
            None
        },
        None => None,
    }
}

/// Around the origin of `h` into the next face that shares it.
pub open spec fn around(hes: Seq<HalfEdge>, h: u32) -> Option<u32> {
    hes[hes[h as int].prev as int].twin
}

/// The steps of an edge ring.
pub open spec fn crossing(hes: Seq<HalfEdge>) -> spec_fn(u32) -> Option<u32> {
    |h: u32| across(hes, h)
}

/// The steps of an edge loop.
pub open spec fn straight_on(hes: Seq<HalfEdge>) -> spec_fn(u32) -> Option<u32> {
    |h: u32| ahead(hes, h)
}

/// The steps of a vertex fan.
pub open spec fn rotation(hes: Seq<HalfEdge>) -> spec_fn(u32) -> Option<u32> {
    |h: u32| around(hes, h)
}

/// Whether `edges` are the edges of the chain that `step` leads through from `start`, up to
/// where it ends or meets an edge again.
pub open spec fn edge_chain(
    hes: Seq<HalfEdge>,
    step: spec_fn(u32) -> Option<u32>,
    start: u32,
    edges: Seq<(u32, u32)>,
) -> bool {
    &&& edges.len() > 0
    &&& edges.no_duplicates()
    &&& forall|i: nat|
        i < edges.len() ==> (#[trigger] iterate(step, start, i)) is Some && edges[i as int]
            == edge_at(hes, iterate(step, start, i)->0)
    &&& iterate(step, start, edges.len()) matches Some(h) ==> edges.contains(edge_at(hes, h))
}

/// Whether `h` is the first half-edge that springs from `v`.
pub open spec fn first_from(hes: Seq<HalfEdge>, v: u32, h: u32) -> bool {
    &&& h < hes.len()
    &&& hes[h as int].origin == v
    &&& forall|i: int| 0 <= i < h ==> (#[trigger] hes[i]).origin != v
}

/// Whether `fan` goes once around the origin of `start`.
pub open spec fn goes_around(hes: Seq<HalfEdge>, start: u32, fan: Seq<u32>) -> bool {
    let step = rotation(hes);
    &&& 0 < fan.len() <= hes.len()
    &&& iterate(step, start, fan.len()) == Some(start)
    &&& forall|i: nat|
        i < fan.len() ==> #[trigger] iterate(step, start, i) == Some(fan[i as int])
    &&& forall|i: nat|
        0 < i < fan.len() ==> #[trigger] iterate(step, start, i) != Some(start)
}

impl HalfEdgeMesh {
    /// Whether the links of the structure hold together.
    pub open spec fn valid(&self) -> bool {
        &&& linked(self.half_edges@)
        &&& forall|k: int|
            0 <= k < self.face_half.len() ==> #[trigger] self.face_half[k] < self.half_edges.len()
    }

    /// Whether the structure was made from these polygons.
    pub open spec fn built_from(&self, polys: Seq<Seq<u32>>) -> bool {
        &&& lists_sides(self.half_edges@, self.face_half@, polys)
        &&& forall|h: int|
            0 <= h < self.half_edges.len() ==> #[trigger] twinned(self.half_edges@, h)
    }
}

/// Appending a polygon moves no side of the others.
proof fn lemma_offset_push(polys: Seq<Seq<u32>>, p: Seq<u32>, k: int)
    requires
        0 <= k <= polys.len(),
    ensures
        offset(polys.push(p), k) == offset(polys, k),
    decreases k,
{
    if k > 0 {
        lemma_offset_push(polys, p, k - 1);
    }
}

/// Later polygons start after earlier ones end.
pub(crate) proof fn lemma_offset_monotone(polys: Seq<Seq<u32>>, k: int, n: int)
    requires
        0 <= k <= n <= polys.len(),
    ensures
        0 <= offset(polys, k) <= offset(polys, n),
    decreases n,
{
    if k < n {
        lemma_offset_monotone(polys, k, n - 1);
    } else if k > 0 {
        lemma_offset_monotone(polys, k - 1, k - 1);
    }
}

/// A side of a polygon lies inside the list of all sides.
pub(crate) proof fn lemma_side_inside(polys: Seq<Seq<u32>>, k: int, j: int)
    requires
        0 <= k < polys.len(),
        0 <= j < polys[k].len(),
    ensures
        0 <= offset(polys, k),
        offset(polys, k) + j < side_count(polys),
        offset(polys, k) + polys[k].len() <= side_count(polys),
{
    lemma_offset_monotone(polys, k + 1, polys.len() as int);
    lemma_offset_monotone(polys, k, k);
}

/// The polygons of one face more.
pub(crate) proof fn lemma_polygons_step(faces: Seq<Seq<u32>>, i: int)
    requires
        0 <= i < faces.len(),
    ensures
        polygons(faces.take(i + 1)) == if faces[i].len() >= 3 {
            polygons(faces.take(i)).push(faces[i])
        } else {
            polygons(faces.take(i))
        },
{
    assert(faces.take(i + 1).drop_last() =~= faces.take(i));
    assert(faces.take(i + 1).last() == faces[i]);
}

/// The first faces have no more sides than all of them.
proof fn lemma_sides_monotone(faces: Seq<Seq<u32>>, i: int)
    requires
        0 <= i <= faces.len(),
    ensures
        side_count(polygons(faces.take(i))) <= side_count(polygons(faces)),
    decreases faces.len() - i,
{
    if i < faces.len() {
        lemma_polygons_step(faces, i);
        let polys = polygons(faces.take(i));
        lemma_offset_push(polys, faces[i], polys.len() as int);
        lemma_sides_monotone(faces, i + 1);
    } else {
        assert(faces.take(i) =~= faces);
    }
}

/// Every polygon has at least three sides.
proof fn lemma_polygons_have_sides(faces: Seq<Seq<u32>>)
    ensures
        forall|k: int|
            0 <= k < polygons(faces).len() ==> (#[trigger] polygons(faces)[k]).len() >= 3,
        polygons(faces).len() <= side_count(polygons(faces)),
    decreases faces.len(),
{
    if faces.len() > 0 {
        lemma_polygons_have_sides(faces.drop_last());
        let rest = polygons(faces.drop_last());
        lemma_offset_push(rest, faces.last(), rest.len() as int);
    }
}

/// The polygon and the side within it that a place in the list of sides belongs to.
pub(crate) proof fn locate(polys: Seq<Seq<u32>>, n: int, h: int) -> (at: (int, int))
    requires
        0 <= n <= polys.len(),
        0 <= h < offset(polys, n),
    ensures
        0 <= at.0 < n,
        0 <= at.1 < polys[at.0].len(),
        h == offset(polys, at.0) + at.1,
    decreases n,
{
    if h >= offset(polys, n - 1) {
        (n - 1, h - offset(polys, n - 1))
    } else {
        locate(polys, n - 1, h)
    }
}

/// Walking around a listed polygon goes from side to side and comes back at its length.
pub(crate) proof fn lemma_walk_sides(
    hes: Seq<HalfEdge>,
    starts: Seq<u32>,
    polys: Seq<Seq<u32>>,
    k: int,
    j: int,
    i: nat,
)
    requires
        lists_sides(hes, starts, polys),
        hes.len() <= u32::MAX,
        0 <= k < polys.len(),
        0 <= j < polys[k].len(),
        i <= polys[k].len(),
    ensures
        walk(hes, (offset(polys, k) + j) as u32, i) == offset(polys, k) + (if j + i
            < polys[k].len() {
            j + i
        } else {
            j + i - polys[k].len()
        }),
    decreases i,
{
    lemma_side_inside(polys, k, j);
    if i > 0 {
        lemma_walk_sides(hes, starts, polys, k, j, (i - 1) as nat);
        let m = polys[k].len();
        let at = if j + i - 1 < m {
            j + i - 1
        } else {
            j + i - 1 - m
        };
        assert(polys[k][at] == polys[k][at]);
        assert(is_side(hes[offset(polys, k) + at], polys, k, at));
    }
}

/// Listed sides are linked.
pub(crate) proof fn lemma_sides_linked(hes: Seq<HalfEdge>, starts: Seq<u32>, polys: Seq<Seq<u32>>)
    requires
        lists_sides(hes, starts, polys),
        hes.len() <= u32::MAX,
        forall|h: int|
            0 <= h < hes.len() ==> ((#[trigger] hes[h]).twin matches Some(t) ==> t < hes.len()),
    ensures
        linked(hes),
{
    assert forall|h: int| 0 <= h < hes.len() implies (#[trigger] hes[h]).next < hes.len()
        && hes[h].prev < hes.len() by {
        let (k, j) = locate(polys, polys.len() as int, h);
        assert(polys[k][j] == polys[k][j]);
        assert(is_side(hes[offset(polys, k) + j], polys, k, j));
        lemma_side_inside(polys, k, succ(j, polys[k].len() as int));
        lemma_side_inside(polys, k, pred(j, polys[k].len() as int));
    }
    assert forall|h: u32| h < hes.len() implies #[trigger] comes_back(hes, h) by {
        let (k, j) = locate(polys, polys.len() as int, h as int);
        let m = polys[k].len();
        lemma_walk_sides(hes, starts, polys, k, j, m);
        lemma_side_inside(polys, k, j);
        lemma_side_inside(polys, k, 0);
        assert(walk(hes, h, m) == h);
        assert(0 < m <= hes.len());
    }
}

/// Whether two lists of half-edges differ in their twins only.
spec fn same_links(a: Seq<HalfEdge>, b: Seq<HalfEdge>) -> bool {
    &&& a.len() == b.len()
    &&& forall|h: int|
        #![trigger a[h]]
        #![trigger b[h]]
        0 <= h < a.len() ==> a[h].origin == b[h].origin && a[h].next == b[h].next && a[h].prev
            == b[h].prev && a[h].face == b[h].face
}

/// The code of the directed edge that a half-edge walks.
spec fn dir_code(hes: Seq<HalfEdge>, h: int) -> u64 {
    pair_code(hes[h].origin, dest_of(hes, h))
}

/// Whether `map` finds the last of the first `n` half-edges that walks a directed edge.
spec fn finds_last(hes: Seq<HalfEdge>, n: int, map: Map<u64, u32>) -> bool {
    &&& forall|u: int|
        0 <= u < n ==> map.contains_key(#[trigger] dir_code(hes, u)) && map[dir_code(hes, u)] >= u
    &&& forall|c: u64| #[trigger]
        map.contains_key(c) ==> map[c] < n && dir_code(hes, map[c] as int) == c
}

/// The sides of all polygons, without twins, and where each polygon starts.
fn list_sides(faces: &Vec<Face>) -> (r: (Vec<HalfEdge>, Vec<u32>))
    requires
        side_count(polygons(loops(faces@))) <= u32::MAX,
    ensures
        lists_sides(r.0@, r.1@, polygons(loops(faces@))),
        forall|h: int| 0 <= h < r.0.len() ==> (#[trigger] r.0[h]).twin is None,
{
    let mut hes: Vec<HalfEdge> = Vec::new();
    let mut starts: Vec<u32> = Vec::new();
    let ghost all = loops(faces@);
    let mut i: usize = 0;
    assert(all.take(0) =~= Seq::empty());
    while i < faces.len()
        invariant
            i <= faces.len(),
            all == loops(faces@),
            side_count(polygons(all)) <= u32::MAX,
            lists_sides(hes@, starts@, polygons(all.take(i as int))),
            forall|h: int| 0 <= h < hes.len() ==> (#[trigger] hes[h]).twin is None,
        decreases faces.len() - i,
    {
        let m: usize = faces[i].indices.len();
        let ghost polys = polygons(all.take(i as int));
        let ghost p = all[i as int];
        proof {
            lemma_polygons_step(all, i as int);
            lemma_sides_monotone(all, i + 1);
            lemma_polygons_have_sides(all.take(i as int));
            lemma_offset_push(polys, p, polys.len() as int);
        }
        if m >= 3 {
            let ghost polys2 = polys.push(p);
            let start: u32 = hes.len() as u32;
            let side: u32 = starts.len() as u32;
            let ghost before = hes@;
            let mut k: usize = 0;
            assert(side_count(polys2) == start + m);
            while k < m
                invariant
                    k <= m,
                    m == p.len(),
                    m >= 3,
                    i < faces.len(),
                    p == faces[i as int]@,
                    polys2 == polys.push(p),
                    start == before.len(),
                    start == offset(polys2, polys.len() as int),
                    start + m <= u32::MAX,
                    side == polys.len(),
                    hes.len() == start + k,
                    forall|h: int| 0 <= h < start ==> #[trigger] hes[h] == before[h],
                    forall|h: int| 0 <= h < hes.len() ==> (#[trigger] hes[h]).twin is None,
                    forall|j: int|
                        0 <= j < k ==> is_side(
                            #[trigger] hes[start + j],
                            polys2,
                            polys.len() as int,
                            j,
                        ),
                decreases m - k,
            {
                let next: u32 = start + succ_of(k, m) as u32;
                let prev: u32 = start + pred_of(k, m) as u32;
                hes.push(
                    HalfEdge {
                        origin: faces[i].indices[k],
                        twin: None,
                        next,
                        prev,
                        face: side,
                    },
                );
                k = k + 1;
            }
            starts.push(start);
            proof {
                assert forall|k: int| 0 <= k < polys2.len() implies #[trigger] starts[k]
                    == offset(polys2, k) by {
                    lemma_offset_push(polys, p, k);
                }
                assert forall|k: int, j: int|
                    #![trigger polys2[k][j]]
                    0 <= k < polys2.len() && 0 <= j < polys2[k].len() implies is_side(
                    hes[offset(polys2, k) + j],
                    polys2,
                    k,
                    j,
                ) by {
                    lemma_offset_push(polys, p, k);
                    if k < polys.len() {
                        lemma_side_inside(polys, k, j);
                        assert(polys[k][j] == polys2[k][j]);
                        assert(hes[offset(polys, k) + j] == before[offset(polys, k) + j]);
                    } else {
                        assert(is_side(hes[start + j], polys2, k, j));
                    }
                }
            }
        }
        i = i + 1;
    }
    assert(all.take(i as int) =~= all);
    (hes, starts)
}

/// For each directed edge the last half-edge that walks it.
fn find_directed(hes: &Vec<HalfEdge>) -> (r: HashMap<u64, u32>)
    requires
        linked(hes@),
    ensures
        finds_last(hes@, hes.len() as int, r@),
{
    let mut map: HashMap<u64, u32> = HashMap::new();
    let mut idx: usize = 0;
    while idx < hes.len()
        invariant
            idx <= hes.len(),
            linked(hes@),
            finds_last(hes@, idx as int, map@),
        decreases hes.len() - idx,
    {
        let next: u32 = hes[idx].next;
        let code: u64 = code_of(hes[idx].origin, hes[next as usize].origin);
        map.insert(code, idx as u32);
        idx = idx + 1;
    }
    map
}

/// The links after twins were matched.
fn match_twins(sides: Vec<HalfEdge>) -> (r: Vec<HalfEdge>)
    requires
        linked(sides@),
    ensures
        same_links(r@, sides@),
        forall|h: int| 0 <= h < r.len() ==> #[trigger] twinned(r@, h),
{
    let map = find_directed(&sides);
    let mut hes: Vec<HalfEdge> = sides;
    let mut idx: usize = 0;
    while idx < hes.len()
        invariant
            idx <= hes.len(),
            same_links(hes@, sides@),
            linked(sides@),
            finds_last(sides@, sides.len() as int, map@),
            forall|h: int| 0 <= h < idx ==> #[trigger] twinned(hes@, h),
        decreases hes.len() - idx,
    {
        let he: HalfEdge = hes[idx];
        let dest: u32 = hes[he.next as usize].origin;
        let code: u64 = code_of(dest, he.origin);
        let ghost before = hes@;
        let twin: Option<u32> = match map.get(&code) {
            Some(t) => Some(*t),
            None => None,
        };
        hes.set(
            idx,
            HalfEdge { origin: he.origin, twin, next: he.next, prev: he.prev, face: he.face },
        );
        proof {
            assert forall|h: int, u: int| 0 <= h < hes.len() && 0 <= u < hes.len() implies (
            #[trigger] opposes(hes@, h, u)) == opposes(sides@, h, u) && opposes(before, h, u)
                == opposes(sides@, h, u) by {
                assert(sides@[h].next < sides@.len());
                assert(sides@[u].next < sides@.len());
            }
            assert forall|h: int| 0 <= h < idx + 1 implies #[trigger] twinned(hes@, h) by {
                if h < idx {
                    assert(twinned(before, h));
                    assert forall|u: int| 0 <= u < hes.len() implies opposes(before, h, u)
                        == #[trigger] opposes(hes@, h, u) by {}
                } else {
                    assert forall|u: int| 0 <= u < hes.len() implies (#[trigger] opposes(
                        sides@,
                        h,
                        u,
                    ) <==> dir_code(sides@, u) == code) by {
                        lemma_pair_code(
                            sides@[u].origin,
                            dest_of(sides@, u),
                            dest_of(sides@, h),
                            sides@[h].origin,
                        );
                    }
                    assert forall|u: int| 0 <= u < hes.len() implies opposes(sides@, h, u)
                        == #[trigger] opposes(hes@, h, u) by {}
                }
            }
        }
        idx = idx + 1;
    }
    hes
}

impl HalfEdgeMesh {
    /// Build the half-edge structure of a mesh. Faces with fewer than three vertices are
    /// skipped; every other face contributes one half-edge per side. The half-edge from `a`
    /// to `b` is twinned with the last half-edge from `b` to `a`.
    pub fn from_mesh(mesh: &Mesh) -> (r: HalfEdgeMesh)
        requires
            side_count(polygons(mesh@.faces)) <= u32::MAX,
        ensures
            r.valid(),
            r.positions@ == mesh@.vertices,
            r.built_from(polygons(mesh@.faces)),
    {
        let (sides, face_half) = list_sides(&mesh.faces);
        let ghost polys = polygons(mesh@.faces);
        let ghost listed = sides@;
        proof {
            lemma_sides_linked(sides@, face_half@, polys);
            lemma_polygons_have_sides(mesh@.faces);
        }
        let half_edges = match_twins(sides);
        proof {
            assert(lists_sides(half_edges@, face_half@, polys)) by {
                assert forall|k: int, j: int|
                    #![trigger polys[k][j]]
                    0 <= k < polys.len() && 0 <= j < polys[k].len() implies is_side(
                    half_edges@[offset(polys, k) + j],
                    polys,
                    k,
                    j,
                ) by {
                    lemma_side_inside(polys, k, j);
                    assert(is_side(listed[offset(polys, k) + j], polys, k, j));
                }
            }
            assert forall|h: int| 0 <= h < half_edges.len() implies ((
            #[trigger] half_edges@[h]).twin matches Some(t) ==> t < half_edges.len()) by {
                assert(twinned(half_edges@, h));
            }
            lemma_sides_linked(half_edges@, face_half@, polys);
            assert forall|k: int| 0 <= k < face_half.len() implies #[trigger] face_half[k]
                < half_edges.len() by {
                assert(polys[k].len() >= 3);
                lemma_side_inside(polys, k, 0);
            }
        }
        HalfEdgeMesh { positions: copy_points(&mesh.vertices), half_edges, face_half }
    }
}

/// The first return of a walk that comes back.
proof fn first_return(hes: Seq<HalfEdge>, h: u32, n: nat) -> (least: nat)
    requires
        n > 0,
        walk(hes, h, n) == h,
    ensures
        closes_after(hes, h, least),
        least <= n,
    decreases n,
{
    if exists|i: nat| 0 < i < n && #[trigger] walk(hes, h, i) == h {
        let i = choose|i: nat| 0 < i < n && #[trigger] walk(hes, h, i) == h;
        first_return(hes, h, i)
    } else {
        n
    }
}

/// How long the walk around the face of `h` is.
proof fn face_length(hes: Seq<HalfEdge>, h: u32) -> (n: nat)
    requires
        comes_back(hes, h),
    ensures
        closes_after(hes, h, n),
        n <= hes.len(),
{
    let n = choose|n: nat| 0 < n <= hes.len() && #[trigger] walk(hes, h, n) == h;
    first_return(hes, h, n)
}

/// Walks over linked half-edges stay on them.
proof fn lemma_walk_inside(hes: Seq<HalfEdge>, h: u32, n: nat)
    requires
        linked(hes),
        h < hes.len(),
    ensures
        walk(hes, h, n) < hes.len(),
    decreases n,
{
    if n > 0 {
        lemma_walk_inside(hes, h, (n - 1) as nat);
    }
}

/// Different numbers below `n` are at most `n` many.
pub(crate) proof fn lemma_distinct_below(s: Seq<int>, n: nat)
    requires
        s.no_duplicates(),
        forall|i: int| 0 <= i < s.len() ==> 0 <= #[trigger] s[i] < n,
    ensures
        s.len() <= n,
    decreases n,
{
    if n == 0 {
        if s.len() > 0 {
            assert(s[0] < n);
        }
    } else if s.contains(n - 1) {
        let at = choose|i: int| 0 <= i < s.len() && s[i] == n - 1;
        let rest = s.remove(at);
        assert forall|i: int, j: int| 0 <= i < rest.len() && 0 <= j < rest.len() && i != j implies
            rest[i] != rest[j] by {
            let a = if i < at { i } else { i + 1 };
            let b = if j < at { j } else { j + 1 };
            assert(s[a] != s[b]);
        }
        assert forall|i: int| 0 <= i < rest.len() implies 0 <= #[trigger] rest[i] < n - 1 by {
            let a = if i < at { i } else { i + 1 };
            assert(s[a] != s[at]);
            assert(0 <= s[a] < n);
        }
        lemma_distinct_below(rest, (n - 1) as nat);
    } else {
        assert forall|i: int| 0 <= i < s.len() implies 0 <= #[trigger] s[i] < n - 1 by {
            assert(s.contains(s[i]));
        }
        lemma_distinct_below(s, (n - 1) as nat);
    }
}

/// A chain whose edges all differ is no longer than the list of half-edges.
proof fn lemma_chain_bounded(
    hes: Seq<HalfEdge>,
    step: spec_fn(u32) -> Option<u32>,
    start: u32,
    edges: Seq<(u32, u32)>,
)
    requires
        edges.no_duplicates(),
        forall|i: nat|
            i < edges.len() ==> (#[trigger] iterate(step, start, i)) is Some && iterate(
                step,
                start,
                i,
            )->0 < hes.len() && edges[i as int] == edge_at(hes, iterate(step, start, i)->0),
    ensures
        edges.len() <= hes.len(),
{
    let s = Seq::new(edges.len(), |i: int| iterate(step, start, i as nat)->0 as int);
    assert forall|i: int, j: int| 0 <= i < s.len() && 0 <= j < s.len() && i != j implies s[i]
        != s[j] by {
        assert(edges[i] != edges[j]);
        assert(iterate(step, start, i as nat) is Some);
        assert(iterate(step, start, j as nat) is Some);
    }
    assert forall|i: int| 0 <= i < s.len() implies 0 <= #[trigger] s[i] < hes.len() by {
        assert(iterate(step, start, i as nat) is Some);
    }
    lemma_distinct_below(s, hes.len());
}

impl HalfEdgeMesh {
    /// The vertices around the face of `h`, from its origin on.
    fn face_loop(&self, h: u32) -> (r: Vec<u32>)
        requires
            self.valid(),
            h < self.half_edges.len(),
        ensures
            closes_after(self.half_edges@, h, r@.len()),
            forall|i: int|
                0 <= i < r.len() ==> #[trigger] r[i] == self.half_edges[walk(
                    self.half_edges@,
                    h,
                    i as nat,
                ) as int].origin,
    {
        let ghost hes = self.half_edges@;
        assert(comes_back(hes, h));
        let ghost n = face_length(hes, h);
        let mut indices: Vec<u32> = Vec::new();
        indices.push(self.half_edges[h as usize].origin);
        let mut cur: u32 = self.half_edges[h as usize].next;
        proof {
            reveal_with_fuel(walk, 2);
        }
        while cur != h
            invariant
                self.valid(),
                hes == self.half_edges@,
                h < hes.len(),
                closes_after(hes, h, n),
                1 <= indices@.len() <= n,
                cur == walk(hes, h, indices@.len()),
                cur < hes.len(),
                forall|i: int|
                    0 <= i < indices.len() ==> #[trigger] indices[i] == hes[walk(
                        hes,
                        h,
                        i as nat,
                    ) as int].origin,
            decreases n - indices.len(),
        {
            indices.push(self.half_edges[cur as usize].origin);
            cur = self.half_edges[cur as usize].next;
        }
        assert(indices@.len() == n);
        indices
    }

    /// Bake back to an indexed mesh by walking each face's half-edge cycle.
    pub fn to_mesh(&self) -> (r: Mesh)
        requires
            self.valid(),
        ensures
            r@.vertices == self.positions@,
            r@.faces.len() == self.face_half.len(),
            forall|k: int|
                0 <= k < r@.faces.len() ==> closes_after(
                    self.half_edges@,
                    self.face_half[k],
                    (#[trigger] r@.faces[k]).len(),
                ),
            forall|k: int, i: int|
                0 <= k < r@.faces.len() && 0 <= i < r@.faces[k].len() ==> #[trigger] r@.faces[k][i]
                    == self.half_edges[walk(
                    self.half_edges@,
                    self.face_half[k],
                    i as nat,
                ) as int].origin,
    {
        let mut faces: Vec<Face> = Vec::new();
        let mut k: usize = 0;
        while k < self.face_half.len()
            invariant
                self.valid(),
                k <= self.face_half.len(),
                k == faces.len(),
                forall|a: int|
                    0 <= a < k ==> closes_after(
                        self.half_edges@,
                        self.face_half[a],
                        (#[trigger] faces[a])@.len(),
                    ),
                forall|a: int, i: int|
                    0 <= a < k && 0 <= i < faces[a]@.len() ==> #[trigger] faces[a]@[i]
                        == self.half_edges[walk(
                        self.half_edges@,
                        self.face_half[a],
                        i as nat,
                    ) as int].origin,
            decreases self.face_half.len() - k,
        {
            let indices = self.face_loop(self.face_half[k]);
            faces.push(Face { indices });
            k = k + 1;
        }
        Mesh { vertices: copy_points(&self.positions), faces }
    }

    /// Number of sides on the face bordered by half-edge `h`.
    pub fn face_len(&self, h: u32) -> (r: usize)
        requires
            self.valid(),
            h < self.half_edges.len(),
        ensures
            closes_after(self.half_edges@, h, r as nat),
    {
        let ghost hes = self.half_edges@;
        assert(comes_back(hes, h));
        let ghost n = face_length(hes, h);
        let mut count: usize = 1;
        let mut cur: u32 = self.half_edges[h as usize].next;
        proof {
            reveal_with_fuel(walk, 2);
        }
        while cur != h
            invariant
                self.valid(),
                hes == self.half_edges@,
                h < hes.len(),
                closes_after(hes, h, n),
                1 <= count <= n <= hes.len(),
                cur == walk(hes, h, count as nat),
                cur < hes.len(),
            decreases n - count,
        {
            cur = self.half_edges[cur as usize].next;
            count = count + 1;
        }
        count
    }

    /// The vertex a half-edge leads to.
    pub fn dest(&self, h: u32) -> (r: u32)
        requires
            self.valid(),
            h < self.half_edges.len(),
        ensures
            r == dest_of(self.half_edges@, h as int),
    {
        self.half_edges[self.half_edges[h as usize].next as usize].origin
    }

    /// The first half-edge that spans the undirected edge `(a, b)`, in either direction.
    pub fn find_half_edge(&self, a: u32, b: u32) -> (r: Option<u32>)
        requires
            self.valid(),
        ensures
            match r {
                Some(h) => h < self.half_edges.len() && edge_at(self.half_edges@, h) == edge_of(a, b)
                    && forall|i: u32| i < h ==> #[trigger] edge_at(self.half_edges@, i) != edge_of(a, b),
                None => forall|i: u32|
                    i < self.half_edges.len() ==> #[trigger] edge_at(self.half_edges@, i) != edge_of(a, b),
            },
    {
        let mut i: usize = 0;
        while i < self.half_edges.len()
            invariant
                self.valid(),
                i <= self.half_edges.len(),
                forall|j: u32| j < i ==> #[trigger] edge_at(self.half_edges@, j) != edge_of(a, b),
            decreases self.half_edges.len() - i,
        {
            let origin: u32 = self.half_edges[i].origin;
            let d: u32 = self.dest(i as u32);
            if (origin == a && d == b) || (origin == b && d == a) {
                return Some(i as u32);
            }
            i = i + 1;
        }
        None
    }

    /// The half-edge opposite `h` within a quad face, none if the face is no quad.
    fn quad_opposite(&self, h: u32) -> (r: Option<u32>)
        requires
            self.valid(),
            h < self.half_edges.len(),
        ensures
            r == if in_quad(self.half_edges@, h) {
                Some(walk(self.half_edges@, h, 2))
            } else {
                None
            },
            r matches Some(o) ==> o < self.half_edges.len(),
    {
        proof {
            reveal_with_fuel(walk, 5);
        }
        if self.face_len(h) != 4 {
            return None;
        }
        let next: u32 = self.half_edges[h as usize].next;
        Some(self.half_edges[next as usize].next)
    }

    /// From entry edge `h` across its quad and over the parallel edge into the next face.
    fn ring_step(&self, h: u32) -> (r: Option<u32>)
        requires
            self.valid(),
            h < self.half_edges.len(),
        ensures
            r == across(self.half_edges@, h),
            r matches Some(t) ==> t < self.half_edges.len(),
    {
        match self.quad_opposite(h) {
            Some(o) => self.half_edges[o as usize].twin,
            None => None,
        }
    }

    /// Straight on through the vertex that `h` leads to, where quads meet.
    fn loop_step(&self, h: u32) -> (r: Option<u32>)
        requires
            self.valid(),
            h < self.half_edges.len(),
        ensures
            r == ahead(self.half_edges@, h),
            r matches Some(t) ==> t < self.half_edges.len(),
    {
        let next: u32 = self.half_edges[h as usize].next;
        match self.half_edges[next as usize].twin {
            Some(twin) => {
                let cont: u32 = self.half_edges[twin as usize].next;
                if self.face_len(h) == 4 && self.face_len(cont) == 4 {
                    Some(cont)
                } else {
                    None
                }
            },
            None => None,
        }
    }

    /// The edges of the chain from `start`, across quads or along them.
    fn chain(&self, parallel: bool, start: u32) -> (r: Vec<(u32, u32)>)
        requires
            self.valid(),
            start < self.half_edges.len(),
        ensures
            parallel ==> edge_chain(
                self.half_edges@,
                crossing(self.half_edges@),
                start,
                r@,
            ),
            !parallel ==> edge_chain(
                self.half_edges@,
                straight_on(self.half_edges@),
                start,
                r@,
            ),
            r.len() <= self.half_edges.len(),
            forall|i: int|
                0 <= i < r.len() ==> spanned(self.half_edges@, #[trigger] r[i]),
    {
        let ghost hes = self.half_edges@;
        let ghost step = if parallel {
            crossing(hes)
        } else {
            straight_on(hes)
        };
        let mut edges: Vec<(u32, u32)> = Vec::new();
        let mut seen: HashSet<u64> = HashSet::new();
        let mut cur: Option<u32> = Some(start);
        let mut going: bool = true;
        while going
            invariant
                self.valid(),
                hes == self.half_edges@,
                start < hes.len(),
                step == if parallel {
                    crossing(hes)
                } else {
                    straight_on(hes)
                },
                cur == iterate(step, start, edges@.len()),
                cur matches Some(h) ==> h < hes.len(),
                edges@.len() == 0 ==> cur is Some && going,
                edges@.len() <= hes.len(),
                edges@.no_duplicates(),
                forall|i: nat|
                    i < edges.len() ==> (#[trigger] iterate(step, start, i)) is Some && iterate(
                        step,
                        start,
                        i,
                    )->0 < hes.len() && edges[i as int] == edge_at(hes, iterate(step, start, i)->0),
                forall|i: int|
                    0 <= i < edges.len() ==> seen@.contains(
                        #[trigger] pair_code(edges[i].0, edges[i].1),
                    ),
                forall|c: u64|
                    #[trigger] seen@.contains(c) ==> exists|i: int|
                        0 <= i < edges.len() && c == #[trigger] pair_code(edges[i].0, edges[i].1),
                !going ==> (cur matches Some(h) ==> edges@.contains(edge_at(hes, h))),
            decreases hes.len() - edges.len() + (if going { 1int } else { 0int }),
        {
            match cur {
                Some(h) => {
                    let key: (u32, u32) = undirected(
                        self.half_edges[h as usize].origin,
                        self.dest(h),
                    );
                    let ghost before = edges@;
                    if !seen.insert(code_of(key.0, key.1)) {
                        proof {
                            let i = choose|i: int|
                                0 <= i < edges.len() && pair_code(key.0, key.1)
                                    == #[trigger] pair_code(edges[i].0, edges[i].1);
                            lemma_pair_code(key.0, key.1, edges[i].0, edges[i].1);
                            assert(edges@[i] == key);
                        }
                        going = false;
                    } else {
                        proof {
                            assert forall|i: int| 0 <= i < before.len() implies #[trigger] before[i]
                                != key by {
                                lemma_pair_code(key.0, key.1, before[i].0, before[i].1);
                                assert(pair_code(before[i].0, before[i].1) != pair_code(
                                    key.0,
                                    key.1,
                                ));
                            }
                        }
                        edges.push(key);
                        proof {
                            assert forall|c: u64| #[trigger] seen@.contains(c) implies exists|
                                i: int,
                            |
                                0 <= i < edges.len() && c == #[trigger] pair_code(
                                    edges[i].0,
                                    edges[i].1,
                                ) by {
                                if c == pair_code(key.0, key.1) {
                                    assert(c == pair_code(
                                        edges[before.len() as int].0,
                                        edges[before.len() as int].1,
                                    ));
                                } else {
                                    let i = choose|i: int|
                                        0 <= i < before.len() && c == #[trigger] pair_code(
                                            before[i].0,
                                            before[i].1,
                                        );
                                    assert(c == pair_code(edges[i].0, edges[i].1));
                                }
                            }
                            lemma_chain_bounded(hes, step, start, edges@);
                        }
                        cur = if parallel {
                            self.ring_step(h)
                        } else {
                            self.loop_step(h)
                        };
                    }
                },
                None => {
                    going = false;
                },
            }
        }
        proof {
            assert forall|i: int| 0 <= i < edges.len() implies spanned(
                hes,
                #[trigger] edges[i],
            ) by {
                assert(iterate(step, start, i as nat) is Some);
                let h = iterate(step, start, i as nat)->0;
                assert(edges[i] == edge_at(hes, h));
            }
        }
        edges
    }

    /// The edge ring seeded at `start`: the chain of parallel edges across a strip of quads,
    /// until it closes or meets a boundary or another kind of face. The seed's own edge comes
    /// first.
    pub fn edge_ring(&self, start: u32) -> (r: Vec<(u32, u32)>)
        requires
            self.valid(),
            start < self.half_edges.len(),
        ensures
            edge_chain(self.half_edges@, crossing(self.half_edges@), start, r@),
            r.len() <= self.half_edges.len(),
            forall|i: int|
                0 <= i < r.len() ==> spanned(self.half_edges@, #[trigger] r[i]),
    {
        self.chain(true, start)
    }

    /// The edge loop seeded at `start`: the chain of edges that runs straight on through
    /// vertices where quads meet.
    pub fn edge_loop(&self, start: u32) -> (r: Vec<(u32, u32)>)
        requires
            self.valid(),
            start < self.half_edges.len(),
        ensures
            edge_chain(self.half_edges@, straight_on(self.half_edges@), start, r@),
            r.len() <= self.half_edges.len(),
            forall|i: int|
                0 <= i < r.len() ==> spanned(self.half_edges@, #[trigger] r[i]),
    {
        self.chain(false, start)
    }
}

impl HalfEdgeMesh {
    /// The fan of half-edges that leave vertex `v`, in rotational order from the first one
    /// in the list. None if no half-edge leaves `v`, or if the rotation does not come back
    /// to where it began.
    pub fn vertex_fan(&self, v: u32) -> (r: Option<Vec<u32>>)
        requires
            self.valid(),
        ensures
            match r {
                Some(fan) => fan@.len() > 0 && first_from(self.half_edges@, v, fan@[0])
                    && goes_around(self.half_edges@, fan@[0], fan@),
                None => forall|start: u32, fan: Seq<u32>|
                    first_from(self.half_edges@, v, start) ==> !(#[trigger] goes_around(
                        self.half_edges@,
                        start,
                        fan,
                    )),
            },
    {
        let ghost hes = self.half_edges@;
        let ghost step = rotation(hes);
        let mut first: usize = 0;
        while first < self.half_edges.len() && self.half_edges[first].origin != v
            invariant
                first <= self.half_edges.len(),
                forall|i: int| 0 <= i < first ==> (#[trigger] self.half_edges[i]).origin != v,
            decreases self.half_edges.len() - first,
        {
            first = first + 1;
        }
        if first == self.half_edges.len() {
            return None;
        }
        let start: u32 = first as u32;
        assert(first_from(hes, v, start));
        assert(forall|s: u32| first_from(hes, v, s) ==> s == start) by {
            assert forall|s: u32| first_from(hes, v, s) implies s == start by {
                assert(hes[s as int].origin == v);
                assert(hes[start as int].origin == v);
            }
        }
        let mut outs: Vec<u32> = Vec::new();
        outs.push(start);
        let mut h: u32 = start;
        loop
            invariant
                self.valid(),
                hes == self.half_edges@,
                step == (rotation(hes)),
                start < hes.len(),
                h < hes.len(),
                1 <= outs@.len() <= hes.len(),
                outs@[0] == start,
                iterate(step, start, (outs@.len() - 1) as nat) == Some(h),
                first_from(hes, v, start),
                forall|s: u32| first_from(hes, v, s) ==> s == start,
                forall|i: nat|
                    i < outs.len() ==> #[trigger] iterate(step, start, i) == Some(outs[i as int]),
                forall|i: nat|
                    0 < i < outs.len() ==> #[trigger] iterate(step, start, i) != Some(start),
            decreases hes.len() - outs.len(),
        {
            let prev: u32 = self.half_edges[h as usize].prev;
            match self.half_edges[prev as usize].twin {
                None => {
                    proof {
                        lemma_no_way_around(hes, start, outs@.len());
                    }
                    return None;
                },
                Some(twin) => {
                    assert(iterate(step, start, outs@.len()) == Some(twin));
                    if twin == start {
                        return Some(outs);
                    }
                    outs.push(twin);
                    h = twin;
                    if outs.len() > self.half_edges.len() {
                        proof {
                            assert forall|s: u32, fan: Seq<u32>| first_from(hes, v, s) implies !(
                            #[trigger] goes_around(hes, s, fan)) by {
                                if goes_around(hes, s, fan) {
                                    let n = fan.len();
                                    assert(iterate(step, start, n) == Some(start));
                                    assert(0 < n < outs.len());
                                }
                            }
                        }
                        return None;
                    }
                },
            }
        }
    }
}

/// A rotation that breaks off never comes back.
proof fn lemma_no_way_around(hes: Seq<HalfEdge>, start: u32, n: nat)
    requires
        iterate(rotation(hes), start, n) is None,
        forall|i: nat|
            0 < i < n ==> #[trigger] iterate(rotation(hes), start, i) != Some(start),
    ensures
        forall|fan: Seq<u32>| !(#[trigger] goes_around(hes, start, fan)),
{
    let step = rotation(hes);
    assert forall|fan: Seq<u32>| !(#[trigger] goes_around(hes, start, fan)) by {
        if goes_around(hes, start, fan) {
            assert(iterate(step, start, fan.len()) == Some(start));
            if fan.len() >= n {
                lemma_stays_none(step, start, n, fan.len());
            } else {
                assert(0 < fan.len() < n);
            }
        }
    }
}

/// A chain that ended goes no further.
proof fn lemma_stays_none(step: spec_fn(u32) -> Option<u32>, start: u32, n: nat, m: nat)
    requires
        n <= m,
        iterate(step, start, n) is None,
    ensures
        iterate(step, start, m) is None,
    decreases m,
{
    if n < m {
        lemma_stays_none(step, start, n, (m - 1) as nat);
    }
}

/// A list of faces that all bound polygons is a list of polygons.
proof fn lemma_all_polygons(faces: Seq<Seq<u32>>)
    requires
        forall|f: int| 0 <= f < faces.len() ==> (#[trigger] faces[f]).len() >= 3,
    ensures
        polygons(faces) == faces,
    decreases faces.len(),
{
    if faces.len() > 0 {
        let front = faces.drop_last();
        assert forall|f: int| 0 <= f < front.len() implies (#[trigger] front[f]).len() >= 3 by {
            assert(faces[f].len() >= 3);
        }
        lemma_all_polygons(front);
        assert(faces[faces.len() - 1].len() >= 3);
        assert(polygons(faces) =~= faces);
    }
}

/// Baking a half-edge structure that was made from a mesh gives the mesh back, without the
/// faces that bound no polygon: the vertices, and each polygon with its winding. A mesh of
/// polygons comes back as it was.
pub proof fn baking_restores_the_polygons(mesh: Mesh, he: HalfEdgeMesh, out: Mesh)
    requires
        he.valid(),
        he.positions@ == mesh@.vertices,
        he.built_from(polygons(mesh@.faces)),
        out@.vertices == he.positions@,
        out@.faces.len() == he.face_half.len(),
        forall|k: int|
            0 <= k < out@.faces.len() ==> closes_after(
                he.half_edges@,
                he.face_half[k],
                (#[trigger] out@.faces[k]).len(),
            ),
        forall|k: int, i: int|
            0 <= k < out@.faces.len() && 0 <= i < out@.faces[k].len()
                ==> #[trigger] out@.faces[k][i] == he.half_edges[walk(
                he.half_edges@,
                he.face_half[k],
                i as nat,
            ) as int].origin,
    ensures
        out@.vertices == mesh@.vertices,
        out@.faces == polygons(mesh@.faces),
        (forall|f: int| 0 <= f < mesh@.faces.len() ==> (#[trigger] mesh@.faces[f]).len() >= 3)
            ==> out@ == mesh@,
{
    if forall|f: int| 0 <= f < mesh@.faces.len() ==> (#[trigger] mesh@.faces[f]).len() >= 3 {
        lemma_all_polygons(mesh@.faces);
    }
    let polys = polygons(mesh@.faces);
    let hes = he.half_edges@;
    lemma_polygons_have_sides(mesh@.faces);
    assert forall|k: int| 0 <= k < polys.len() implies out@.faces[k] == #[trigger] polys[k] by {
        let m = polys[k].len();
        let start = he.face_half[k];
        lemma_side_inside(polys, k, 0);
        assert forall|i: nat| i < m implies #[trigger] walk(hes, start, i) == start + i by {
            lemma_walk_sides(hes, he.face_half@, polys, k, 0, i);
        }
        lemma_walk_sides(hes, he.face_half@, polys, k, 0, m);
        assert(closes_after(hes, start, m));
        let n = out@.faces[k].len();
        assert(closes_after(hes, start, n));
        if n < m {
            assert(walk(hes, start, n) == start + n);
        } else if m < n {
            assert(walk(hes, start, m) != start);
        }
        assert forall|i: int| 0 <= i < m implies out@.faces[k][i] == #[trigger] polys[k][i] by {
            assert(walk(hes, start, i as nat) == start + i);
            assert(is_side(hes[offset(polys, k) + i], polys, k, i));
        }
        assert(out@.faces[k] =~= polys[k]);
    }
    assert(out@.faces =~= polys);
}

/// Where no directed edge is walked twice, twins are mutual: the twin of a half-edge's twin
/// is the half-edge itself.
pub proof fn twins_are_mutual(hes: Seq<HalfEdge>, h: u32)
    requires
        h < hes.len() <= u32::MAX,
        forall|i: int| 0 <= i < hes.len() ==> #[trigger] twinned(hes, i),
        forall|i: int, j: int|
            0 <= i < hes.len() && 0 <= j < hes.len() && (#[trigger] hes[i]).origin == (
            #[trigger] hes[j]).origin && dest_of(hes, i) == dest_of(hes, j) ==> i == j,
    ensures
        hes[h as int].twin matches Some(t) ==> t < hes.len() && hes[t as int].twin == Some(h),
{
    assert(twinned(hes, h as int));
    if let Some(t) = hes[h as int].twin {
        assert(twinned(hes, t as int));
        assert(opposes(hes, t as int, h as int));
        match hes[t as int].twin {
            Some(u) => {
                assert(opposes(hes, t as int, u as int));
                assert(hes[u as int].origin == hes[h as int].origin);
            },
            None => {},
        }
    }
}

/// The edge of a listed side.
pub(crate) proof fn lemma_edge_of_side(
    hes: Seq<HalfEdge>,
    starts: Seq<u32>,
    polys: Seq<Seq<u32>>,
    k: int,
    j: int,
)
    requires
        lists_sides(hes, starts, polys),
        hes.len() <= u32::MAX,
        0 <= k < polys.len(),
        0 <= j < polys[k].len(),
    ensures
        0 <= offset(polys, k) + j < hes.len(),
        hes[offset(polys, k) + j].origin == polys[k][j],
        dest_of(hes, offset(polys, k) + j) == polys[k][succ(j, polys[k].len() as int)],
        edge_at(hes, (offset(polys, k) + j) as u32) == edge_of(
            polys[k][j],
            polys[k][succ(j, polys[k].len() as int)],
        ),
{
    let after = succ(j, polys[k].len() as int);
    lemma_side_inside(polys, k, j);
    lemma_side_inside(polys, k, after);
    assert(polys[k][j] == polys[k][j]);
    assert(is_side(hes[offset(polys, k) + j], polys, k, j));
    assert(polys[k][after] == polys[k][after]);
    assert(is_side(hes[offset(polys, k) + after], polys, k, after));
}

/// Crossing from half-edge to half-edge stays on them.
pub(crate) proof fn lemma_crossing_inside(hes: Seq<HalfEdge>, h: u32, n: nat)
    requires
        linked(hes),
        h < hes.len(),
    ensures
        iterate(crossing(hes), h, n) matches Some(g) ==> g < hes.len(),
    decreases n,
{
    if n > 0 {
        lemma_crossing_inside(hes, h, (n - 1) as nat);
        if let Some(g) = iterate(crossing(hes), h, (n - 1) as nat) {
            lemma_walk_inside(hes, g, 2);
        }
    }
}

/// An edge ring has no more edges than there are sides.
pub(crate) proof fn lemma_ring_inside(
    hes: Seq<HalfEdge>,
    starts: Seq<u32>,
    polys: Seq<Seq<u32>>,
    h: u32,
    ring: Seq<(u32, u32)>,
)
    requires
        lists_sides(hes, starts, polys),
        side_count(polys) <= u32::MAX,
        forall|i: int| 0 <= i < hes.len() ==> #[trigger] twinned(hes, i),
        h < hes.len(),
        edge_chain(hes, crossing(hes), h, ring),
    ensures
        ring.len() <= side_count(polys),
{
    assert forall|i: int| 0 <= i < hes.len() implies ((#[trigger] hes[i]).twin matches Some(t)
        ==> t < hes.len()) by {
        assert(twinned(hes, i));
    }
    lemma_sides_linked(hes, starts, polys);
    assert forall|i: nat| i < ring.len() implies (#[trigger] iterate(crossing(hes), h, i)) is Some
        && iterate(crossing(hes), h, i)->0 < hes.len() && ring[i as int] == edge_at(
        hes,
        iterate(crossing(hes), h, i)->0,
    ) by {
        lemma_crossing_inside(hes, h, i);
    }
    lemma_chain_bounded(hes, crossing(hes), h, ring);
}

/// There are no fewer than no sides.
pub(crate) proof fn lemma_side_count_positive(polys: Seq<Seq<u32>>)
    ensures
        side_count(polys) >= 0,
{
    lemma_offset_monotone(polys, 0, polys.len() as int);
}

} // verus!
