//! Edits of polygon meshes: extrude, inset, loop cut and bevels.
//!
//! Where an edit makes new vertices, the caller hands in the function that places them;
//! the edit decides which vertices are made from which, and how the faces change.
use crate::halfedge::{
    code_of, crossing, edge_at, edge_chain, edge_of, lemma_edge_of_side, lemma_pair_code,
    lists_sides, locate, offset, pair_code, polygons, side_count, spanned, twinned, undirected,
    HalfEdge, HalfEdgeMesh,
};
use crate::mesh::{
    copy_indices, copy_points, face_below, faces_below, lemma_loops_push, loops, made_from,
    outline, quad, succ, succ_of, Face, Mesh, MeshModel,
};
use crate::number::{Real, Vec3, ZERO_BITS};
use std::collections::HashMap;
use vstd::prelude::*;

verus! {

broadcast use vstd::std_specs::hash::group_hash_axioms;

/// The bit pattern of the smallest pull of a bevel, one hundredth.
pub const BEVEL_MIN: u32 = 0x3c23_d70a;

/// The bit pattern of the largest pull of a bevel, forty-nine hundredths.
pub const BEVEL_MAX: u32 = 0x3efa_e148;

/// The bit pattern of the largest inset, ninety-five hundredths.
pub const INSET_MAX: u32 = 0x3f73_3333;

/// The wall over side `k` of a face whose new loop starts at vertex `n`.
pub open spec fn wall(face: Seq<u32>, n: int, k: int) -> Seq<u32> {
    let after = succ(k, face.len() as int);
    seq![face[k], face[after], (n + after) as u32, (n + k) as u32]
}

/// Whether `after` is `before` with face `idx` lifted onto a new loop of vertices, each
/// `moved` from the vertex it copies, and a wall stitched over each of its sides.
pub open spec fn stitched(
    before: MeshModel,
    after: MeshModel,
    idx: int,
    moved: spec_fn(Vec3, Vec3) -> bool,
) -> bool {
    let face = before.faces[idx];
    let n = before.vertices.len() as int;
    let m = face.len();
    &&& after.vertices.len() == n + m
    &&& after.vertices.take(n) == before.vertices
    &&& forall|k: int|
        0 <= k < m ==> moved(
            before.vertices[#[trigger] face[k] as int],
            after.vertices[n + k],
        )
    &&& after.faces == before.faces.update(idx, Seq::new(m, |k: int| (n + k) as u32)) + Seq::new(
        m,
        |k: int| wall(face, n, k),
    )
}

/// Whether `after` is `before` with face `idx` lifted onto a new loop, where `place` puts each
/// vertex from its old position, what `about` makes of the outline of the face, and `t`.
pub open spec fn stitched_about<G: Fn(Vec<Vec3>) -> Vec3, F: Fn(Vec3, Vec3, Real) -> Vec3>(
    before: MeshModel,
    after: MeshModel,
    idx: int,
    t: Real,
    about: G,
    place: F,
) -> bool {
    exists|center: Vec3| #[trigger]
        made_from(about, outline(before.vertices, before.faces[idx]), center) && stitched(
            before,
            after,
            idx,
            |p: Vec3, q: Vec3| place.ensures((p, center, t), q),
        )
}

impl Mesh {
    /// Lift `face_idx` onto a new loop and stitch walls around it. `place` puts each vertex from
    /// its old position, what `about` makes of the outline of the face, and `t`.
    fn stitch_face<G: Fn(Vec<Vec3>) -> Vec3, F: Fn(Vec3, Vec3, Real) -> Vec3>(
        &mut self,
        face_idx: usize,
        t: Real,
        about: &G,
        place: &F,
    ) -> (r: bool)
        requires
            forall|points: Vec<Vec3>| about.requires((points,)),
            forall|p: Vec3, c: Vec3, t: Real| place.requires((p, c, t)),
            face_idx < old(self)@.faces.len() ==> face_below(
                old(self)@.faces[face_idx as int],
                old(self)@.vertices.len(),
            ) && old(self)@.vertices.len() + old(self)@.faces[face_idx as int].len() <= u32::MAX,
        ensures
            r == (face_idx < old(self)@.faces.len()),
            r ==> stitched_about(old(self)@, final(self)@, face_idx as int, t, *about, *place),
            !r ==> final(self)@ == old(self)@,
    {
        if face_idx >= self.faces.len() {
            return false;
        }
        let ghost before = self@;
        let face = copy_indices(&self.faces[face_idx].indices);
        let m: usize = face.len();
        let base: u32 = self.vertices.len() as u32;
        let center: Vec3 = self.make_from_face(&face, about);
        let mut new_loop: Vec<u32> = Vec::new();
        let mut k: usize = 0;
        while k < m
            invariant
                k <= m,
                m == face.len(),
                face@ == before.faces[face_idx as int],
                face_below(face@, before.vertices.len()),
                base == before.vertices.len(),
                base + m <= u32::MAX,
                forall|p: Vec3, c: Vec3, t: Real| place.requires((p, c, t)),
                self@.faces == before.faces,
                self.vertices.len() == base + k,
                self@.vertices.take(base as int) == before.vertices,
                new_loop@ == Seq::new(k as nat, |k: int| (base + k) as u32),
                forall|j: int|
                    0 <= j < k ==> place.ensures(
                        (before.vertices[#[trigger] face[j] as int], center, t),
                        self@.vertices[base + j],
                    ),
            decreases m - k,
        {
            let ghost now = self@.vertices;
            assert(self@.vertices.take(base as int)[face[k as int] as int]
                == before.vertices[face[k as int] as int]);
            let p: Vec3 = self.vertices[face[k] as usize];
            let np: Vec3 = place(p, center, t);
            new_loop.push(base + k as u32);
            self.vertices.push(np);
            proof {
                assert(self@.vertices.take(base as int) =~= now.take(base as int));
                assert(new_loop@ =~= Seq::new((k + 1) as nat, |k: int| (base + k) as u32));
            }
            k = k + 1;
        }
        let ghost points = self@.vertices;
        let mut k: usize = 0;
        assert(before.faces =~= before.faces + Seq::new(0, |k: int| wall(face@, base as int, k)));
        while k < m
            invariant
                k <= m,
                m == face.len(),
                new_loop@ == Seq::new(m as nat, |k: int| (base + k) as u32),
                base + m <= u32::MAX,
                self@.vertices == points,
                self@.faces == before.faces + Seq::new(
                    k as nat,
                    |k: int| wall(face@, base as int, k),
                ),
            decreases m - k,
        {
            let after: usize = succ_of(k, m);
            let side = quad(face[k], face[after], new_loop[after], new_loop[k]);
            proof {
                lemma_loops_push(self.faces@, side);
                assert(side@ =~= wall(face@, base as int, k as int));
                assert(Seq::new((k + 1) as nat, |k: int| wall(face@, base as int, k)) =~= Seq::new(
                    k as nat,
                    |k: int| wall(face@, base as int, k),
                ).push(side@));
            }
            self.faces.push(side);
            k = k + 1;
        }
        let ghost stitched_faces = self.faces@;
        let top = Face { indices: new_loop };
        self.faces.set(face_idx, top);
        proof {
            assert(loops(self.faces@) =~= loops(stitched_faces).update(face_idx as int, top@));
            assert(self@.faces =~= before.faces.update(face_idx as int, top@) + Seq::new(
                m as nat,
                |k: int| wall(face@, base as int, k),
            ));
            assert(stitched(
                before,
                self@,
                face_idx as int,
                |p: Vec3, q: Vec3| place.ensures((p, center, t), q),
            ));
        }
        true
    }

    /// Extrude `face_idx`: duplicate its loop, retarget the face to the new loop, and stitch a
    /// quad over each side. `raise` moves a vertex along what `normal` makes of the outline of
    /// the face by `dist`. False where there is no such face.
    pub fn extrude_face<N: Fn(Vec<Vec3>) -> Vec3, R: Fn(Vec3, Vec3, Real) -> Vec3>(
        &mut self,
        face_idx: usize,
        dist: Real,
        normal: &N,
        raise: &R,
    ) -> (r: bool)
        requires
            forall|points: Vec<Vec3>| normal.requires((points,)),
            forall|p: Vec3, n: Vec3, t: Real| raise.requires((p, n, t)),
            face_idx < old(self)@.faces.len() ==> face_below(
                old(self)@.faces[face_idx as int],
                old(self)@.vertices.len(),
            ) && old(self)@.vertices.len() + old(self)@.faces[face_idx as int].len() <= u32::MAX,
        ensures
            r == (face_idx < old(self)@.faces.len()),
            r ==> stitched_about(old(self)@, final(self)@, face_idx as int, dist, *normal, *raise),
            !r ==> final(self)@ == old(self)@,
    {
        self.stitch_face(face_idx, dist, normal, raise)
    }

    /// Inset `face_idx`: shrink a copy of its loop, connect the rim with a ring of quads, and
    /// retarget the face to the inner loop. `shrink` moves a vertex toward what `middle` makes
    /// of the outline of the face by the fraction it is given, which is `amount` held to
    /// 0 ..= 0.95. False where there is no such face.
    pub fn inset_face<C: Fn(Vec<Vec3>) -> Vec3, S: Fn(Vec3, Vec3, Real) -> Vec3>(
        &mut self,
        face_idx: usize,
        amount: Real,
        middle: &C,
        shrink: &S,
    ) -> (r: bool)
        requires
            forall|points: Vec<Vec3>| middle.requires((points,)),
            forall|p: Vec3, c: Vec3, t: Real| shrink.requires((p, c, t)),
            face_idx < old(self)@.faces.len() ==> face_below(
                old(self)@.faces[face_idx as int],
                old(self)@.vertices.len(),
            ) && old(self)@.vertices.len() + old(self)@.faces[face_idx as int].len() <= u32::MAX,
        ensures
            r == (face_idx < old(self)@.faces.len()),
            r ==> stitched_about(
                old(self)@,
                final(self)@,
                face_idx as int,
                inset_fraction(amount),
                *middle,
                *shrink,
            ),
            !r ==> final(self)@ == old(self)@,
    {
        let t: Real = amount.clamp(Real { bits: ZERO_BITS }, Real { bits: INSET_MAX });
        self.stitch_face(face_idx, t, middle, shrink)
    }
}

/// The fraction that an inset of `amount` shrinks by.
pub open spec fn inset_fraction(amount: Real) -> Real {
    amount.held(Real { bits: ZERO_BITS }, Real { bits: INSET_MAX })
}

/// The fraction that a bevel of `amount` pulls by.
pub open spec fn bevel_fraction(amount: Real) -> Real {
    amount.held(Real { bits: BEVEL_MIN }, Real { bits: BEVEL_MAX })
}

/// Extruding or insetting a face of a mesh whose faces name its own vertices gives such a
/// mesh again, with one face more for each side of the face.
pub proof fn stitching_keeps_range(
    before: MeshModel,
    after: MeshModel,
    idx: int,
    moved: spec_fn(Vec3, Vec3) -> bool,
)
    requires
        before.in_range(),
        0 <= idx < before.faces.len(),
        before.vertices.len() + before.faces[idx].len() <= u32::MAX,
        stitched(before, after, idx, moved),
    ensures
        after.in_range(),
        after.faces.len() == before.faces.len() + before.faces[idx].len(),
{
    let face = before.faces[idx];
    let n = before.vertices.len() as int;
    assert(face_below(face, before.vertices.len()));
    assert forall|f: int| 0 <= f < after.faces.len() implies #[trigger] face_below(
        after.faces[f],
        after.vertices.len(),
    ) by {
        if f < before.faces.len() {
            assert(face_below(before.faces[f], before.vertices.len()));
        } else {
            assert(after.faces[f] == wall(face, n, f - before.faces.len()));
        }
    }
}

/// Whether `hes` are the half-edges of these polygons.
pub open spec fn half_edges_of(hes: Seq<HalfEdge>, polys: Seq<Seq<u32>>) -> bool {
    &&& exists|starts: Seq<u32>| lists_sides(hes, starts, polys)
    &&& forall|h: int| 0 <= h < hes.len() ==> #[trigger] twinned(hes, h)
}

/// Whether `h` is the first half-edge that spans `(a, b)` in either direction.
pub open spec fn first_spanning(hes: Seq<HalfEdge>, a: u32, b: u32, h: u32) -> bool {
    &&& h < hes.len()
    &&& edge_at(hes, h) == edge_of(a, b)
    &&& forall|i: u32| i < h ==> #[trigger] edge_at(hes, i) != edge_of(a, b)
}

/// Whether some side of a polygon spans `(a, b)` in either direction.
pub open spec fn has_edge(polys: Seq<Seq<u32>>, a: u32, b: u32) -> bool {
    exists|k: int, j: int|
        #![trigger polys[k][j]]
        0 <= k < polys.len() && 0 <= j < polys[k].len() && edge_of(
            polys[k][j],
            polys[k][succ(j, polys[k].len() as int)],
        ) == edge_of(a, b)
}

/// Whether `ring` is the edge ring through the edge `(a, b)`.
pub open spec fn ring_through(
    polys: Seq<Seq<u32>>,
    a: u32,
    b: u32,
    ring: Seq<(u32, u32)>,
) -> bool {
    exists|hes: Seq<HalfEdge>, h: u32|
        half_edges_of(hes, polys) && first_spanning(hes, a, b, h) && #[trigger] edge_chain(
            hes,
            crossing(hes),
            h,
            ring,
        )
}

/// Whether side `k` of a face is on the ring.
pub open spec fn side_on(face: Seq<u32>, ring: Seq<(u32, u32)>, k: int) -> bool {
    ring.contains(edge_of(face[k], face[succ(k, face.len() as int)]))
}

/// Whether the ring crosses the quad `face` from side `p` to the opposite side: those two
/// sides are on the ring and the others are not.
pub open spec fn crossed_at(face: Seq<u32>, ring: Seq<(u32, u32)>, p: int) -> bool {
    &&& face.len() == 4
    &&& side_on(face, ring, p)
    &&& side_on(face, ring, p + 2)
    &&& !side_on(face, ring, 1 - p)
    &&& !side_on(face, ring, 3 - p)
}

/// The vertex in the middle of an edge of the ring, when middles start at vertex `n`.
pub open spec fn middle(ring: Seq<(u32, u32)>, n: int, a: u32, b: u32) -> u32 {
    (n + ring.index_of(edge_of(a, b))) as u32
}

/// The two quads that a quad crossed from side `p` falls into.
pub open spec fn halves(face: Seq<u32>, ring: Seq<(u32, u32)>, n: int, p: int) -> Seq<Seq<u32>> {
    let a = face[p];
    let b = face[p + 1];
    let c = face[p + 2];
    let d = face[succ(p + 2, 4)];
    let m0 = middle(ring, n, a, b);
    let m1 = middle(ring, n, c, d);
    seq![seq![a, m0, m1, d], seq![m0, b, c, m1]]
}

/// What a face becomes when the ring is cut: two quads if the ring crosses it, else itself.
pub open spec fn cut_face(face: Seq<u32>, ring: Seq<(u32, u32)>, n: int) -> Seq<Seq<u32>> {
    if crossed_at(face, ring, 0) {
        halves(face, ring, n, 0)
    } else if crossed_at(face, ring, 1) {
        halves(face, ring, n, 1)
    } else {
        seq![face]
    }
}

/// What a list of faces becomes when the ring is cut.
pub open spec fn cut_faces(faces: Seq<Seq<u32>>, ring: Seq<(u32, u32)>, n: int) -> Seq<Seq<u32>>
    decreases faces.len(),
{
    if faces.len() == 0 {
        Seq::empty()
    } else {
        cut_faces(faces.drop_last(), ring, n) + cut_face(faces.last(), ring, n)
    }
}

/// Whether the ring crosses some quad.
pub open spec fn crosses_any(faces: Seq<Seq<u32>>, ring: Seq<(u32, u32)>) -> bool {
    exists|f: int|
        0 <= f < faces.len() && (crossed_at(#[trigger] faces[f], ring, 0) || crossed_at(
            faces[f],
            ring,
            1,
        ))
}

/// Whether `after` is `before` cut along the ring: a vertex `between` the ends of each edge
/// of the ring, in the order of the ring, and every crossed quad in two.
pub open spec fn cut_along(
    before: MeshModel,
    after: MeshModel,
    ring: Seq<(u32, u32)>,
    between: spec_fn(Vec3, Vec3, Vec3) -> bool,
) -> bool {
    let n = before.vertices.len() as int;
    &&& after.vertices.len() == n + ring.len()
    &&& after.vertices.take(n) == before.vertices
    &&& forall|i: int|
        0 <= i < ring.len() ==> between(
            before.vertices[(#[trigger] ring[i]).0 as int],
            before.vertices[ring[i].1 as int],
            after.vertices[n + i],
        )
    &&& after.faces == cut_faces(before.faces, ring, n)
}

/// A side of the polygons of a mesh joins vertices that the mesh has.
pub(crate) proof fn lemma_polygons_below(faces: Seq<Seq<u32>>, n: nat)
    requires
        faces_below(faces, n),
    ensures
        faces_below(polygons(faces), n),
    decreases faces.len(),
{
    if faces.len() > 0 {
        assert(faces_below(faces.drop_last(), n)) by {
            assert forall|f: int| 0 <= f < faces.len() - 1 implies #[trigger] face_below(
                faces.drop_last()[f],
                n,
            ) by {
                assert(face_below(faces[f], n));
            }
        }
        lemma_polygons_below(faces.drop_last(), n);
        assert(face_below(faces[faces.len() - 1], n));
        let rest = polygons(faces.drop_last());
        assert forall|f: int| 0 <= f < polygons(faces).len() implies #[trigger] face_below(
            polygons(faces)[f],
            n,
        ) by {
            if f < rest.len() {
                assert(face_below(rest[f], n));
            }
        }
    }
}

/// Whether `map` numbers the edges of the ring from `n` on.
pub(crate) open spec fn numbers_ring(map: Map<u64, u32>, ring: Seq<(u32, u32)>, count: int, n: int) -> bool {
    &&& forall|i: int|
        0 <= i < count ==> map.contains_key(pair_code((#[trigger] ring[i]).0, ring[i].1))
            && map[pair_code(ring[i].0, ring[i].1)] == n + i
    &&& forall|c: u64| #[trigger]
        map.contains_key(c) ==> exists|i: int|
            0 <= i < count && c == pair_code((#[trigger] ring[i]).0, ring[i].1)
}

/// Looking an edge up finds its place in the ring.
proof fn lemma_numbers_ring(map: Map<u64, u32>, ring: Seq<(u32, u32)>, n: int, a: u32, b: u32)
    requires
        numbers_ring(map, ring, ring.len() as int, n),
        ring.no_duplicates(),
    ensures
        map.contains_key(pair_code(edge_of(a, b).0, edge_of(a, b).1)) == ring.contains(
            edge_of(a, b),
        ),
        ring.contains(edge_of(a, b)) ==> map[pair_code(edge_of(a, b).0, edge_of(a, b).1)] == n
            + ring.index_of(edge_of(a, b)),
{
    let e = edge_of(a, b);
    let c = pair_code(e.0, e.1);
    if ring.contains(e) {
        let i = ring.index_of(e);
        assert(ring[i] == e);
    }
    if map.contains_key(c) {
        let i = choose|i: int|
            0 <= i < ring.len() && c == pair_code((#[trigger] ring[i]).0, ring[i].1);
        lemma_pair_code(e.0, e.1, ring[i].0, ring[i].1);
        assert(ring[i] == e);
    }
}

/// The middle of a side of the ring, none if the side is not on it.
fn middle_of(
    map: &HashMap<u64, u32>,
    Ghost(ring): Ghost<Seq<(u32, u32)>>,
    Ghost(n): Ghost<int>,
    a: u32,
    b: u32,
) -> (r: Option<u32>)
    requires
        numbers_ring(map@, ring, ring.len() as int, n),
        ring.no_duplicates(),
        0 <= n,
        n + ring.len() <= u32::MAX,
    ensures
        r is Some == ring.contains(edge_of(a, b)),
        r matches Some(m) ==> m == middle(ring, n, a, b),
{
    let e: (u32, u32) = undirected(a, b);
    proof {
        lemma_numbers_ring(map@, ring, n, a, b);
    }
    match map.get(&code_of(e.0, e.1)) {
        Some(m) => Some(*m),
        None => None,
    }
}

/// The edges of the ring, numbered from `n` on.
fn number_ring(ring: &Vec<(u32, u32)>, n: u32) -> (r: HashMap<u64, u32>)
    requires
        ring@.no_duplicates(),
        n + ring.len() <= u32::MAX,
    ensures
        numbers_ring(r@, ring@, ring.len() as int, n as int),
{
    let mut map: HashMap<u64, u32> = HashMap::new();
    let mut i: usize = 0;
    while i < ring.len()
        invariant
            i <= ring.len(),
            ring@.no_duplicates(),
            n + ring.len() <= u32::MAX,
            numbers_ring(map@, ring@, i as int, n as int),
        decreases ring.len() - i,
    {
        let e: (u32, u32) = ring[i];
        let ghost before = map@;
        let code: u64 = code_of(e.0, e.1);
        map.insert(code, n + i as u32);
        proof {
            assert forall|j: int| 0 <= j < i + 1 implies map@.contains_key(
                pair_code((#[trigger] ring[j]).0, ring[j].1),
            ) && map@[pair_code(ring[j].0, ring[j].1)] == n + j by {
                lemma_pair_code(e.0, e.1, ring[j].0, ring[j].1);
                assert(j < i ==> ring@[j] != ring@[i as int]);
            }
            assert forall|c: u64| #[trigger] map@.contains_key(c) implies exists|j: int|
                0 <= j < i + 1 && c == pair_code((#[trigger] ring@[j]).0, ring@[j].1) by {
                if c == code {
                    assert(ring@[i as int] == e);
                } else {
                    assert(before.contains_key(c));
                    let j = choose|j: int|
                        0 <= j < i && c == pair_code((#[trigger] ring@[j]).0, ring@[j].1);
                    assert(ring@[j] == ring@[j]);
                }
            }
        }
        i = i + 1;
    }
    map
}

/// The two quads that a quad crossed from side `p` falls into.
fn push_halves(
    out: &mut Vec<Face>,
    face: &Vec<u32>,
    Ghost(ring): Ghost<Seq<(u32, u32)>>,
    Ghost(n): Ghost<int>,
    p: usize,
    m0: u32,
    m1: u32,
)
    requires
        face.len() == 4,
        p < 2,
        m0 == middle(ring, n, face[p as int], face[p + 1]),
        m1 == middle(ring, n, face[p + 2], face[succ(p + 2, 4)]),
    ensures
        loops(final(out)@) == loops(old(out)@) + halves(face@, ring, n, p as int),
{
    let a: u32 = face[p];
    let b: u32 = face[p + 1];
    let c: u32 = face[p + 2];
    let d: u32 = face[succ_of(p + 2, 4)];
    let first = quad(a, m0, m1, d);
    let second = quad(m0, b, c, m1);
    proof {
        lemma_loops_push(out@, first);
        lemma_loops_push(out@.push(first), second);
        assert(halves(face@, ring, n, p as int) =~= seq![first@, second@]);
        assert(loops(out@).push(first@).push(second@) =~= loops(out@) + halves(
            face@,
            ring,
            n,
            p as int,
        ));
    }
    out.push(first);
    out.push(second);
}

/// Append what a face becomes when the ring is cut. True if the ring crosses it.
fn push_cut(
    out: &mut Vec<Face>,
    face: &Face,
    map: &HashMap<u64, u32>,
    Ghost(ring): Ghost<Seq<(u32, u32)>>,
    Ghost(n): Ghost<int>,
) -> (r: bool)
    requires
        numbers_ring(map@, ring, ring.len() as int, n),
        ring.no_duplicates(),
        0 <= n,
        n + ring.len() <= u32::MAX,
    ensures
        loops(final(out)@) == loops(old(out)@) + cut_face(face@, ring, n),
        r == (crossed_at(face@, ring, 0) || crossed_at(face@, ring, 1)),
{
    let f = &face.indices;
    if f.len() == 4 {
        let s0: Option<u32> = middle_of(map, Ghost(ring), Ghost(n), f[0], f[1]);
        let s1: Option<u32> = middle_of(map, Ghost(ring), Ghost(n), f[1], f[2]);
        let s2: Option<u32> = middle_of(map, Ghost(ring), Ghost(n), f[2], f[3]);
        let s3: Option<u32> = middle_of(map, Ghost(ring), Ghost(n), f[3], f[0]);
        assert(s0 is Some == side_on(face@, ring, 0));
        assert(s1 is Some == side_on(face@, ring, 1));
        assert(s2 is Some == side_on(face@, ring, 2));
        assert(s3 is Some == side_on(face@, ring, 3));
        match (s0, s1, s2, s3) {
            (Some(m0), None, Some(m1), None) => {
                push_halves(out, f, Ghost(ring), Ghost(n), 0, m0, m1);
                return true;
            },
            (None, Some(m0), None, Some(m1)) => {
                push_halves(out, f, Ghost(ring), Ghost(n), 1, m0, m1);
                return true;
            },
            _ => {},
        }
    }
    let same = face.copy();
    proof {
        lemma_loops_push(out@, same);
        assert(loops(out@).push(same@) =~= loops(out@) + seq![face@]);
    }
    out.push(same);
    false
}

/// The half-edges of a mesh find an edge exactly if a polygon has it.
proof fn lemma_edges_found(hes: Seq<HalfEdge>, starts: Seq<u32>, polys: Seq<Seq<u32>>, a: u32, b: u32)
    requires
        lists_sides(hes, starts, polys),
        hes.len() <= u32::MAX,
    ensures
        has_edge(polys, a, b) == spanned(hes, edge_of(a, b)),
{
    if has_edge(polys, a, b) {
        let (k, j) = choose|k: int, j: int|
            #![trigger polys[k][j]]
            0 <= k < polys.len() && 0 <= j < polys[k].len() && edge_of(
                polys[k][j],
                polys[k][succ(j, polys[k].len() as int)],
            ) == edge_of(a, b);
        lemma_edge_of_side(hes, starts, polys, k, j);
        let h = (offset(polys, k) + j) as u32;
        assert(edge_at(hes, h) == edge_of(a, b));
    }
    if spanned(hes, edge_of(a, b)) {
        let h = choose|h: u32| h < hes.len() && edge_of(a, b) == #[trigger] edge_at(hes, h);
        let (k, j) = locate(polys, polys.len() as int, h as int);
        lemma_edge_of_side(hes, starts, polys, k, j);
        assert(polys[k][j] == polys[k][j]);
    }
}

impl Mesh {
    /// Loop cut: insert an edge loop that crosses the ring through edge `(a, b)`. Each edge of
    /// the ring gains a vertex placed by `midpoint`, and each quad that the ring crosses
    /// becomes two; other faces stay as they are. None if no polygon has the edge, or if the
    /// ring crosses no quad.
    pub fn loop_cut<F: Fn(Vec3, Vec3) -> Vec3>(&self, a: u32, b: u32, midpoint: F) -> (r: Option<
        Mesh,
    >)
        requires
            self@.in_range(),
            self@.vertices.len() + side_count(polygons(self@.faces)) <= u32::MAX,
            forall|p: Vec3, q: Vec3| midpoint.requires((p, q)),
        ensures
            r matches Some(out) ==> exists|ring: Seq<(u32, u32)>|
                #[trigger] ring_through(polygons(self@.faces), a, b, ring) && crosses_any(
                    self@.faces,
                    ring,
                ) && cut_along(
                    self@,
                    out@,
                    ring,
                    |p: Vec3, q: Vec3, m: Vec3| midpoint.ensures((p, q), m),
                ),
            r is None ==> !has_edge(polygons(self@.faces), a, b) || exists|ring: Seq<(u32, u32)>|
                #[trigger] ring_through(polygons(self@.faces), a, b, ring) && !crosses_any(
                    self@.faces,
                    ring,
                ),
    {
        let he = HalfEdgeMesh::from_mesh(self);
        let ghost hes = he.half_edges@;
        let ghost polys = polygons(self@.faces);
        proof {
            lemma_edges_found(hes, he.face_half@, polys, a, b);
        }
        let start: u32 = match he.find_half_edge(a, b) {
            Some(h) => h,
            None => {
                return None;
            },
        };
        assert(first_spanning(hes, a, b, start));
        let ring = he.edge_ring(start);
        assert(half_edges_of(hes, polys));
        assert(ring_through(polys, a, b, ring@));
        let n: u32 = self.vertices.len() as u32;
        let mid = number_ring(&ring, n);
        let mut vertices = copy_points(&self.vertices);
        let mut i: usize = 0;
        assert(vertices@.take(n as int) =~= self@.vertices);
        while i < ring.len()
            invariant
                i <= ring.len(),
                n == self@.vertices.len(),
                self@.in_range(),
                he.built_from(polys),
                hes == he.half_edges@,
                hes.len() <= u32::MAX,
                polys == polygons(self@.faces),
                forall|p: Vec3, q: Vec3| midpoint.requires((p, q)),
                forall|j: int|
                    0 <= j < ring.len() ==> spanned(hes, #[trigger] ring[j]),
                vertices.len() == n + i,
                vertices@.take(n as int) == self@.vertices,
                forall|j: int|
                    0 <= j < i ==> midpoint.ensures(
                        (
                            self@.vertices[(#[trigger] ring[j]).0 as int],
                            self@.vertices[ring[j].1 as int],
                        ),
                        vertices[n + j],
                    ),
            decreases ring.len() - i,
        {
            let e: (u32, u32) = ring[i];
            proof {
                assert(ring@[i as int] == e);
                let h = choose|h: u32| h < hes.len() && ring[i as int] == #[trigger] edge_at(hes, h);
                let (k, j) = locate(polys, polys.len() as int, h as int);
                lemma_edge_of_side(hes, he.face_half@, polys, k, j);
                lemma_polygons_below(self@.faces, self@.vertices.len());
                assert(face_below(polys[k], self@.vertices.len()));
                assert(polys[k][j] < n);
                assert(polys[k][succ(j, polys[k].len() as int)] < n);
            }
            let m: Vec3 = midpoint(self.vertices[e.0 as usize], self.vertices[e.1 as usize]);
            let ghost now = vertices@;
            vertices.push(m);
            assert(vertices@.take(n as int) =~= now.take(n as int));
            i = i + 1;
        }
        let mut split_any: bool = false;
        let mut faces: Vec<Face> = Vec::new();
        let mut f: usize = 0;
        assert(self@.faces.take(0) =~= Seq::empty());
        assert(loops(faces@) =~= Seq::empty());
        while f < self.faces.len()
            invariant
                f <= self.faces.len(),
                numbers_ring(mid@, ring@, ring.len() as int, n as int),
                ring@.no_duplicates(),
                n + ring.len() <= u32::MAX,
                loops(faces@) == cut_faces(self@.faces.take(f as int), ring@, n as int),
                split_any == crosses_any(self@.faces.take(f as int), ring@),
            decreases self.faces.len() - f,
        {
            let hit: bool = push_cut(&mut faces, &self.faces[f], &mid, Ghost(ring@), Ghost(n as int));
            proof {
                let upto = self@.faces.take(f as int);
                let more = self@.faces.take(f + 1);
                assert(more.drop_last() =~= upto);
                assert(more.last() == self.faces[f as int]@);
                assert(crosses_any(more, ring@) == (crosses_any(upto, ring@) || hit)) by {
                    assert forall|i: int| 0 <= i < f implies upto[i] == #[trigger] more[i] by {}
                    assert(more[f as int] == self.faces[f as int]@);
                    if crosses_any(upto, ring@) {
                        let i = choose|i: int|
                            0 <= i < upto.len() && (crossed_at(#[trigger] upto[i], ring@, 0)
                                || crossed_at(upto[i], ring@, 1));
                        assert(more[i] == upto[i]);
                    }
                }
            }
            if hit {
                split_any = true;
            }
            f = f + 1;
        }
        assert(self@.faces.take(f as int) =~= self@.faces);
        if !split_any {
            return None;
        }
        let out = Mesh { vertices, faces };
        assert(cut_along(
            self@,
            out@,
            ring@,
            |p: Vec3, q: Vec3, m: Vec3| midpoint.ensures((p, q), m),
        ));
        Some(out)
    }
}

} // verus!
