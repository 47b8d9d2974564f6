//! Bevels: cutting off a corner, and replacing an edge by a strip.
use crate::halfedge::{
    dest_of, first_from, goes_around, is_side, iterate, lemma_edge_of_side, lemma_offset_monotone,
    lemma_polygons_step, lemma_side_inside,
    lists_sides, locate, offset, opposes, polygons, rotation, side_count, twinned, HalfEdge,
    HalfEdgeMesh,
};
use crate::mesh::{
    copy_points, face_below, lemma_loops_push, loops, pred, pred_of, quad, succ, succ_of, Face,
    Mesh, MeshModel,
};
use crate::mesh_edit::{bevel_fraction, half_edges_of, lemma_polygons_below, BEVEL_MAX, BEVEL_MIN};
use crate::number::{Real, Vec3};
use std::collections::HashMap;
use vstd::prelude::*;

verus! {

broadcast use vstd::std_specs::hash::group_hash_axioms;

/// The first place of `v` in `s`, the length of `s` if it is not there.
pub open spec fn first_index(s: Seq<u32>, v: u32) -> int
    decreases s.len(),
{
    if s.len() == 0 {
        0
    } else {
        let before = first_index(s.drop_last(), v);
        if before < s.len() - 1 || s.last() == v {
            before
        } else {
            s.len() as int
        }
    }
}

/// The last place of `v` in `s`, -1 if it is not there.
pub open spec fn last_index(s: Seq<u32>, v: u32) -> int
    decreases s.len(),
{
    if s.len() == 0 {
        -1
    } else if s.last() == v {
        s.len() - 1
    } else {
        last_index(s.drop_last(), v)
    }
}

/// What the first place is.
pub(crate) proof fn lemma_first_index(s: Seq<u32>, v: u32)
    ensures
        0 <= first_index(s, v) <= s.len(),
        first_index(s, v) < s.len() ==> s[first_index(s, v)] == v,
        first_index(s, v) < s.len() <==> s.contains(v),
        forall|i: int| 0 <= i < first_index(s, v) ==> #[trigger] s[i] != v,
    decreases s.len(),
{
    if s.len() > 0 {
        lemma_first_index(s.drop_last(), v);
        let before = first_index(s.drop_last(), v);
        assert forall|i: int| 0 <= i < first_index(s, v) implies #[trigger] s[i] != v by {
            if i < before {
                assert(s.drop_last()[i] != v);
            }
        }
        if s.contains(v) && first_index(s, v) == s.len() {
            let i = choose|i: int| 0 <= i < s.len() && s[i] == v;
            assert(i < s.len() - 1);
            assert(s.drop_last()[i] == v);
        }
        if before < s.len() - 1 {
            assert(s[before] == s.drop_last()[before]);
        }
    }
}

/// What the last place is.
pub(crate) proof fn lemma_last_index(s: Seq<u32>, v: u32)
    ensures
        -1 <= last_index(s, v) < s.len(),
        last_index(s, v) >= 0 ==> s[last_index(s, v)] == v,
        last_index(s, v) >= 0 <==> s.contains(v),
    decreases s.len(),
{
    if s.len() > 0 {
        lemma_last_index(s.drop_last(), v);
        let before = last_index(s.drop_last(), v);
        if s.last() == v {
            assert(s[s.len() - 1] == v);
        } else {
            if before >= 0 {
                assert(s[before] == s.drop_last()[before]);
            }
            if s.contains(v) {
                let i = choose|i: int| 0 <= i < s.len() && s[i] == v;
                assert(s.drop_last()[i] == v);
            }
        }
    }
}

/// The vertices at the far ends of a fan.
pub open spec fn spokes(hes: Seq<HalfEdge>, fan: Seq<u32>) -> Seq<u32> {
    Seq::new(fan.len(), |i: int| dest_of(hes, fan[i] as int))
}

/// Whether `fan` is the closed fan of at least three half-edges around `v`.
pub open spec fn corner_fan(
    polys: Seq<Seq<u32>>,
    v: u32,
    hes: Seq<HalfEdge>,
    fan: Seq<u32>,
) -> bool {
    &&& half_edges_of(hes, polys)
    &&& fan.len() >= 3
    &&& first_from(hes, v, fan[0])
    &&& goes_around(hes, fan[0], fan)
}

/// Whether every face at `v` has its two neighbours of `v` among the spokes.
pub open spec fn spokes_reach(faces: Seq<Seq<u32>>, v: u32, ends: Seq<u32>) -> bool {
    forall|f: int|
        #![trigger faces[f]]
        0 <= f < faces.len() && faces[f].contains(v) ==> {
            let m = faces[f].len() as int;
            let at = first_index(faces[f], v);
            ends.contains(faces[f][pred(at, m)]) && ends.contains(faces[f][succ(at, m)])
        }
}

/// Whether the faces at corner `v` are those of its fan, where it has one.
pub open spec fn corner_closed(mesh: MeshModel, v: u32) -> bool {
    forall|hes: Seq<HalfEdge>, fan: Seq<u32>| #[trigger]
        corner_fan(polygons(mesh.faces), v, hes, fan) ==> spokes_reach(
            mesh.faces,
            v,
            spokes(hes, fan),
        )
}

/// The index of a vertex after vertex `v` was taken out.
pub open spec fn closed_up(i: u32, v: u32) -> u32 {
    if i > v { (i - 1) as u32 } else { i }
}

/// A face after vertex `v` was taken out.
pub open spec fn face_closed_up(face: Seq<u32>, v: u32) -> Seq<u32> {
    Seq::new(face.len(), |k: int| closed_up(face[k], v))
}

/// The new vertex on the spoke to `d`, when new vertices start at `n`.
pub open spec fn on_spoke(ends: Seq<u32>, n: int, d: u32) -> u32 {
    (n + last_index(ends, d)) as u32
}

/// A face with its corner `v` replaced by the new vertices on the edges that meet there.
pub open spec fn face_cornered(face: Seq<u32>, v: u32, ends: Seq<u32>, n: int) -> Seq<u32> {
    let at = first_index(face, v);
    let m = face.len() as int;
    if at < m {
        face.take(at) + seq![
            on_spoke(ends, n, face[pred(at, m)]),
            on_spoke(ends, n, face[succ(at, m)]),
        ] + face.skip(at + 1)
    } else {
        face
    }
}

/// The face that closes the opening: the new vertices against the order of the fan.
pub open spec fn cap_face(ends: Seq<u32>, n: int) -> Seq<u32> {
    Seq::new(ends.len(), |i: int| on_spoke(ends, n, ends[ends.len() - 1 - i]))
}

/// Whether `after` is `before` with corner `v` cut off: a vertex pulled toward the end of
/// each spoke, each face at the corner cut there, a cap over the opening, and `v` taken out.
pub open spec fn corner_cut(
    before: MeshModel,
    after: MeshModel,
    v: u32,
    ends: Seq<u32>,
    pulled: spec_fn(Vec3, Vec3, Vec3) -> bool,
) -> bool {
    let n = before.vertices.len() as int;
    &&& exists|points: Seq<Vec3>|
        {
            &&& points.len() == ends.len()
            &&& forall|i: int|
                0 <= i < ends.len() ==> pulled(
                    before.vertices[v as int],
                    before.vertices[ends[i] as int],
                    #[trigger] points[i],
                )
            &&& after.vertices == #[trigger] (before.vertices + points).remove(v as int)
        }
    &&& after.faces == Seq::new(
        before.faces.len(),
        |f: int| face_closed_up(face_cornered(before.faces[f], v, ends, n), v),
    ).push(face_closed_up(cap_face(ends, n), v))
}

/// Two lists of half-edges of the same polygons are equal.
proof fn lemma_half_edges_unique(a: Seq<HalfEdge>, b: Seq<HalfEdge>, polys: Seq<Seq<u32>>)
    requires
        half_edges_of(a, polys),
        half_edges_of(b, polys),
        a.len() <= u32::MAX,
    ensures
        a == b,
{
    let sa = choose|s: Seq<u32>| lists_sides(a, s, polys);
    let sb = choose|s: Seq<u32>| lists_sides(b, s, polys);
    assert forall|h: int| 0 <= h < a.len() implies (#[trigger] a[h]).origin == b[h].origin
        && a[h].next == b[h].next && a[h].prev == b[h].prev && a[h].face == b[h].face
        && a[h].next < a.len() by {
        let (k, j) = locate(polys, polys.len() as int, h);
        assert(polys[k][j] == polys[k][j]);
        assert(is_side(a[offset(polys, k) + j], polys, k, j));
        assert(is_side(b[offset(polys, k) + j], polys, k, j));
        lemma_side_inside(polys, k, succ(j, polys[k].len() as int));
    }
    assert forall|h: int| 0 <= h < a.len() implies #[trigger] a[h] == b[h] by {
        assert(twinned(a, h));
        assert(twinned(b, h));
        assert forall|u: int| 0 <= u < a.len() implies #[trigger] opposes(a, h, u) == opposes(
            b,
            h,
            u,
        ) by {
            assert(a[h].next < a.len());
            assert(a[u].next < a.len());
            assert(a[a[h].next as int].origin == b[a[h].next as int].origin);
            assert(a[a[u].next as int].origin == b[a[u].next as int].origin);
        }
        assert forall|u: int| 0 <= u < a.len() implies opposes(a, h, u) == #[trigger] opposes(
            b,
            h,
            u,
        ) by {}
        match (a[h].twin, b[h].twin) {
            (Some(t), Some(u)) => {
                assert(opposes(a, h, t as int));
                assert(opposes(b, h, u as int));
            },
            (Some(t), None) => {
                assert(opposes(a, h, t as int));
            },
            (None, Some(u)) => {
                assert(opposes(b, h, u as int));
            },
            (None, None) => {},
        }
    }
    assert(a =~= b);
}

/// Two fans around the same corner are equal.
proof fn lemma_fan_unique(hes: Seq<HalfEdge>, v: u32, a: Seq<u32>, b: Seq<u32>)
    requires
        a.len() > 0,
        b.len() > 0,
        first_from(hes, v, a[0]),
        first_from(hes, v, b[0]),
        goes_around(hes, a[0], a),
        goes_around(hes, b[0], b),
    ensures
        a == b,
{
    assert(hes[a[0] as int].origin == v && hes[b[0] as int].origin == v);
    assert(a[0] == b[0]);
    let step = rotation(hes);
    assert(iterate(step, a[0], a.len()) == Some(a[0]));
    assert(iterate(step, a[0], b.len()) == Some(a[0]));
    assert(a.len() == b.len());
    assert forall|i: int| 0 <= i < a.len() implies a[i] == b[i] by {
        assert(iterate(step, a[0], i as nat) == Some(a[i]));
        assert(iterate(step, a[0], i as nat) == Some(b[i]));
    }
    assert(a =~= b);
}

/// Whether `map` finds the new vertex on the spoke to each of the first `count` ends.
spec fn finds_spokes(map: Map<u32, u32>, ends: Seq<u32>, n: int) -> bool {
    forall|d: u32| #![trigger map.contains_key(d)]
        (map.contains_key(d) <==> ends.contains(d)) && (map.contains_key(d) ==> map[d] == n
            + last_index(ends, d))
}

/// A face with its corner `v` cut, and `v` taken out.
fn cut_corner(
    face: &Vec<u32>,
    v: u32,
    map: &HashMap<u32, u32>,
    Ghost(ends): Ghost<Seq<u32>>,
    Ghost(n): Ghost<int>,
) -> (r: Face)
    requires
        finds_spokes(map@, ends, n),
        0 <= n,
        n + ends.len() <= u32::MAX,
        face@.contains(v) ==> ends.contains(face@[pred(first_index(face@, v), face.len() as int)])
            && ends.contains(face@[succ(first_index(face@, v), face.len() as int)]),
    ensures
        r@ == face_closed_up(face_cornered(face@, v, ends, n), v),
{
    let m: usize = face.len();
    let mut at: usize = 0;
    proof {
        lemma_first_index(face@, v);
    }
    while at < m && face[at] != v
        invariant
            at <= m,
            m == face.len(),
            forall|i: int| 0 <= i < at ==> #[trigger] face[i] != v,
        decreases m - at,
    {
        at = at + 1;
    }
    let ghost place = first_index(face@, v);
    assert(at == place) by {
        if place < at {
            assert(face@[place] == v);
        }
        if at < place {
            assert(face@[at as int] != v);
        }
    }
    let mut out: Vec<u32> = Vec::new();
    let ghost whole = face_cornered(face@, v, ends, n);
    let mut k: usize = 0;
    while k < m
        invariant
            k <= m,
            m == face.len(),
            at == place,
            place == first_index(face@, v),
            whole == face_cornered(face@, v, ends, n),
            finds_spokes(map@, ends, n),
            0 <= n,
            n + ends.len() <= u32::MAX,
            at < m ==> ends.contains(face@[pred(at as int, m as int)]) && ends.contains(
                face@[succ(at as int, m as int)],
            ),
            out@.len() == k + (if at < k { 1int } else { 0int }),
            out@ == face_closed_up(whole.take(out@.len() as int), v),
            whole.len() == m + (if at < m { 1int } else { 0int }),
        decreases m - k,
    {
        if k == at {
            let before: u32 = face[pred_of(at, m)];
            let after: u32 = face[succ_of(at, m)];
            proof {
                lemma_last_index(ends, before);
                lemma_last_index(ends, after);
                assert(map@.contains_key(before));
                assert(map@.contains_key(after));
            }
            let b: u32 = *map.get(&before).unwrap();
            let a: u32 = *map.get(&after).unwrap();
            assert(b == whole[at as int]);
            assert(a == whole[at + 1]);
            out.push(if b > v { b - 1 } else { b });
            out.push(if a > v { a - 1 } else { a });
        } else {
            let i: u32 = face[k];
            assert(i == whole[out@.len() as int]);
            out.push(if i > v { i - 1 } else { i });
        }
        assert(out@ =~= face_closed_up(whole.take(out@.len() as int), v));
        k = k + 1;
    }
    assert(whole.take(out@.len() as int) =~= whole);
    Face { indices: out }
}

/// The ends of the spokes of a fan.
fn spoke_ends(he: &HalfEdgeMesh, fan: &Vec<u32>) -> (r: Vec<u32>)
    requires
        he.valid(),
        forall|i: int| 0 <= i < fan.len() ==> #[trigger] fan[i] < he.half_edges.len(),
    ensures
        r@ == spokes(he.half_edges@, fan@),
{
    let mut ends: Vec<u32> = Vec::new();
    let mut i: usize = 0;
    while i < fan.len()
        invariant
            he.valid(),
            forall|i: int| 0 <= i < fan.len() ==> #[trigger] fan[i] < he.half_edges.len(),
            i <= fan.len(),
            ends@ == spokes(he.half_edges@, fan@).take(i as int),
        decreases fan.len() - i,
    {
        ends.push(he.dest(fan[i]));
        assert(ends@ =~= spokes(he.half_edges@, fan@).take(i + 1));
        i = i + 1;
    }
    assert(spokes(he.half_edges@, fan@).take(i as int) =~= spokes(he.half_edges@, fan@));
    ends
}

/// The new vertices on the spokes, numbered from `n` on.
fn number_spokes(ends: &Vec<u32>, n: u32) -> (r: HashMap<u32, u32>)
    requires
        n + ends.len() <= u32::MAX,
    ensures
        finds_spokes(r@, ends@, n as int),
{
    let mut map: HashMap<u32, u32> = HashMap::new();
    let mut i: usize = 0;
    assert(ends@.take(0) =~= Seq::empty());
    while i < ends.len()
        invariant
            i <= ends.len(),
            n + ends.len() <= u32::MAX,
            finds_spokes(map@, ends@.take(i as int), n as int),
        decreases ends.len() - i,
    {
        let ghost before = map@;
        map.insert(ends[i], n + i as u32);
        proof {
            let less = ends@.take(i as int);
            let more = ends@.take(i + 1);
            assert(more.drop_last() =~= less);
            assert forall|d: u32|
                #![trigger map@.contains_key(d)]
                (map@.contains_key(d) <==> more.contains(d)) && (map@.contains_key(d) ==> map@[d]
                    == n + last_index(more, d)) by {
                assert(before.contains_key(d) <==> less.contains(d));
                lemma_last_index(more, d);
                lemma_last_index(less, d);
            }
        }
        i = i + 1;
    }
    assert(ends@.take(i as int) =~= ends@);
    map
}

/// The half-edges of a fan are half-edges of the mesh.
proof fn lemma_fan_inside(he: HalfEdgeMesh, fan: Seq<u32>)
    requires
        he.valid(),
        fan.len() > 0,
        fan[0] < he.half_edges.len(),
        goes_around(he.half_edges@, fan[0], fan),
    ensures
        forall|i: int| 0 <= i < fan.len() ==> #[trigger] fan[i] < he.half_edges.len(),
{
    assert forall|i: int| 0 <= i < fan.len() implies #[trigger] fan[i] < he.half_edges.len() by {
        lemma_fan_step_inside(he, fan, i as nat);
    }
}

proof fn lemma_fan_step_inside(he: HalfEdgeMesh, fan: Seq<u32>, i: nat)
    requires
        he.valid(),
        i < fan.len(),
        fan[0] < he.half_edges.len(),
        goes_around(he.half_edges@, fan[0], fan),
    ensures
        fan[i as int] < he.half_edges.len(),
    decreases i,
{
    let step = rotation(he.half_edges@);
    if i > 0 {
        lemma_fan_step_inside(he, fan, (i - 1) as nat);
        assert(iterate(step, fan[0], i) == Some(fan[i as int]));
        assert(iterate(step, fan[0], (i - 1) as nat) == Some(fan[i - 1]));
        let h = he.half_edges@[fan[i - 1] as int];
        assert(h.prev < he.half_edges.len());
        assert(he.half_edges@[h.prev as int].twin == Some(fan[i as int]));
    }
}

/// Whether `list` holds `d`.
fn holds(list: &Vec<u32>, d: u32) -> (r: bool)
    ensures
        r == list@.contains(d),
{
    let mut i: usize = 0;
    while i < list.len()
        invariant
            i <= list.len(),
            forall|j: int| 0 <= j < i ==> #[trigger] list[j] != d,
        decreases list.len() - i,
    {
        if list[i] == d {
            assert(list@[i as int] == d);
            return true;
        }
        i = i + 1;
    }
    false
}

impl Mesh {
    /// The closed fan of corner `v` in the half-edges of the mesh, and the ends of its
    /// spokes. None if the fan is open or has fewer than three spokes.
    fn corner_spokes(&self, v: u32) -> (r: Option<Vec<u32>>)
        requires
            side_count(polygons(self@.faces)) <= u32::MAX,
        ensures
            match r {
                Some(ends) => exists|hes: Seq<HalfEdge>, fan: Seq<u32>|
                    #[trigger] corner_fan(polygons(self@.faces), v, hes, fan) && ends@ == spokes(
                        hes,
                        fan,
                    ) && hes.len() == side_count(polygons(self@.faces)),
                None => forall|hes: Seq<HalfEdge>, fan: Seq<u32>|
                    !(#[trigger] corner_fan(polygons(self@.faces), v, hes, fan)),
            },
            self@.in_range() && r is Some ==> v < self@.vertices.len() && face_below(
                r->0@,
                self@.vertices.len(),
            ),
            r matches Some(ends) ==> 3 <= ends.len() <= side_count(polygons(self@.faces)),
    {
        let he = HalfEdgeMesh::from_mesh(self);
        let ghost hes = he.half_edges@;
        let ghost polys = polygons(self@.faces);
        assert(half_edges_of(hes, polys));
        let fan = match he.vertex_fan(v) {
            Some(fan) => fan,
            None => {
                proof {
                    assert forall|other: Seq<HalfEdge>, f: Seq<u32>| !(#[trigger] corner_fan(
                        polys,
                        v,
                        other,
                        f,
                    )) by {
                        if corner_fan(polys, v, other, f) {
                            lemma_half_edges_unique(hes, other, polys);
                            assert(!goes_around(hes, f[0], f));
                        }
                    }
                }
                return None;
            },
        };
        if fan.len() < 3 {
            proof {
                assert forall|other: Seq<HalfEdge>, f: Seq<u32>| !(#[trigger] corner_fan(
                    polys,
                    v,
                    other,
                    f,
                )) by {
                    if corner_fan(polys, v, other, f) {
                        lemma_half_edges_unique(hes, other, polys);
                        lemma_fan_unique(hes, v, fan@, f);
                    }
                }
            }
            return None;
        }
        proof {
            lemma_fan_inside(he, fan@);
        }
        let ends = spoke_ends(&he, &fan);
        proof {
            assert(corner_fan(polys, v, hes, fan@));
            if self@.in_range() {
                lemma_polygons_below(self@.faces, self@.vertices.len());
                assert forall|i: int| 0 <= i < ends.len() implies #[trigger] ends[i]
                    < self@.vertices.len() by {
                    let (k, j) = locate(polys, polys.len() as int, fan[i] as int);
                    lemma_edge_of_side(hes, he.face_half@, polys, k, j);
                    assert(face_below(polys[k], self@.vertices.len()));
                    assert(ends[i] == polys[k][succ(j, polys[k].len() as int)]);
                }
                let (k, j) = locate(polys, polys.len() as int, fan[0] as int);
                lemma_edge_of_side(hes, he.face_half@, polys, k, j);
                assert(face_below(polys[k], self@.vertices.len()));
                assert(polys[k][j] == v);
            }
        }
        Some(ends)
    }

    /// Whether the faces at corner `v` are those of its fan.
    pub fn is_corner_closed(&self, v: u32) -> (r: bool)
        requires
            side_count(polygons(self@.faces)) <= u32::MAX,
        ensures
            r == corner_closed(self@, v),
    {
        let ends = match self.corner_spokes(v) {
            Some(ends) => ends,
            None => {
                return true;
            },
        };
        let ghost polys = polygons(self@.faces);
        let ghost (hes, fan) = choose|hes: Seq<HalfEdge>, fan: Seq<u32>|
            #[trigger] corner_fan(polys, v, hes, fan) && ends@ == spokes(hes, fan) && hes.len()
                == side_count(polys);
        let mut f: usize = 0;
        while f < self.faces.len()
            invariant
                f <= self.faces.len(),
                polys == polygons(self@.faces),
                corner_fan(polys, v, hes, fan),
                ends@ == spokes(hes, fan),
                spokes_reach(self@.faces.take(f as int), v, ends@),
            decreases self.faces.len() - f,
        {
            let face = &self.faces[f].indices;
            let m: usize = face.len();
            let mut at: usize = 0;
            while at < m && face[at] != v
                invariant
                    at <= m,
                    m == face.len(),
                    forall|i: int| 0 <= i < at ==> #[trigger] face[i] != v,
                decreases m - at,
            {
                at = at + 1;
            }
            proof {
                lemma_first_index(face@, v);
                assert(self@.faces[f as int] == face@);
                let place = first_index(face@, v);
                if place < at {
                    assert(face@[place] == v);
                }
                if at < place {
                    assert(face@[at as int] != v);
                }
            }
            if at < m && !(holds(&ends, face[pred_of(at, m)]) && holds(&ends, face[succ_of(at, m)])) {
                assert(!spokes_reach(self@.faces, v, ends@));
                return false;
            }
            proof {
                let more = self@.faces.take(f + 1);
                assert forall|g: int|
                    #![trigger more[g]]
                    0 <= g < more.len() && more[g].contains(v) implies {
                    let m = more[g].len() as int;
                    let at = first_index(more[g], v);
                    ends@.contains(more[g][pred(at, m)]) && ends@.contains(more[g][succ(at, m)])
                } by {
                    if g < f {
                        assert(self@.faces.take(f as int)[g] == more[g]);
                    }
                }
            }
            f = f + 1;
        }
        proof {
            assert(self@.faces.take(f as int) =~= self@.faces);
            assert forall|other: Seq<HalfEdge>, of: Seq<u32>| #[trigger]
                corner_fan(polys, v, other, of) implies spokes_reach(
                self@.faces,
                v,
                spokes(other, of),
            ) by {
                lemma_half_edges_unique(hes, other, polys);
                lemma_fan_unique(hes, v, fan, of);
            }
        }
        true
    }

    /// Bevel a corner: replace vertex `v` by a flat cap. Each edge that meets `v` gains a
    /// vertex, placed by `pull` from `v` toward the other end by the fraction it is given,
    /// which is `amount` held to 0.01 ..= 0.49. Every face at `v` takes the two new vertices on
    /// its edges there, a cap closes the opening, and `v` is taken out. None if the fan around
    /// `v` is open or has fewer than three edges.
    pub fn bevel_vertex<F: Fn(Vec3, Vec3, Real) -> Vec3>(&self, v: u32, amount: Real, pull: F) -> (r:
        Option<Mesh>)
        requires
            self@.in_range(),
            self@.vertices.len() + side_count(polygons(self@.faces)) <= u32::MAX,
            corner_closed(self@, v),
            forall|p: Vec3, q: Vec3, t: Real| pull.requires((p, q, t)),
        ensures
            match r {
                Some(out) => exists|hes: Seq<HalfEdge>, fan: Seq<u32>|
                    #[trigger] corner_fan(polygons(self@.faces), v, hes, fan) && corner_cut(
                        self@,
                        out@,
                        v,
                        spokes(hes, fan),
                        |p: Vec3, q: Vec3, n: Vec3| pull.ensures((p, q, bevel_fraction(amount)), n),
                    ),
                None => forall|hes: Seq<HalfEdge>, fan: Seq<u32>|
                    !(#[trigger] corner_fan(polygons(self@.faces), v, hes, fan)),
            },
    {
        let ends = match self.corner_spokes(v) {
            Some(ends) => ends,
            None => {
                return None;
            },
        };
        let ghost polys = polygons(self@.faces);
        let ghost (hes, fan) = choose|hes: Seq<HalfEdge>, fan: Seq<u32>|
            #[trigger] corner_fan(polys, v, hes, fan) && ends@ == spokes(hes, fan) && hes.len()
                == side_count(polys);
        assert(spokes_reach(self@.faces, v, ends@));
        let t: Real = amount.clamp(Real { bits: BEVEL_MIN }, Real { bits: BEVEL_MAX });
        let n: u32 = self.vertices.len() as u32;
        let map = number_spokes(&ends, n);
        let mut vertices = copy_points(&self.vertices);
        let ghost mut points: Seq<Vec3> = Seq::empty();
        let corner: Vec3 = self.vertices[v as usize];
        let mut i: usize = 0;
        assert(vertices@ =~= self@.vertices + points);
        while i < ends.len()
            invariant
                i <= ends.len(),
                n == self@.vertices.len(),
                face_below(ends@, self@.vertices.len()),
                v < n,
                corner == self@.vertices[v as int],
                forall|p: Vec3, q: Vec3, t: Real| pull.requires((p, q, t)),
                points.len() == i,
                vertices@ == self@.vertices + points,
                forall|j: int|
                    0 <= j < i ==> pull.ensures(
                        (corner, self@.vertices[ends[j] as int], t),
                        #[trigger] points[j],
                    ),
            decreases ends.len() - i,
        {
            assert(ends@[i as int] < self@.vertices.len());
            let np: Vec3 = pull(corner, self.vertices[ends[i] as usize], t);
            vertices.push(np);
            proof {
                points = points.push(np);
                assert(vertices@ =~= self@.vertices + points);
            }
            i = i + 1;
        }
        let mut faces: Vec<Face> = Vec::new();
        let ghost want = Seq::new(
            self@.faces.len(),
            |f: int| face_closed_up(face_cornered(self@.faces[f], v, ends@, n as int), v),
        );
        let mut f: usize = 0;
        assert(loops(faces@) =~= want.take(0));
        while f < self.faces.len()
            invariant
                f <= self.faces.len(),
                n + ends.len() <= u32::MAX,
                finds_spokes(map@, ends@, n as int),
                spokes_reach(self@.faces, v, ends@),
                want == Seq::new(
                    self@.faces.len(),
                    |f: int| face_closed_up(face_cornered(self@.faces[f], v, ends@, n as int), v),
                ),
                loops(faces@) == want.take(f as int),
            decreases self.faces.len() - f,
        {
            assert(self@.faces[f as int] == self.faces[f as int]@);
            let face = cut_corner(&self.faces[f].indices, v, &map, Ghost(ends@), Ghost(n as int));
            proof {
                lemma_loops_push(faces@, face);
                assert(want.take(f + 1) =~= want.take(f as int).push(face@));
            }
            faces.push(face);
            f = f + 1;
        }
        let mut cap: Vec<u32> = Vec::new();
        let ghost whole = cap_face(ends@, n as int);
        let mut i: usize = 0;
        while i < ends.len()
            invariant
                i <= ends.len(),
                n + ends.len() <= u32::MAX,
                finds_spokes(map@, ends@, n as int),
                whole == cap_face(ends@, n as int),
                cap@ == face_closed_up(whole.take(i as int), v),
            decreases ends.len() - i,
        {
            let d: u32 = ends[ends.len() - 1 - i];
            proof {
                lemma_last_index(ends@, d);
                assert(ends@[ends.len() - 1 - i] == d);
                assert(ends@.contains(d));
                assert(map@.contains_key(d));
            }
            let c: u32 = *map.get(&d).unwrap();
            assert(c == whole[i as int]);
            cap.push(if c > v { c - 1 } else { c });
            assert(cap@ =~= face_closed_up(whole.take(i + 1), v));
            i = i + 1;
        }
        let last = Face { indices: cap };
        proof {
            assert(whole.take(i as int) =~= whole);
            lemma_loops_push(faces@, last);
            assert(want.take(f as int) =~= want);
        }
        faces.push(last);
        vertices.remove(v as usize);
        let out = Mesh { vertices, faces };
        assert(corner_cut(
            self@,
            out@,
            v,
            spokes(hes, fan),
            |p: Vec3, q: Vec3, n: Vec3| pull.ensures((p, q, bevel_fraction(amount)), n),
        )) by {
            assert(out@.vertices == (self@.vertices + points).remove(v as int));
        }
        Some(out)
    }
}

/// Whether side `j` of polygon `k` goes from `a` to `b`.
pub open spec fn side_is(polys: Seq<Seq<u32>>, k: int, j: int, a: u32, b: u32) -> bool {
    &&& 0 <= k < polys.len()
    &&& 0 <= j < polys[k].len()
    &&& polys[k][j] == a
    &&& polys[k][succ(j, polys[k].len() as int)] == b
}

/// Whether side `(k, j)` comes before side `(l, i)`.
pub open spec fn side_before(k: int, j: int, l: int, i: int) -> bool {
    k < l || (k == l && j < i)
}

/// Whether side `j` of polygon `k` is the first from `a` to `b`.
pub open spec fn first_side(polys: Seq<Seq<u32>>, k: int, j: int, a: u32, b: u32) -> bool {
    &&& side_is(polys, k, j, a, b)
    &&& forall|l: int, i: int| #[trigger]
        side_is(polys, l, i, a, b) ==> !side_before(l, i, k, j)
}

/// Whether side `j` of polygon `k` is the last from `a` to `b`.
pub open spec fn last_side(polys: Seq<Seq<u32>>, k: int, j: int, a: u32, b: u32) -> bool {
    &&& side_is(polys, k, j, a, b)
    &&& forall|l: int, i: int| #[trigger]
        side_is(polys, l, i, a, b) ==> !side_before(k, j, l, i)
}

/// A face with vertex `x` exchanged for `nx`, and `y` for `ny`.
pub open spec fn retargeted(face: Seq<u32>, x: u32, nx: u32, y: u32, ny: u32) -> Seq<u32> {
    Seq::new(
        face.len(),
        |i: int|
            if face[i] == x {
                nx
            } else if face[i] == y {
                ny
            } else {
                face[i]
            },
    )
}

/// What face `f` becomes when the edge from `a` to `b` between polygons `k0` and `k1` is
/// beveled and new vertices start at `n`.
pub open spec fn face_beveled(
    faces: Seq<Seq<u32>>,
    f: int,
    a: u32,
    b: u32,
    k0: int,
    k1: int,
    n: int,
) -> Seq<u32> {
    let k = polygons(faces.take(f)).len();
    if faces[f].len() >= 3 && k == k0 {
        retargeted(faces[f], a, n as u32, b, (n + 2) as u32)
    } else if faces[f].len() >= 3 && k == k1 {
        retargeted(faces[f], b, (n + 3) as u32, a, (n + 1) as u32)
    } else {
        faces[f]
    }
}

/// Whether `after` is `before` with the edge from `a` to `b` replaced by a strip. The edge is
/// side `j0` of polygon `k0` and, the other way, side `j1` of polygon `k1`. Each end of the
/// edge gives one vertex to each of the two polygons, pulled along the edge that meets it
/// there.
pub open spec fn edge_beveled(
    before: MeshModel,
    after: MeshModel,
    a: u32,
    b: u32,
    k0: int,
    j0: int,
    k1: int,
    j1: int,
    pulled: spec_fn(Vec3, Vec3, Vec3) -> bool,
) -> bool {
    let polys = polygons(before.faces);
    let n = before.vertices.len() as int;
    let p = before.vertices;
    let q = after.vertices;
    let m0 = polys[k0].len() as int;
    let m1 = polys[k1].len() as int;
    &&& q.len() == n + 4
    &&& q.take(n) == p
    &&& pulled(p[a as int], p[polys[k0][pred(j0, m0)] as int], q[n])
    &&& pulled(p[a as int], p[polys[k1][succ(succ(j1, m1), m1)] as int], q[n + 1])
    &&& pulled(p[b as int], p[polys[k0][succ(succ(j0, m0), m0)] as int], q[n + 2])
    &&& pulled(p[b as int], p[polys[k1][pred(j1, m1)] as int], q[n + 3])
    &&& after.faces == Seq::new(
        before.faces.len(),
        |f: int| face_beveled(before.faces, f, a, b, k0, k1, n),
    ).push(seq![n as u32, (n + 2) as u32, (n + 3) as u32, (n + 1) as u32])
}

/// Sides come in the order of their places in the list.
proof fn lemma_side_order(polys: Seq<Seq<u32>>, k: int, j: int, l: int, i: int)
    requires
        0 <= k < polys.len(),
        0 <= j < polys[k].len(),
        0 <= l < polys.len(),
        0 <= i < polys[l].len(),
    ensures
        side_before(k, j, l, i) <==> offset(polys, k) + j < offset(polys, l) + i,
{
    if k < l {
        lemma_offset_monotone(polys, k + 1, l);
    } else if l < k {
        lemma_offset_monotone(polys, l + 1, k);
    }
}

/// A face with vertex `x` exchanged for `nx`, and `y` for `ny`.
fn retarget(face: &Vec<u32>, x: u32, nx: u32, y: u32, ny: u32) -> (r: Face)
    ensures
        r@ == retargeted(face@, x, nx, y, ny),
{
    let mut out: Vec<u32> = Vec::new();
    let mut i: usize = 0;
    while i < face.len()
        invariant
            i <= face.len(),
            out@ == retargeted(face@, x, nx, y, ny).take(i as int),
        decreases face.len() - i,
    {
        let v: u32 = face[i];
        out.push(
            if v == x {
                nx
            } else if v == y {
                ny
            } else {
                v
            },
        );
        assert(out@ =~= retargeted(face@, x, nx, y, ny).take(i + 1));
        i = i + 1;
    }
    assert(retargeted(face@, x, nx, y, ny).take(i as int) =~= retargeted(face@, x, nx, y, ny));
    Face { indices: out }
}

/// The polygon and the side of a half-edge, with its neighbours around the polygon.
proof fn side_of(he: HalfEdgeMesh, polys: Seq<Seq<u32>>, h: int) -> (at: (int, int))
    requires
        he.valid(),
        he.built_from(polys),
        0 <= h < he.half_edges.len(),
    ensures
        h == offset(polys, at.0) + at.1,
        side_is(polys, at.0, at.1, he.half_edges@[h].origin, dest_of(he.half_edges@, h)),
        he.half_edges@[h].face == at.0,
        ({
            let hes = he.half_edges@;
            let m = polys[at.0].len() as int;
            &&& hes[hes[h].prev as int].origin == polys[at.0][pred(at.1, m)]
            &&& dest_of(hes, hes[h].next as int) == polys[at.0][succ(succ(at.1, m), m)]
        }),
{
    let hes = he.half_edges@;
    let (k, j) = locate(polys, polys.len() as int, h);
    let m = polys[k].len() as int;
    lemma_edge_of_side(hes, he.face_half@, polys, k, j);
    lemma_edge_of_side(hes, he.face_half@, polys, k, succ(j, m));
    lemma_edge_of_side(hes, he.face_half@, polys, k, pred(j, m));
    assert(polys[k][j] == polys[k][j]);
    assert(is_side(hes[offset(polys, k) + j], polys, k, j));
    (k, j)
}

impl Mesh {
    /// Bevel an edge: replace the edge from `a` to `b` by a strip. Each end of the edge gives
    /// one vertex to each of the two faces at the edge, placed by `pull` from the end toward
    /// its neighbour in that face by the fraction it is given, which is `amount` held to
    /// 0.01 ..= 0.49. The two faces take the new vertices, and a quad bridges the gap. None if
    /// no polygon walks the edge from `a` to `b`, or none walks it back.
    pub fn bevel_edge<F: Fn(Vec3, Vec3, Real) -> Vec3>(
        &self,
        a: u32,
        b: u32,
        amount: Real,
        pull: F,
    ) -> (r: Option<Mesh>)
        requires
            self@.in_range(),
            self@.vertices.len() + 4 <= u32::MAX,
            side_count(polygons(self@.faces)) <= u32::MAX,
            forall|p: Vec3, q: Vec3, t: Real| pull.requires((p, q, t)),
        ensures
            match r {
                Some(out) => exists|k0: int, j0: int, k1: int, j1: int|
                    #[trigger] first_side(polygons(self@.faces), k0, j0, a, b)
                        && #[trigger] last_side(polygons(self@.faces), k1, j1, b, a)
                        && edge_beveled(
                        self@,
                        out@,
                        a,
                        b,
                        k0,
                        j0,
                        k1,
                        j1,
                        |p: Vec3, q: Vec3, n: Vec3| pull.ensures((p, q, bevel_fraction(amount)), n),
                    ),
                None => (forall|k: int, j: int| !(#[trigger] side_is(polygons(self@.faces), k, j, a, b)))
                    || (forall|k: int, j: int| !(#[trigger] side_is(polygons(self@.faces), k, j, b, a))),
            },
    {
        let he = HalfEdgeMesh::from_mesh(self);
        let ghost hes = he.half_edges@;
        let ghost polys = polygons(self@.faces);
        let mut h: usize = 0;
        while h < he.half_edges.len() && !(he.half_edges[h].origin == a && he.dest(h as u32) == b)
            invariant
                h <= he.half_edges.len(),
                he.valid(),
                hes == he.half_edges@,
                forall|i: int|
                    0 <= i < h ==> !((#[trigger] hes[i]).origin == a && dest_of(hes, i) == b),
            decreases he.half_edges.len() - h,
        {
            h = h + 1;
        }
        if h == he.half_edges.len() {
            proof {
                assert forall|k: int, j: int| !(#[trigger] side_is(polys, k, j, a, b)) by {
                    if side_is(polys, k, j, a, b) {
                        lemma_edge_of_side(hes, he.face_half@, polys, k, j);
                        assert(hes[offset(polys, k) + j].origin == a);
                    }
                }
            }
            return None;
        }
        let ghost (k0, j0) = side_of(he, polys, h as int);
        assert(first_side(polys, k0, j0, a, b)) by {
            assert forall|l: int, i: int| #[trigger] side_is(polys, l, i, a, b) implies !side_before(
                l,
                i,
                k0,
                j0,
            ) by {
                lemma_edge_of_side(hes, he.face_half@, polys, l, i);
                lemma_side_order(polys, l, i, k0, j0);
                assert(hes[offset(polys, l) + i].origin == a);
            }
        }
        assert(twinned(hes, h as int));
        let twin: u32 = match he.half_edges[h].twin {
            Some(t) => t,
            None => {
                proof {
                    assert forall|k: int, j: int| !(#[trigger] side_is(polys, k, j, b, a)) by {
                        if side_is(polys, k, j, b, a) {
                            lemma_edge_of_side(hes, he.face_half@, polys, k, j);
                            assert(opposes(hes, h as int, offset(polys, k) + j));
                        }
                    }
                }
                return None;
            },
        };
        let ghost (k1, j1) = side_of(he, polys, twin as int);
        assert(last_side(polys, k1, j1, b, a)) by {
            assert forall|l: int, i: int| #[trigger] side_is(polys, l, i, b, a) implies !side_before(
                k1,
                j1,
                l,
                i,
            ) by {
                lemma_edge_of_side(hes, he.face_half@, polys, l, i);
                lemma_side_order(polys, k1, j1, l, i);
                assert(opposes(hes, h as int, offset(polys, l) + i));
            }
        }
        let t: Real = amount.clamp(Real { bits: BEVEL_MIN }, Real { bits: BEVEL_MAX });
        let a_prev: u32 = he.half_edges[he.half_edges[h].prev as usize].origin;
        let b_next: u32 = he.dest(he.half_edges[h].next);
        let b_prev: u32 = he.half_edges[he.half_edges[twin as usize].prev as usize].origin;
        let a_next: u32 = he.dest(he.half_edges[twin as usize].next);
        proof {
            lemma_polygons_below(self@.faces, self@.vertices.len());
            assert(face_below(polys[k0], self@.vertices.len()));
            assert(face_below(polys[k1], self@.vertices.len()));
        }
        let n: u32 = self.vertices.len() as u32;
        let pa: Vec3 = self.vertices[a as usize];
        let pb: Vec3 = self.vertices[b as usize];
        let mut vertices = copy_points(&self.vertices);
        vertices.push(pull(pa, self.vertices[a_prev as usize], t));
        vertices.push(pull(pa, self.vertices[a_next as usize], t));
        vertices.push(pull(pb, self.vertices[b_next as usize], t));
        vertices.push(pull(pb, self.vertices[b_prev as usize], t));
        let side0: usize = he.half_edges[h].face as usize;
        let side1: usize = he.half_edges[twin as usize].face as usize;
        let ghost want = Seq::new(
            self@.faces.len(),
            |f: int| face_beveled(self@.faces, f, a, b, k0, k1, n as int),
        );
        let mut faces: Vec<Face> = Vec::new();
        let mut polygon: usize = 0;
        let mut f: usize = 0;
        assert(loops(faces@) =~= want.take(0));
        assert(self@.faces.take(0) =~= Seq::empty());
        while f < self.faces.len()
            invariant
                f <= self.faces.len(),
                polygon == polygons(self@.faces.take(f as int)).len(),
                polygon <= f,
                side0 == k0,
                side1 == k1,
                n + 4 <= u32::MAX,
                want == Seq::new(
                    self@.faces.len(),
                    |f: int| face_beveled(self@.faces, f, a, b, k0, k1, n as int),
                ),
                loops(faces@) == want.take(f as int),
            decreases self.faces.len() - f,
        {
            let face = &self.faces[f].indices;
            assert(self@.faces[f as int] == face@);
            let wide: bool = face.len() >= 3;
            let made = if wide && polygon == side0 {
                retarget(face, a, n, b, n + 2)
            } else if wide && polygon == side1 {
                retarget(face, b, n + 3, a, n + 1)
            } else {
                self.faces[f].copy()
            };
            proof {
                lemma_loops_push(faces@, made);
                assert(want.take(f + 1) =~= want.take(f as int).push(made@));
                lemma_polygons_step(self@.faces, f as int);
            }
            faces.push(made);
            if wide {
                polygon = polygon + 1;
            }
            f = f + 1;
        }
        let strip = quad(n, n + 2, n + 3, n + 1);
        proof {
            lemma_loops_push(faces@, strip);
            assert(want.take(f as int) =~= want);
        }
        faces.push(strip);
        let out = Mesh { vertices, faces };
        assert(out@.vertices.take(n as int) =~= self@.vertices);
        assert(edge_beveled(
            self@,
            out@,
            a,
            b,
            k0,
            j0,
            k1,
            j1,
            |p: Vec3, q: Vec3, n: Vec3| pull.ensures((p, q, bevel_fraction(amount)), n),
        ));
        Some(out)
    }
}

} // verus!
