//! Sculpting: brushes that move vertices and leave the faces alone.
use crate::mesh::{
    face_below, faces_below, made_from, outline, pred, pred_of, succ, succ_of, Mesh, MeshModel,
};
use crate::number::{Real, Vec3};
use crate::subdivide::empty_lists;
use vstd::prelude::*;

verus! {

/// Whether `after` is `before` with the vertices moved that have a place in `moves`.
pub open spec fn brushed(before: MeshModel, after: MeshModel, moves: Seq<Option<Vec3>>) -> bool {
    &&& moves.len() == before.vertices.len()
    &&& after.vertices.len() == before.vertices.len()
    &&& after.faces == before.faces
    &&& forall|i: int|
        0 <= i < moves.len() ==> #[trigger] after.vertices[i] == match moves[i] {
            Some(q) => q,
            None => before.vertices[i],
        }
}

/// Whether any vertex has a place to move to.
pub open spec fn moves_any(moves: Seq<Option<Vec3>>) -> bool {
    exists|i: int| 0 <= i < moves.len() && (#[trigger] moves[i]) is Some
}

/// The neighbours of vertex `v` along the sides of the first `f` faces and the first `k` sides
/// of face `f`, once for each side.
pub open spec fn neighbours_upto(faces: Seq<Seq<u32>>, f: int, k: int, v: int) -> Seq<u32>
    decreases f, k,
{
    if k > 0 {
        let rest = neighbours_upto(faces, f, k - 1, v);
        let a = faces[f][k - 1];
        let b = faces[f][succ(k - 1, faces[f].len() as int)];
        let one = if a == v {
            rest.push(b)
        } else {
            rest
        };
        if b == v {
            one.push(a)
        } else {
            one
        }
    } else if f > 0 {
        neighbours_upto(faces, f - 1, faces[f - 1].len() as int, v)
    } else {
        Seq::empty()
    }
}

/// The neighbours of vertex `v`, once for each side that joins them.
pub open spec fn neighbours(faces: Seq<Seq<u32>>, v: int) -> Seq<u32> {
    neighbours_upto(faces, faces.len() as int, 0, v)
}

/// Neighbours are vertices of the mesh.
proof fn lemma_neighbours_below(faces: Seq<Seq<u32>>, f: int, k: int, v: int, n: nat)
    requires
        faces_below(faces, n),
        0 <= f <= faces.len(),
        0 <= k,
        f == faces.len() ==> k == 0,
        f < faces.len() ==> k <= faces[f].len(),
    ensures
        face_below(neighbours_upto(faces, f, k, v), n),
    decreases f, k,
{
    if k > 0 {
        lemma_neighbours_below(faces, f, k - 1, v, n);
        assert(face_below(faces[f], n));
        let m = faces[f].len() as int;
        assert(faces[f][k - 1] < n && faces[f][succ(k - 1, m)] < n);
        let rest = neighbours_upto(faces, f, k - 1, v);
        let now = neighbours_upto(faces, f, k, v);
        assert forall|i: int| 0 <= i < now.len() implies #[trigger] now[i] < n by {
            if i < rest.len() {
                assert(rest[i] < n);
            }
        }
    } else if f > 0 {
        lemma_neighbours_below(faces, f - 1, faces[f - 1].len() as int, v, n);
    }
}

/// Being joined by a side goes both ways: a vertex is among the neighbours of its neighbours.
pub proof fn neighbours_are_mutual(faces: Seq<Seq<u32>>, a: u32, b: u32)
    ensures
        neighbours(faces, a as int).contains(b) == neighbours(faces, b as int).contains(a),
{
    lemma_mutual_upto(faces, faces.len() as int, 0, a, b);
}

proof fn lemma_mutual_upto(faces: Seq<Seq<u32>>, f: int, k: int, a: u32, b: u32)
    ensures
        neighbours_upto(faces, f, k, a as int).contains(b) == neighbours_upto(
            faces,
            f,
            k,
            b as int,
        ).contains(a),
    decreases f, k,
{
    if k > 0 {
        lemma_mutual_upto(faces, f, k - 1, a, b);
        let x = faces[f][k - 1];
        let y = faces[f][succ(k - 1, faces[f].len() as int)];
        lemma_side_adds(faces, f, k, a, b);
        lemma_side_adds(faces, f, k, b, a);
    } else if f > 0 {
        lemma_mutual_upto(faces, f - 1, faces[f - 1].len() as int, a, b);
    }
}

/// One side more makes its ends neighbours.
proof fn lemma_side_adds(faces: Seq<Seq<u32>>, f: int, k: int, a: u32, b: u32)
    requires
        k > 0,
    ensures
        ({
            let x = faces[f][k - 1];
            let y = faces[f][succ(k - 1, faces[f].len() as int)];
            neighbours_upto(faces, f, k, a as int).contains(b) == (neighbours_upto(
                faces,
                f,
                k - 1,
                a as int,
            ).contains(b) || (x == a && y == b) || (x == b && y == a))
        }),
{
    let x = faces[f][k - 1];
    let y = faces[f][succ(k - 1, faces[f].len() as int)];
    let rest = neighbours_upto(faces, f, k - 1, a as int);
    let one = if x == a {
        rest.push(y)
    } else {
        rest
    };
    let now = neighbours_upto(faces, f, k, a as int);
    assert(now == if y == a { one.push(x) } else { one });
    if rest.contains(b) {
        let i = rest.index_of(b);
        assert(one[i] == b && now[i] == b);
    }
    if x == a && y == b {
        assert(one[one.len() - 1] == b);
        assert(now[one.len() - 1] == b);
    }
    if x == b && y == a {
        assert(now[now.len() - 1] == b);
    }
    if now.contains(b) {
        let i = now.index_of(b);
        if i < rest.len() {
            assert(rest[i] == b);
        }
    }
}

impl Mesh {
    /// Move the vertices that have a place to move to. True if there is one.
    fn apply_moves(&mut self, moves: &Vec<Option<Vec3>>) -> (r: bool)
        requires
            moves.len() == old(self)@.vertices.len(),
        ensures
            brushed(old(self)@, final(self)@, moves@),
            r == moves_any(moves@),
    {
        let ghost before = self@;
        let mut moved: bool = false;
        let mut i: usize = 0;
        while i < moves.len()
            invariant
                i <= moves.len(),
                moves.len() == before.vertices.len(),
                self@.vertices.len() == before.vertices.len(),
                self@.faces == before.faces,
                forall|j: int|
                    0 <= j < i ==> #[trigger] self@.vertices[j] == match moves[j] {
                        Some(q) => q,
                        None => before.vertices[j],
                    },
                forall|j: int|
                    i <= j < moves.len() ==> #[trigger] self@.vertices[j] == before.vertices[j],
                moved == moves_any(moves@.take(i as int)),
            decreases moves.len() - i,
        {
            proof {
                let less = moves@.take(i as int);
                let more = moves@.take(i + 1);
                assert(moves_any(more) == (moves_any(less) || moves@[i as int] is Some)) by {
                    if moves_any(less) {
                        let j = choose|j: int| 0 <= j < less.len() && (#[trigger] less[j]) is Some;
                        assert(more[j] == less[j]);
                    }
                    assert(more[i as int] == moves@[i as int]);
                    if moves_any(more) {
                        let j = choose|j: int| 0 <= j < more.len() && (#[trigger] more[j]) is Some;
                        if j < i {
                            assert(less[j] == more[j]);
                        }
                    }
                }
            }
            match moves[i] {
                Some(q) => {
                    self.vertices.set(i, q);
                    moved = true;
                },
                None => {},
            }
            i = i + 1;
        }
        assert(moves@.take(i as int) =~= moves@);
        moved
    }

    /// How strongly a brush touches each vertex.
    fn falloffs<H: Fn(Vec3, Vec3, Real) -> Option<Real>>(
        &self,
        at: Vec3,
        radius: Real,
        fall: &H,
    ) -> (r: Vec<Option<Real>>)
        requires
            forall|p: Vec3, q: Vec3, x: Real| #[trigger] (*fall).requires((p, q, x)),
        ensures
            felt(self@.vertices, at, radius, fall, r@),
    {
        let mut out: Vec<Option<Real>> = Vec::new();
        let mut i: usize = 0;
        while i < self.vertices.len()
            invariant
                i <= self.vertices.len(),
                forall|p: Vec3, q: Vec3, x: Real| #[trigger] (*fall).requires((p, q, x)),
                out.len() == i,
                forall|j: int|
                    0 <= j < i ==> (*fall).ensures(
                        (self@.vertices[j], at, radius),
                        #[trigger] out[j],
                    ),
            decreases self.vertices.len() - i,
        {
            out.push(fall(self.vertices[i], at, radius));
            i = i + 1;
        }
        out
    }

    /// Pinch: each vertex that the brush touches is pulled toward its center. The brush lies around
    /// `center` in the world, and the mesh lies in the world by `world`. True if any vertex moved.
    pub fn sculpt_pinch<
        W,
        A: Fn(W, Vec3) -> Vec3,
        H: Fn(Vec3, Vec3, Real) -> Option<Real>,
        N: Fn(Vec<Vec3>) -> Vec3,
        S: Fn(Vec<Corner>) -> Vec3,
        D: Fn(Vec3, Vec3, Real, Real) -> Vec3,
        E: Fn(Vec3, Vec<Vec3>, Real, Real) -> Vec3,
        T: Fn(Vec3, Vec3, Real) -> bool,
        L: Fn(Vec<Vec3>) -> Option<Vec3>,
        P: Fn(Vec3, Vec3, Vec3, Real, Real) -> Vec3,
        I: Fn(Vec3, Vec3, Real, Real) -> Vec3,
    >(
        &mut self,
        center: Vec3,
        radius: Real,
        strength: Real,
        world: W,
        by: &Sculptor<A, H, N, S, D, E, T, L, P, I>,
    ) -> (r: bool)
        requires
            sculpts::<W, A, H, N, S, D, E, T, L, P, I>(by),
        ensures
            pinched(old(self)@, final(self)@, r, center, radius, strength, world, by),
    {
        let ghost before = self@;
        let ghost space = world;
        let at: Vec3 = (by.local)(world, center);
        let falls: Vec<Option<Real>> = self.falloffs(at, radius, &by.fall);
        let mut moves: Vec<Option<Vec3>> = Vec::new();
        let mut i: usize = 0;
        while i < self.vertices.len()
            invariant
                i <= self.vertices.len(),
                before == self@,
                sculpts::<W, A, H, N, S, D, E, T, L, P, I>(by),
                falls.len() == before.vertices.len(),
                moves.len() == i,
                forall|j: int|
                    0 <= j < i ==> pulled(
                        before,
                        at,
                        strength,
                        &by.pull,
                        falls[j],
                        j,
                        #[trigger] moves[j],
                    ),
            decreases self.vertices.len() - i,
        {
            match falls[i] {
                Some(f) => moves.push(Some((by.pull)(self.vertices[i], at, strength, f))),
                None => moves.push(None),
            }
            i = i + 1;
        }
        let r: bool = self.apply_moves(&moves);
        assert(by.local.ensures((space, center), at));
        assert(felt(before.vertices, at, radius, &by.fall, falls@));
        assert(brushed(before, self@, moves@));
        r
    }

    /// Flatten: each vertex that the brush touches is pressed toward the plane through its center.
    /// The plane is what the brush makes of the normals of the vertices inside it, and where there
    /// is none nothing moves. True if any vertex moved.
    pub fn sculpt_flatten<
        W,
        A: Fn(W, Vec3) -> Vec3,
        H: Fn(Vec3, Vec3, Real) -> Option<Real>,
        N: Fn(Vec<Vec3>) -> Vec3,
        S: Fn(Vec<Corner>) -> Vec3,
        D: Fn(Vec3, Vec3, Real, Real) -> Vec3,
        E: Fn(Vec3, Vec<Vec3>, Real, Real) -> Vec3,
        T: Fn(Vec3, Vec3, Real) -> bool,
        L: Fn(Vec<Vec3>) -> Option<Vec3>,
        P: Fn(Vec3, Vec3, Vec3, Real, Real) -> Vec3,
        I: Fn(Vec3, Vec3, Real, Real) -> Vec3,
    >(
        &mut self,
        center: Vec3,
        radius: Real,
        strength: Real,
        world: W,
        by: &Sculptor<A, H, N, S, D, E, T, L, P, I>,
    ) -> (r: bool)
        requires
            old(self)@.in_range(),
            sculpts::<W, A, H, N, S, D, E, T, L, P, I>(by),
        ensures
            flattened(old(self)@, final(self)@, r, center, radius, strength, world, by),
    {
        let ghost before = self@;
        let ghost space = world;
        let at: Vec3 = (by.local)(world, center);
        assert(by.local.ensures((space, center), at));
        let normals: Vec<Vec3> = self.vertex_normals(&by.normal, &by.sum);
        let ghost mut inside: Seq<bool> = Seq::empty();
        let mut under: Vec<Vec3> = Vec::new();
        let mut i: usize = 0;
        while i < self.vertices.len()
            invariant
                i <= self.vertices.len(),
                before == self@,
                normals.len() == before.vertices.len(),
                sculpts::<W, A, H, N, S, D, E, T, L, P, I>(by),
                inside.len() == i,
                forall|j: int|
                    0 <= j < i ==> by.touches.ensures(
                        (before.vertices[j], at, radius),
                        #[trigger] inside[j],
                    ),
                under@ == picked(normals@, inside, i as int),
            decreases self.vertices.len() - i,
        {
            let near: bool = (by.touches)(self.vertices[i], at, radius);
            let ghost fewer = inside;
            proof {
                inside = inside.push(near);
                lemma_picked_alike(normals@, fewer, inside, i as int);
            }
            if near {
                under.push(normals[i]);
            }
            i = i + 1;
        }
        let ghost given = under;
        let plane: Option<Vec3> = (by.level)(under);
        assert(by.level.ensures((given,), plane));
        assert(levelled(before, at, radius, by, normals@, inside, plane));
        let n: Vec3 = match plane {
            Some(n) => n,
            None => {
                return false;
            },
        };
        let falls: Vec<Option<Real>> = self.falloffs(at, radius, &by.fall);
        let mut moves: Vec<Option<Vec3>> = Vec::new();
        let mut i: usize = 0;
        while i < self.vertices.len()
            invariant
                i <= self.vertices.len(),
                before == self@,
                sculpts::<W, A, H, N, S, D, E, T, L, P, I>(by),
                falls.len() == before.vertices.len(),
                moves.len() == i,
                forall|j: int|
                    0 <= j < i ==> pressed(
                        before,
                        n,
                        at,
                        strength,
                        &by.press,
                        falls[j],
                        j,
                        #[trigger] moves[j],
                    ),
            decreases self.vertices.len() - i,
        {
            match falls[i] {
                Some(f) => moves.push(Some((by.press)(self.vertices[i], n, at, strength, f))),
                None => moves.push(None),
            }
            i = i + 1;
        }
        let r: bool = self.apply_moves(&moves);
        assert(felt(before.vertices, at, radius, &by.fall, falls@));
        assert(brushed(before, self@, moves@));
        r
    }

    /// Draw: each vertex that the brush touches is pushed along its normal. True if any vertex
    /// moved.
    pub fn sculpt_draw<
        W,
        A: Fn(W, Vec3) -> Vec3,
        H: Fn(Vec3, Vec3, Real) -> Option<Real>,
        N: Fn(Vec<Vec3>) -> Vec3,
        S: Fn(Vec<Corner>) -> Vec3,
        D: Fn(Vec3, Vec3, Real, Real) -> Vec3,
        E: Fn(Vec3, Vec<Vec3>, Real, Real) -> Vec3,
        T: Fn(Vec3, Vec3, Real) -> bool,
        L: Fn(Vec<Vec3>) -> Option<Vec3>,
        P: Fn(Vec3, Vec3, Vec3, Real, Real) -> Vec3,
        I: Fn(Vec3, Vec3, Real, Real) -> Vec3,
    >(
        &mut self,
        center: Vec3,
        radius: Real,
        strength: Real,
        world: W,
        by: &Sculptor<A, H, N, S, D, E, T, L, P, I>,
    ) -> (r: bool)
        requires
            old(self)@.in_range(),
            sculpts::<W, A, H, N, S, D, E, T, L, P, I>(by),
        ensures
            drawn(old(self)@, final(self)@, r, center, radius, strength, world, by),
    {
        let ghost before = self@;
        let ghost space = world;
        let at: Vec3 = (by.local)(world, center);
        let normals: Vec<Vec3> = self.vertex_normals(&by.normal, &by.sum);
        let falls: Vec<Option<Real>> = self.falloffs(at, radius, &by.fall);
        let mut moves: Vec<Option<Vec3>> = Vec::new();
        let mut i: usize = 0;
        while i < self.vertices.len()
            invariant
                i <= self.vertices.len(),
                before == self@,
                normals.len() == before.vertices.len(),
                sculpts::<W, A, H, N, S, D, E, T, L, P, I>(by),
                falls.len() == before.vertices.len(),
                moves.len() == i,
                forall|j: int|
                    0 <= j < i ==> pushed(
                        before,
                        normals@,
                        strength,
                        &by.push,
                        falls[j],
                        j,
                        #[trigger] moves[j],
                    ),
            decreases self.vertices.len() - i,
        {
            match falls[i] {
                Some(f) => moves.push(
                    Some((by.push)(self.vertices[i], normals[i], strength, f)),
                ),
                None => moves.push(None),
            }
            i = i + 1;
        }
        let r: bool = self.apply_moves(&moves);
        assert(by.local.ensures((space, center), at));
        assert(has_normals(before, &by.normal, &by.sum, normals@));
        assert(felt(before.vertices, at, radius, &by.fall, falls@));
        assert(brushed(before, self@, moves@));
        r
    }

    /// For each vertex its neighbours.
    fn collect_neighbours(&self) -> (r: Vec<Vec<u32>>)
        requires
            self@.in_range(),
        ensures
            r.len() == self@.vertices.len(),
            forall|v: int| 0 <= v < r.len() ==> (#[trigger] r[v])@ == neighbours(self@.faces, v),
    {
        let ghost all = self@.faces;
        let n: usize = self.vertices.len();
        let mut lists: Vec<Vec<u32>> = empty_lists(n);
        let mut f: usize = 0;
        while f < self.faces.len()
            invariant
                f <= self.faces.len(),
                n == self@.vertices.len(),
                all == self@.faces,
                faces_below(all, n as nat),
                lists.len() == n,
                forall|v: int|
                    0 <= v < n ==> (#[trigger] lists[v])@ == neighbours_upto(all, f as int, 0, v),
            decreases self.faces.len() - f,
        {
            let face = &self.faces[f].indices;
            assert(all[f as int] == face@);
            assert(face_below(all[f as int], n as nat));
            let mut k: usize = 0;
            while k < face.len()
                invariant
                    k <= face.len(),
                    f < all.len(),
                    all[f as int] == face@,
                    face_below(face@, n as nat),
                    lists.len() == n,
                    forall|v: int|
                        0 <= v < n ==> (#[trigger] lists[v])@ == neighbours_upto(
                            all,
                            f as int,
                            k as int,
                            v,
                        ),
                decreases face.len() - k,
            {
                let a: u32 = face[k];
                let b: u32 = face[succ_of(k, face.len())];
                let ghost before = lists@;
                lists[a as usize].push(b);
                lists[b as usize].push(a);
                proof {
                    assert forall|v: int| 0 <= v < n implies (#[trigger] lists[v])@
                        == neighbours_upto(all, f as int, k + 1, v) by {
                        assert(before[v]@ == neighbours_upto(all, f as int, k as int, v));
                    }
                }
                k = k + 1;
            }
            f = f + 1;
        }
        lists
    }

    /// Smooth: each vertex that has neighbours and that the brush touches is eased toward them, all
    /// as they were before the stroke. True if any vertex moved.
    pub fn sculpt_smooth<
        W,
        A: Fn(W, Vec3) -> Vec3,
        H: Fn(Vec3, Vec3, Real) -> Option<Real>,
        N: Fn(Vec<Vec3>) -> Vec3,
        S: Fn(Vec<Corner>) -> Vec3,
        D: Fn(Vec3, Vec3, Real, Real) -> Vec3,
        E: Fn(Vec3, Vec<Vec3>, Real, Real) -> Vec3,
        T: Fn(Vec3, Vec3, Real) -> bool,
        L: Fn(Vec<Vec3>) -> Option<Vec3>,
        P: Fn(Vec3, Vec3, Vec3, Real, Real) -> Vec3,
        I: Fn(Vec3, Vec3, Real, Real) -> Vec3,
    >(
        &mut self,
        center: Vec3,
        radius: Real,
        factor: Real,
        world: W,
        by: &Sculptor<A, H, N, S, D, E, T, L, P, I>,
    ) -> (r: bool)
        requires
            old(self)@.in_range(),
            sculpts::<W, A, H, N, S, D, E, T, L, P, I>(by),
        ensures
            smoothed(old(self)@, final(self)@, r, center, radius, factor, world, by),
    {
        let ghost before = self@;
        let ghost space = world;
        let at: Vec3 = (by.local)(world, center);
        let lists = self.collect_neighbours();
        let falls: Vec<Option<Real>> = self.falloffs(at, radius, &by.fall);
        let mut moves: Vec<Option<Vec3>> = Vec::new();
        let mut i: usize = 0;
        while i < self.vertices.len()
            invariant
                i <= self.vertices.len(),
                before == self@,
                before.in_range(),
                sculpts::<W, A, H, N, S, D, E, T, L, P, I>(by),
                lists.len() == before.vertices.len(),
                forall|v: int|
                    0 <= v < lists.len() ==> (#[trigger] lists[v])@ == neighbours(before.faces, v),
                falls.len() == before.vertices.len(),
                moves.len() == i,
                forall|j: int|
                    0 <= j < i ==> eased(
                        before,
                        factor,
                        &by.ease,
                        falls[j],
                        j,
                        #[trigger] moves[j],
                    ),
            decreases self.vertices.len() - i,
        {
            proof {
                lemma_neighbours_below(
                    before.faces,
                    before.faces.len() as int,
                    0,
                    i as int,
                    before.vertices.len(),
                );
            }
            let to: Option<Vec3> = match falls[i] {
                Some(f) => if lists[i].len() > 0 {
                    let given = self.face_outline(&lists[i]);
                    let q: Vec3 = (by.ease)(self.vertices[i], given, factor, f);
                    assert(by.ease.ensures((before.vertices[i as int], given, factor, f), q));
                    assert(eased_to(before, factor, &by.ease, f, i as int, q));
                    Some(q)
                } else {
                    None
                },
                None => None,
            };
            assert(eased(before, factor, &by.ease, falls[i as int], i as int, to));
            moves.push(to);
            i = i + 1;
        }
        let r: bool = self.apply_moves(&moves);
        assert(by.local.ensures((space, center), at));
        assert(felt(before.vertices, at, radius, &by.fall, falls@));
        assert(brushed(before, self@, moves@));
        r
    }

    /// For each vertex what `sum` makes of the corners that faces have there. `normal` gives the
    /// normal of a face from its outline.
    pub fn vertex_normals<N: Fn(Vec<Vec3>) -> Vec3, S: Fn(Vec<Corner>) -> Vec3>(
        &self,
        normal: &N,
        sum: &S,
    ) -> (r: Vec<Vec3>)
        requires
            self@.in_range(),
            forall|points: Vec<Vec3>| #[trigger] (*normal).requires((points,)),
            forall|corners: Vec<Corner>| #[trigger] (*sum).requires((corners,)),
        ensures
            has_normals(self@, normal, sum, r@),
    {
        let ghost mesh = self@;
        let n: usize = self.vertices.len();
        let ghost mut normals: Seq<Vec3> = Seq::empty();
        let mut lists: Vec<Vec<Corner>> = no_corners(n);
        let mut f: usize = 0;
        while f < self.faces.len()
            invariant
                f <= self.faces.len(),
                mesh == self@,
                mesh.in_range(),
                n == mesh.vertices.len(),
                forall|points: Vec<Vec3>| #[trigger] (*normal).requires((points,)),
                normals.len() == f,
                forall|g: int|
                    0 <= g < f ==> made_from(
                        *normal,
                        outline(mesh.vertices, mesh.faces[g]),
                        #[trigger] normals[g],
                    ),
                lists.len() == n,
                forall|v: int|
                    0 <= v < n ==> (#[trigger] lists[v])@ == corners_upto(
                        mesh,
                        normals,
                        f as int,
                        0,
                        v,
                    ),
            decreases self.faces.len() - f,
        {
            let face = &self.faces[f].indices;
            assert(mesh.faces[f as int] == face@);
            assert(face_below(mesh.faces[f as int], mesh.vertices.len()));
            let given = self.face_outline(face);
            let made: Vec3 = normal(given);
            assert((*normal).ensures((given,), made));
            let ghost fewer = normals;
            proof {
                normals = normals.push(made);
                assert forall|v: int| 0 <= v < n implies (#[trigger] lists[v])@ == corners_upto(
                    mesh,
                    normals,
                    f as int,
                    0,
                    v,
                ) by {
                    lemma_corners_alike(mesh, fewer, normals, f as int, 0, v);
                }
            }
            let mut k: usize = 0;
            while k < face.len()
                invariant
                    k <= face.len(),
                    mesh == self@,
                    n == mesh.vertices.len(),
                    f < mesh.faces.len(),
                    mesh.faces[f as int] == face@,
                    face_below(face@, n as nat),
                    normals.len() == f + 1,
                    normals[f as int] == made,
                    lists.len() == n,
                    forall|v: int|
                        0 <= v < n ==> (#[trigger] lists[v])@ == corners_upto(
                            mesh,
                            normals,
                            f as int,
                            k as int,
                            v,
                        ),
                decreases face.len() - k,
            {
                let a: u32 = face[k];
                let before: u32 = face[pred_of(k, face.len())];
                let after: u32 = face[succ_of(k, face.len())];
                let corner: Corner = Corner {
                    normal: made,
                    before: self.vertices[before as usize],
                    at: self.vertices[a as usize],
                    after: self.vertices[after as usize],
                };
                let ghost shorter = lists@;
                lists[a as usize].push(corner);
                proof {
                    assert(corner == corner_of(mesh, normals, f as int, k as int));
                    assert forall|v: int| 0 <= v < n implies (#[trigger] lists[v])@
                        == corners_upto(mesh, normals, f as int, k + 1, v) by {
                        assert(shorter[v]@ == corners_upto(mesh, normals, f as int, k as int, v));
                    }
                }
                k = k + 1;
            }
            f = f + 1;
        }
        let mut out: Vec<Vec3> = Vec::new();
        let mut v: usize = 0;
        while v < n
            invariant
                v <= n,
                n == mesh.vertices.len(),
                lists.len() == n,
                forall|corners: Vec<Corner>| #[trigger] (*sum).requires((corners,)),
                forall|v: int| 0 <= v < n ==> (#[trigger] lists[v])@ == corners(mesh, normals, v),
                out.len() == v,
                forall|u: int|
                    0 <= u < v ==> sum_of(sum, corners(mesh, normals, u), #[trigger] out[u]),
            decreases n - v,
        {
            let given: Vec<Corner> = copy_corners(&lists[v]);
            let made: Vec3 = sum(given);
            assert((*sum).ensures((given,), made));
            out.push(made);
            v = v + 1;
        }
        assert(summed(self@, normal, sum, normals, out@));
        out
    }
}

/// A corner of a face at a vertex: the normal of the face, where the vertex before it lies, where
/// it lies itself, and where the one after it lies.
#[derive(Clone, Copy, Debug, PartialEq, Eq, Structural)]
pub struct Corner {
    pub normal: Vec3,
    pub before: Vec3,
    pub at: Vec3,
    pub after: Vec3,
}

/// Corner `k` of face `f`.
pub open spec fn corner_of(mesh: MeshModel, normals: Seq<Vec3>, f: int, k: int) -> Corner {
    let face = mesh.faces[f];
    Corner {
        normal: normals[f],
        before: mesh.vertices[face[pred(k, face.len() as int)] as int],
        at: mesh.vertices[face[k] as int],
        after: mesh.vertices[face[succ(k, face.len() as int)] as int],
    }
}

/// The corners at vertex `v` of the first `f` faces, and of the first `k` corners of face `f`.
pub open spec fn corners_upto(
    mesh: MeshModel,
    normals: Seq<Vec3>,
    f: int,
    k: int,
    v: int,
) -> Seq<Corner>
    decreases f, k,
{
    if k > 0 {
        let rest = corners_upto(mesh, normals, f, k - 1, v);
        if mesh.faces[f][k - 1] == v {
            rest.push(corner_of(mesh, normals, f, k - 1))
        } else {
            rest
        }
    } else if f > 0 {
        corners_upto(mesh, normals, f - 1, mesh.faces[f - 1].len() as int, v)
    } else {
        Seq::empty()
    }
}

/// The corners at vertex `v`, once for each time a face names it, in the order of the faces.
pub open spec fn corners(mesh: MeshModel, normals: Seq<Vec3>, v: int) -> Seq<Corner> {
    corners_upto(mesh, normals, mesh.faces.len() as int, 0, v)
}

/// Corners take the normals of their own faces only.
proof fn lemma_corners_alike(
    mesh: MeshModel,
    a: Seq<Vec3>,
    b: Seq<Vec3>,
    f: int,
    k: int,
    v: int,
)
    requires
        0 <= k,
        0 <= f <= a.len(),
        f <= b.len(),
        k > 0 ==> f < a.len() && f < b.len() && a[f] == b[f],
        forall|g: int| 0 <= g < f ==> a[g] == b[g],
    ensures
        corners_upto(mesh, a, f, k, v) == corners_upto(mesh, b, f, k, v),
    decreases f, k,
{
    if k > 0 {
        lemma_corners_alike(mesh, a, b, f, k - 1, v);
    } else if f > 0 {
        lemma_corners_alike(mesh, a, b, f - 1, mesh.faces[f - 1].len() as int, v);
    }
}

fn copy_corners(list: &Vec<Corner>) -> (r: Vec<Corner>)
    ensures
        r@ == list@,
{
    let mut r: Vec<Corner> = Vec::new();
    let mut i: usize = 0;
    while i < list.len()
        invariant
            i <= list.len(),
            r@ == list@.take(i as int),
        decreases list.len() - i,
    {
        r.push(list[i]);
        assert(r@ =~= list@.take(i + 1));
        i = i + 1;
    }
    assert(list@.take(i as int) =~= list@);
    r
}

fn no_corners(n: usize) -> (r: Vec<Vec<Corner>>)
    ensures
        r.len() == n,
        forall|i: int| 0 <= i < n ==> (#[trigger] r[i])@ == Seq::<Corner>::empty(),
{
    let mut r: Vec<Vec<Corner>> = Vec::new();
    while r.len() < n
        invariant
            r.len() <= n,
            forall|i: int| 0 <= i < r.len() ==> (#[trigger] r[i])@ == Seq::<Corner>::empty(),
        decreases n - r.len(),
    {
        r.push(Vec::new());
    }
    r
}

/// Whether `out` is what `sum` makes of some corners.
pub open spec fn sum_of<S: Fn(Vec<Corner>) -> Vec3>(sum: &S, corners: Seq<Corner>, out: Vec3) -> bool {
    exists|given: Vec<Corner>| given@ == corners && #[trigger] (*sum).ensures((given,), out)
}

/// Whether `normals` are those of the faces, and `out` holds for each vertex what `sum` makes of
/// its corners.
pub open spec fn summed<N: Fn(Vec<Vec3>) -> Vec3, S: Fn(Vec<Corner>) -> Vec3>(
    mesh: MeshModel,
    normal: &N,
    sum: &S,
    normals: Seq<Vec3>,
    out: Seq<Vec3>,
) -> bool {
    &&& normals.len() == mesh.faces.len()
    &&& out.len() == mesh.vertices.len()
    &&& forall|f: int|
        0 <= f < normals.len() ==> made_from(
            *normal,
            outline(mesh.vertices, mesh.faces[f]),
            #[trigger] normals[f],
        )
    &&& forall|v: int|
        0 <= v < out.len() ==> sum_of(sum, corners(mesh, normals, v), #[trigger] out[v])
}

/// Whether `out` holds the normals at the vertices of a mesh: what `sum` makes of the corners
/// there, with the normals that `normal` makes of the outlines of the faces.
pub open spec fn has_normals<N: Fn(Vec<Vec3>) -> Vec3, S: Fn(Vec<Corner>) -> Vec3>(
    mesh: MeshModel,
    normal: &N,
    sum: &S,
    out: Seq<Vec3>,
) -> bool {
    exists|normals: Seq<Vec3>| #[trigger] summed(mesh, normal, sum, normals, out)
}

/// What a brush computes.
pub struct Sculptor<A, H, N, S, D, E, T, L, P, I> {
    /// Where a point of the world lies in the space of a mesh.
    pub local: A,
    /// How strongly the brush touches a point, from the point, the center and the radius; none
    /// where it does not.
    pub fall: H,
    /// The normal of a face, from its outline.
    pub normal: N,
    /// The normal at a vertex, from its corners.
    pub sum: S,
    /// A point pushed along a normal, by a strength and a falloff.
    pub push: D,
    /// A point eased toward others, by a factor and a falloff.
    pub ease: E,
    /// Whether a point lies inside the brush, from the point, the center and the radius.
    pub touches: T,
    /// The normal of the plane under the brush, from the normals inside it; none where they give
    /// no direction.
    pub level: L,
    /// A point pressed toward the plane with a normal through a center, by a strength and a
    /// falloff.
    pub press: P,
    /// A point pulled toward a center, by a strength and a falloff.
    pub pull: I,
}

/// Whether everything that a brush computes is defined everywhere.
pub open spec fn sculpts<
    W,
    A: Fn(W, Vec3) -> Vec3,
    H: Fn(Vec3, Vec3, Real) -> Option<Real>,
    N: Fn(Vec<Vec3>) -> Vec3,
    S: Fn(Vec<Corner>) -> Vec3,
    D: Fn(Vec3, Vec3, Real, Real) -> Vec3,
    E: Fn(Vec3, Vec<Vec3>, Real, Real) -> Vec3,
    T: Fn(Vec3, Vec3, Real) -> bool,
    L: Fn(Vec<Vec3>) -> Option<Vec3>,
    P: Fn(Vec3, Vec3, Vec3, Real, Real) -> Vec3,
    I: Fn(Vec3, Vec3, Real, Real) -> Vec3,
>(by: &Sculptor<A, H, N, S, D, E, T, L, P, I>) -> bool {
    &&& forall|w: W, p: Vec3| #[trigger] by.local.requires((w, p))
    &&& forall|p: Vec3, q: Vec3, x: Real| #[trigger] by.fall.requires((p, q, x))
    &&& forall|points: Vec<Vec3>| #[trigger] by.normal.requires((points,))
    &&& forall|corners: Vec<Corner>| #[trigger] by.sum.requires((corners,))
    &&& forall|p: Vec3, n: Vec3, x: Real, f: Real| #[trigger] by.push.requires((p, n, x, f))
    &&& forall|p: Vec3, around: Vec<Vec3>, x: Real, f: Real| #[trigger]
        by.ease.requires((p, around, x, f))
    &&& forall|p: Vec3, q: Vec3, x: Real| #[trigger] by.touches.requires((p, q, x))
    &&& forall|normals: Vec<Vec3>| #[trigger] by.level.requires((normals,))
    &&& forall|p: Vec3, n: Vec3, q: Vec3, x: Real, f: Real| #[trigger]
        by.press.requires((p, n, q, x, f))
    &&& forall|p: Vec3, q: Vec3, x: Real, f: Real| #[trigger] by.pull.requires((p, q, x, f))
}

/// Whether `falls` tells how strongly a brush touches each of some points.
pub open spec fn felt<H: Fn(Vec3, Vec3, Real) -> Option<Real>>(
    points: Seq<Vec3>,
    at: Vec3,
    radius: Real,
    fall: &H,
    falls: Seq<Option<Real>>,
) -> bool {
    &&& falls.len() == points.len()
    &&& forall|i: int|
        0 <= i < falls.len() ==> (*fall).ensures((points[i], at, radius), #[trigger] falls[i])
}

/// Whether vertex `i` is pushed to `to` along its normal; it stays where the brush does not touch
/// it.
pub open spec fn pushed<D: Fn(Vec3, Vec3, Real, Real) -> Vec3>(
    mesh: MeshModel,
    normals: Seq<Vec3>,
    strength: Real,
    push: &D,
    fall: Option<Real>,
    i: int,
    to: Option<Vec3>,
) -> bool {
    match fall {
        Some(f) => to matches Some(q) && (*push).ensures(
            (mesh.vertices[i], normals[i], strength, f),
            q,
        ),
        None => to is None,
    }
}

/// Whether `q` is where vertex `i` is eased toward its neighbours.
pub open spec fn eased_to<E: Fn(Vec3, Vec<Vec3>, Real, Real) -> Vec3>(
    mesh: MeshModel,
    factor: Real,
    ease: &E,
    f: Real,
    i: int,
    q: Vec3,
) -> bool {
    exists|given: Vec<Vec3>|
        given@ == outline(mesh.vertices, neighbours(mesh.faces, i)) && #[trigger] (*ease).ensures(
            (mesh.vertices[i], given, factor, f),
            q,
        )
}

/// Whether vertex `i` is eased to `to` toward its neighbours; it stays where it has none or the
/// brush does not touch it.
pub open spec fn eased<E: Fn(Vec3, Vec<Vec3>, Real, Real) -> Vec3>(
    mesh: MeshModel,
    factor: Real,
    ease: &E,
    fall: Option<Real>,
    i: int,
    to: Option<Vec3>,
) -> bool {
    if neighbours(mesh.faces, i).len() == 0 {
        to is None
    } else {
        match fall {
            Some(f) => to matches Some(q) && eased_to(mesh, factor, ease, f, i, q),
            None => to is None,
        }
    }
}

/// Whether vertex `i` is pressed to `to` toward the plane with a normal through `at`; it stays
/// where the brush does not touch it.
pub open spec fn pressed<P: Fn(Vec3, Vec3, Vec3, Real, Real) -> Vec3>(
    mesh: MeshModel,
    plane: Vec3,
    at: Vec3,
    strength: Real,
    press: &P,
    fall: Option<Real>,
    i: int,
    to: Option<Vec3>,
) -> bool {
    match fall {
        Some(f) => to matches Some(q) && (*press).ensures(
            (mesh.vertices[i], plane, at, strength, f),
            q,
        ),
        None => to is None,
    }
}

/// Whether vertex `i` is pulled to `to` toward `at`; it stays where the brush does not touch it.
pub open spec fn pulled<I: Fn(Vec3, Vec3, Real, Real) -> Vec3>(
    mesh: MeshModel,
    at: Vec3,
    strength: Real,
    pull: &I,
    fall: Option<Real>,
    i: int,
    to: Option<Vec3>,
) -> bool {
    match fall {
        Some(f) => to matches Some(q) && (*pull).ensures((mesh.vertices[i], at, strength, f), q),
        None => to is None,
    }
}

/// Whether `after` is `before` drawn on: the vertices that the brush touches are pushed along the
/// normals that the mesh had before the stroke.
pub open spec fn drawn<
    W,
    A: Fn(W, Vec3) -> Vec3,
    H: Fn(Vec3, Vec3, Real) -> Option<Real>,
    N: Fn(Vec<Vec3>) -> Vec3,
    S: Fn(Vec<Corner>) -> Vec3,
    D: Fn(Vec3, Vec3, Real, Real) -> Vec3,
    E: Fn(Vec3, Vec<Vec3>, Real, Real) -> Vec3,
    T: Fn(Vec3, Vec3, Real) -> bool,
    L: Fn(Vec<Vec3>) -> Option<Vec3>,
    P: Fn(Vec3, Vec3, Vec3, Real, Real) -> Vec3,
    I: Fn(Vec3, Vec3, Real, Real) -> Vec3,
>(
    before: MeshModel,
    after: MeshModel,
    moved: bool,
    center: Vec3,
    radius: Real,
    strength: Real,
    world: W,
    by: &Sculptor<A, H, N, S, D, E, T, L, P, I>,
) -> bool {
    exists|at: Vec3, normals: Seq<Vec3>, falls: Seq<Option<Real>>, moves: Seq<Option<Vec3>>|
        {
            &&& by.local.ensures((world, center), at)
            &&& #[trigger] has_normals(before, &by.normal, &by.sum, normals)
            &&& #[trigger] felt(before.vertices, at, radius, &by.fall, falls)
            &&& #[trigger] brushed(before, after, moves)
            &&& moved == moves_any(moves)
            &&& forall|i: int|
                0 <= i < moves.len() ==> pushed(
                    before,
                    normals,
                    strength,
                    &by.push,
                    falls[i],
                    i,
                    #[trigger] moves[i],
                )
        }
}

/// Whether `after` is `before` smoothed: the vertices that the brush touches are eased toward their
/// neighbours.
pub open spec fn smoothed<
    W,
    A: Fn(W, Vec3) -> Vec3,
    H: Fn(Vec3, Vec3, Real) -> Option<Real>,
    N: Fn(Vec<Vec3>) -> Vec3,
    S: Fn(Vec<Corner>) -> Vec3,
    D: Fn(Vec3, Vec3, Real, Real) -> Vec3,
    E: Fn(Vec3, Vec<Vec3>, Real, Real) -> Vec3,
    T: Fn(Vec3, Vec3, Real) -> bool,
    L: Fn(Vec<Vec3>) -> Option<Vec3>,
    P: Fn(Vec3, Vec3, Vec3, Real, Real) -> Vec3,
    I: Fn(Vec3, Vec3, Real, Real) -> Vec3,
>(
    before: MeshModel,
    after: MeshModel,
    moved: bool,
    center: Vec3,
    radius: Real,
    factor: Real,
    world: W,
    by: &Sculptor<A, H, N, S, D, E, T, L, P, I>,
) -> bool {
    exists|at: Vec3, falls: Seq<Option<Real>>, moves: Seq<Option<Vec3>>|
        {
            &&& by.local.ensures((world, center), at)
            &&& #[trigger] felt(before.vertices, at, radius, &by.fall, falls)
            &&& #[trigger] brushed(before, after, moves)
            &&& moved == moves_any(moves)
            &&& forall|i: int|
                0 <= i < moves.len() ==> eased(
                    before,
                    factor,
                    &by.ease,
                    falls[i],
                    i,
                    #[trigger] moves[i],
                )
        }
}

/// Whether `after` is `before` pinched: the vertices that the brush touches are pulled toward its
/// center.
pub open spec fn pinched<
    W,
    A: Fn(W, Vec3) -> Vec3,
    H: Fn(Vec3, Vec3, Real) -> Option<Real>,
    N: Fn(Vec<Vec3>) -> Vec3,
    S: Fn(Vec<Corner>) -> Vec3,
    D: Fn(Vec3, Vec3, Real, Real) -> Vec3,
    E: Fn(Vec3, Vec<Vec3>, Real, Real) -> Vec3,
    T: Fn(Vec3, Vec3, Real) -> bool,
    L: Fn(Vec<Vec3>) -> Option<Vec3>,
    P: Fn(Vec3, Vec3, Vec3, Real, Real) -> Vec3,
    I: Fn(Vec3, Vec3, Real, Real) -> Vec3,
>(
    before: MeshModel,
    after: MeshModel,
    moved: bool,
    center: Vec3,
    radius: Real,
    strength: Real,
    world: W,
    by: &Sculptor<A, H, N, S, D, E, T, L, P, I>,
) -> bool {
    exists|at: Vec3, falls: Seq<Option<Real>>, moves: Seq<Option<Vec3>>|
        {
            &&& by.local.ensures((world, center), at)
            &&& #[trigger] felt(before.vertices, at, radius, &by.fall, falls)
            &&& #[trigger] brushed(before, after, moves)
            &&& moved == moves_any(moves)
            &&& forall|i: int|
                0 <= i < moves.len() ==> pulled(
                    before,
                    at,
                    strength,
                    &by.pull,
                    falls[i],
                    i,
                    #[trigger] moves[i],
                )
        }
}

/// Those of the first `n` normals whose vertices are inside.
pub open spec fn picked(normals: Seq<Vec3>, inside: Seq<bool>, n: int) -> Seq<Vec3>
    decreases n,
{
    if n <= 0 {
        Seq::empty()
    } else {
        let rest = picked(normals, inside, n - 1);
        if inside[n - 1] {
            rest.push(normals[n - 1])
        } else {
            rest
        }
    }
}

proof fn lemma_picked_alike(normals: Seq<Vec3>, a: Seq<bool>, b: Seq<bool>, n: int)
    requires
        0 <= n <= a.len(),
        n <= b.len(),
        forall|i: int| 0 <= i < n ==> a[i] == b[i],
    ensures
        picked(normals, a, n) == picked(normals, b, n),
    decreases n,
{
    if n > 0 {
        lemma_picked_alike(normals, a, b, n - 1);
    }
}

/// Whether `plane` is the normal of the plane under the brush: what it makes of the normals of the
/// vertices inside it.
pub open spec fn levelled<
    A,
    H: Fn(Vec3, Vec3, Real) -> Option<Real>,
    N: Fn(Vec<Vec3>) -> Vec3,
    S: Fn(Vec<Corner>) -> Vec3,
    D: Fn(Vec3, Vec3, Real, Real) -> Vec3,
    E: Fn(Vec3, Vec<Vec3>, Real, Real) -> Vec3,
    T: Fn(Vec3, Vec3, Real) -> bool,
    L: Fn(Vec<Vec3>) -> Option<Vec3>,
    P: Fn(Vec3, Vec3, Vec3, Real, Real) -> Vec3,
    I: Fn(Vec3, Vec3, Real, Real) -> Vec3,
>(
    mesh: MeshModel,
    at: Vec3,
    radius: Real,
    by: &Sculptor<A, H, N, S, D, E, T, L, P, I>,
    normals: Seq<Vec3>,
    inside: Seq<bool>,
    plane: Option<Vec3>,
) -> bool {
    &&& has_normals(mesh, &by.normal, &by.sum, normals)
    &&& inside.len() == mesh.vertices.len()
    &&& forall|i: int|
        0 <= i < inside.len() ==> by.touches.ensures(
            (mesh.vertices[i], at, radius),
            #[trigger] inside[i],
        )
    &&& exists|given: Vec<Vec3>|
        given@ == picked(normals, inside, inside.len() as int) && #[trigger] by.level.ensures(
            (given,),
            plane,
        )
}

/// Whether `after` is `before` with the vertices that the brush touches pressed toward the plane
/// with a normal through `at`.
pub open spec fn levels<
    H: Fn(Vec3, Vec3, Real) -> Option<Real>,
    P: Fn(Vec3, Vec3, Vec3, Real, Real) -> Vec3,
>(
    before: MeshModel,
    after: MeshModel,
    moved: bool,
    plane: Vec3,
    at: Vec3,
    radius: Real,
    strength: Real,
    fall: &H,
    press: &P,
) -> bool {
    exists|falls: Seq<Option<Real>>, moves: Seq<Option<Vec3>>|
        {
            &&& #[trigger] felt(before.vertices, at, radius, fall, falls)
            &&& #[trigger] brushed(before, after, moves)
            &&& moved == moves_any(moves)
            &&& forall|i: int|
                0 <= i < moves.len() ==> pressed(
                    before,
                    plane,
                    at,
                    strength,
                    press,
                    falls[i],
                    i,
                    #[trigger] moves[i],
                )
        }
}

/// Whether `after` is `before` flattened: pressed toward the plane under the brush, and as it was
/// where there is none.
pub open spec fn flattened<
    W,
    A: Fn(W, Vec3) -> Vec3,
    H: Fn(Vec3, Vec3, Real) -> Option<Real>,
    N: Fn(Vec<Vec3>) -> Vec3,
    S: Fn(Vec<Corner>) -> Vec3,
    D: Fn(Vec3, Vec3, Real, Real) -> Vec3,
    E: Fn(Vec3, Vec<Vec3>, Real, Real) -> Vec3,
    T: Fn(Vec3, Vec3, Real) -> bool,
    L: Fn(Vec<Vec3>) -> Option<Vec3>,
    P: Fn(Vec3, Vec3, Vec3, Real, Real) -> Vec3,
    I: Fn(Vec3, Vec3, Real, Real) -> Vec3,
>(
    before: MeshModel,
    after: MeshModel,
    moved: bool,
    center: Vec3,
    radius: Real,
    strength: Real,
    world: W,
    by: &Sculptor<A, H, N, S, D, E, T, L, P, I>,
) -> bool {
    exists|at: Vec3, normals: Seq<Vec3>, inside: Seq<bool>, plane: Option<Vec3>|
        {
            &&& by.local.ensures((world, center), at)
            &&& #[trigger] levelled(before, at, radius, by, normals, inside, plane)
            &&& match plane {
                Some(n) => levels(
                    before,
                    after,
                    moved,
                    n,
                    at,
                    radius,
                    strength,
                    &by.fall,
                    &by.press,
                ),
                None => !moved && after == before,
            }
        }
}

} // verus!
