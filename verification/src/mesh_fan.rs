//! Triangle fans: how polygons are drawn, picked, handed to solid modeling and coarsened.
use crate::mesh::{face_below, faces_below, made_from, outline, Mesh, MeshModel};
use crate::number::{Real, Vec3};
use crate::picking::{ray_triangle, TriangleHit};
use vstd::prelude::*;

verus! {

/// The triangles that a polygon is split into, all around its first vertex. A face with
/// fewer than three vertices has none.
pub open spec fn fan(face: Seq<u32>) -> Seq<(u32, u32, u32)> {
    if face.len() < 3 {
        Seq::empty()
    } else {
        Seq::new((face.len() - 2) as nat, |k: int| (face[0], face[k + 1], face[k + 2]))
    }
}

/// The triangles of a list of faces, each with the face it belongs to.
pub open spec fn fans(faces: Seq<Seq<u32>>) -> Seq<(int, (u32, u32, u32))>
    decreases faces.len(),
{
    if faces.len() == 0 {
        Seq::empty()
    } else {
        let f = faces.len() - 1;
        fans(faces.drop_last()) + Seq::new(
            fan(faces.last()).len(),
            |k: int| (f, fan(faces.last())[k]),
        )
    }
}

/// The corners of triangles, one after the other.
pub open spec fn corners(triangles: Seq<(int, (u32, u32, u32))>) -> Seq<u32>
    decreases triangles.len(),
{
    if triangles.len() == 0 {
        Seq::empty()
    } else {
        let t = triangles.last().1;
        corners(triangles.drop_last()).push(t.0).push(t.1).push(t.2)
    }
}

/// A corner of a triangle that is drawn: its face, its vertex, and whether the face is lit.
#[derive(Clone, Copy, Debug, PartialEq, Eq, Structural)]
pub struct MeshCorner {
    pub face: usize,
    pub vertex: u32,
    pub lit: bool,
}

/// Whether the three corners from place `at` on are those of a triangle.
pub open spec fn drawn_triangle(
    t: (int, (u32, u32, u32)),
    highlight: Option<usize>,
    r: Seq<MeshCorner>,
    at: int,
) -> bool {
    let lit = highlight == Some(t.0 as usize);
    &&& r[at] == (MeshCorner { face: t.0 as usize, vertex: t.1.0, lit })
    &&& r[at + 1] == (MeshCorner { face: t.0 as usize, vertex: t.1.1, lit })
    &&& r[at + 2] == (MeshCorner { face: t.0 as usize, vertex: t.1.2, lit })
}

/// Whether corners are those of some triangles, in order.
pub open spec fn drawn_corners(
    triangles: Seq<(int, (u32, u32, u32))>,
    highlight: Option<usize>,
    r: Seq<MeshCorner>,
) -> bool {
    &&& r.len() == 3 * triangles.len()
    &&& forall|t: int|
        0 <= t < triangles.len() ==> #[trigger] drawn_triangle(triangles[t], highlight, r, 3 * t)
}

/// The fans of one face more.
proof fn lemma_fans_step(faces: Seq<Seq<u32>>, f: int)
    requires
        0 <= f < faces.len(),
    ensures
        fans(faces.take(f + 1)) == fans(faces.take(f)) + Seq::new(
            fan(faces[f]).len(),
            |k: int| (f, fan(faces[f])[k]),
        ),
{
    assert(faces.take(f + 1).drop_last() =~= faces.take(f));
    assert(faces.take(f + 1).last() == faces[f]);
}

/// The first `k` triangles of face `f` after those of the faces before it.
spec fn fans_upto(faces: Seq<Seq<u32>>, f: int, k: int) -> Seq<(int, (u32, u32, u32))> {
    fans(faces.take(f)) + Seq::new(k as nat, |i: int| (f, fan(faces[f])[i]))
}

/// Triangles of faces over `n` vertices have their corners among them.
pub(crate) proof fn lemma_fans_below(faces: Seq<Seq<u32>>, n: nat)
    requires
        faces_below(faces, n),
    ensures
        forall|i: int|
            0 <= i < fans(faces).len() ==> (#[trigger] fans(faces)[i]).1.0 < n && fans(
                faces,
            )[i].1.1 < n && fans(faces)[i].1.2 < n && 0 <= fans(faces)[i].0 < faces.len(),
    decreases faces.len(),
{
    if faces.len() > 0 {
        let rest = faces.drop_last();
        assert(faces_below(rest, n)) by {
            assert forall|f: int| 0 <= f < rest.len() implies #[trigger] face_below(rest[f], n) by {
                assert(face_below(faces[f], n));
            }
        }
        lemma_fans_below(rest, n);
        assert(face_below(faces[faces.len() - 1], n));
        let all = fans(faces);
        let last = faces.last();
        assert forall|i: int| 0 <= i < all.len() implies (#[trigger] all[i]).1.0 < n && all[i].1.1
            < n && all[i].1.2 < n && 0 <= all[i].0 < faces.len() by {
            if i < fans(rest).len() {
                assert(all[i] == fans(rest)[i]);
            } else {
                let k = i - fans(rest).len();
                assert(all[i].1 == fan(last)[k]);
                assert(last[0] < n && last[k + 1] < n && last[k + 2] < n);
            }
        }
    }
}

/// The nearer of what was hit so far and one more triangle.
pub open spec fn nearer(
    best: Option<(int, Real)>,
    face: int,
    hit: Option<Real>,
) -> Option<(int, Real)> {
    match hit {
        Some(t) => match best {
            Some(b) => if t.less(b.1) {
                Some((face, t))
            } else {
                best
            },
            None => Some((face, t)),
        },
        None => best,
    }
}

/// The nearest hit among the first `n` triangles.
pub open spec fn nearest(
    triangles: Seq<(int, (u32, u32, u32))>,
    hits: Seq<Option<Real>>,
    n: int,
) -> Option<(int, Real)>
    decreases n,
{
    if n <= 0 {
        None
    } else {
        nearer(nearest(triangles, hits, n - 1), triangles[n - 1].0, hits[n - 1])
    }
}

/// The better of what was best so far and a candidate: the candidate, unless it is less.
pub open spec fn upmost(keys: Seq<Real>, n: int) -> int
    decreases n,
{
    if n <= 1 {
        0
    } else {
        let best = upmost(keys, n - 1);
        if keys[n - 1].less(keys[best]) {
            best
        } else {
            n - 1
        }
    }
}

/// Where all keys are numbers, the upmost is the last of the largest.
pub proof fn upmost_is_the_last_maximum(keys: Seq<Real>, n: int)
    requires
        0 < n <= keys.len(),
        forall|i: int| 0 <= i < n ==> !(#[trigger] keys[i]).nan(),
    ensures
        0 <= upmost(keys, n) < n,
        forall|i: int| 0 <= i < n ==> !keys[upmost(keys, n)].less(#[trigger] keys[i]),
        forall|i: int| upmost(keys, n) < i < n ==> (#[trigger] keys[i]).less(keys[upmost(keys, n)]),
    decreases n,
{
    if n > 1 {
        upmost_is_the_last_maximum(keys, n - 1);
    }
}

proof fn lemma_upmost_inside(keys: Seq<Real>, n: int)
    requires
        0 < n,
    ensures
        0 <= upmost(keys, n) < n,
    decreases n,
{
    if n > 1 {
        lemma_upmost_inside(keys, n - 1);
    }
}

impl Mesh {
    /// The triangles of the mesh as vertex indices, three for each triangle, face after face.
    pub fn triangulate(&self) -> (r: Vec<u32>)
        ensures
            r@ == corners(fans(self@.faces)),
    {
        let mut out: Vec<u32> = Vec::new();
        let ghost all = self@.faces;
        let mut f: usize = 0;
        assert(all.take(0) =~= Seq::empty());
        while f < self.faces.len()
            invariant
                f <= self.faces.len(),
                all == self@.faces,
                out@ == corners(fans(all.take(f as int))),
            decreases self.faces.len() - f,
        {
            let face = &self.faces[f].indices;
            let m: usize = face.len();
            assert(all[f as int] == face@);
            proof {
                lemma_fans_step(all, f as int);
                assert(fans_upto(all, f as int, 0) =~= fans(all.take(f as int)));
                if m < 3 {
                    assert(fans(all.take(f + 1)) =~= fans(all.take(f as int)));
                }
            }
            if m >= 3 {
                let mut k: usize = 0;
                while k < m - 2
                    invariant
                        k <= m - 2,
                        m >= 3,
                        m == face.len(),
                        face@ == all[f as int],
                        out@ == corners(fans_upto(all, f as int, k as int)),
                    decreases m - k,
                {
                    out.push(face[0]);
                    out.push(face[k + 1]);
                    out.push(face[k + 2]);
                    proof {
                        let more = fans_upto(all, f as int, k + 1);
                        assert(more.drop_last() =~= fans_upto(all, f as int, k as int));
                        assert(more.last().1 == (face[0], face[k + 1], face[k + 2]));
                    }
                    k = k + 1;
                }
                assert(fans_upto(all, f as int, k as int) =~= fans(all.take(f + 1)));
            }
            f = f + 1;
        }
        assert(all.take(f as int) =~= all);
        out
    }

    /// The corners of the triangles of the mesh, three for each triangle, face after face, and
    /// whether they belong to the face that is to be shown lit.
    pub fn tessellate(&self, highlight: Option<usize>) -> (r: Vec<MeshCorner>)
        ensures
            drawn_corners(fans(self@.faces), highlight, r@),
    {
        let mut out: Vec<MeshCorner> = Vec::new();
        let ghost all = self@.faces;
        let mut f: usize = 0;
        assert(all.take(0) =~= Seq::empty());
        while f < self.faces.len()
            invariant
                f <= self.faces.len(),
                all == self@.faces,
                drawn_corners(fans(all.take(f as int)), highlight, out@),
            decreases self.faces.len() - f,
        {
            let face = &self.faces[f].indices;
            let m: usize = face.len();
            assert(all[f as int] == face@);
            proof {
                lemma_fans_step(all, f as int);
                assert(fans_upto(all, f as int, 0) =~= fans(all.take(f as int)));
                if m < 3 {
                    assert(fans(all.take(f + 1)) =~= fans(all.take(f as int)));
                }
            }
            if m >= 3 {
                let lit: bool = match highlight {
                    Some(h) => h == f,
                    None => false,
                };
                let mut k: usize = 0;
                while k < m - 2
                    invariant
                        k <= m - 2,
                        m >= 3,
                        m == face.len(),
                        face@ == all[f as int],
                        lit == (highlight == Some(f)),
                        drawn_corners(fans_upto(all, f as int, k as int), highlight, out@),
                    decreases m - k,
                {
                    let ghost before = out@;
                    let ghost done = fans_upto(all, f as int, k as int);
                    out.push(MeshCorner { face: f, vertex: face[0], lit });
                    out.push(MeshCorner { face: f, vertex: face[k + 1], lit });
                    out.push(MeshCorner { face: f, vertex: face[k + 2], lit });
                    proof {
                        let more = fans_upto(all, f as int, k + 1);
                        assert(more.drop_last() =~= done);
                        assert(more.last() == (f as int, (face[0], face[k + 1], face[k + 2])));
                        assert forall|t: int| 0 <= t < more.len() implies #[trigger] drawn_triangle(
                            more[t],
                            highlight,
                            out@,
                            3 * t,
                        ) by {
                            if t < done.len() {
                                assert(drawn_triangle(done[t], highlight, before, 3 * t));
                                assert(more[t] == more.drop_last()[t]);
                            }
                        }
                    }
                    k = k + 1;
                }
                assert(fans_upto(all, f as int, k as int) =~= fans(all.take(f + 1)));
            }
            f = f + 1;
        }
        assert(all.take(f as int) =~= all);
        out
    }

    /// The nearest face that a ray hits, with its distance. The mesh lies in the world by `world`,
    /// `local` is where the ray begins and goes in the space of the mesh, and `measure` tests such a
    /// ray against a triangle. Each face with at least three vertices is tried as a fan of
    /// triangles, and a hit replaces another only where it is nearer.
    pub fn pick_face<
        W,
        A: Fn(W, Vec3, Vec3) -> (Vec3, Vec3),
        M: Fn(Vec3, Vec3, Vec3, Vec3, Vec3) -> TriangleHit,
    >(
        &self,
        ray_origin: Vec3,
        ray_dir: Vec3,
        world: W,
        local: &A,
        measure: &M,
    ) -> (r: Option<(usize, Real)>)
        requires
            self@.in_range(),
            forall|w: W, o: Vec3, d: Vec3| #[trigger] (*local).requires((w, o, d)),
            forall|o: Vec3, d: Vec3, a: Vec3, b: Vec3, c: Vec3| #[trigger]
                (*measure).requires((o, d, a, b, c)),
        ensures
            is_picked(self@, ray_origin, ray_dir, world, local, measure, r),
    {
        let ghost space = world;
        let ray: (Vec3, Vec3) = local(world, ray_origin, ray_dir);
        assert((*local).ensures((space, ray_origin, ray_dir), ray));
        let ghost all = self@.faces;
        let ghost triangles = fans(all);
        let ghost mut hits: Seq<Option<Real>> = Seq::empty();
        let mut best: Option<(usize, Real)> = None;
        let mut f: usize = 0;
        assert(all.take(0) =~= Seq::empty());
        while f < self.faces.len()
            invariant
                f <= self.faces.len(),
                all == self@.faces,
                self@.in_range(),
                forall|o: Vec3, d: Vec3, a: Vec3, b: Vec3, c: Vec3| #[trigger]
                    (*measure).requires((o, d, a, b, c)),
                hits.len() == fans(all.take(f as int)).len(),
                forall|i: int|
                    0 <= i < hits.len() ==> hit_at(
                        self@.vertices,
                        (#[trigger] fans(all.take(f as int))[i]).1,
                        ray,
                        measure,
                        hits[i],
                    ),
                same_pick(best, nearest(fans(all.take(f as int)), hits, hits.len() as int)),
            decreases self.faces.len() - f,
        {
            let face = &self.faces[f].indices;
            let m: usize = face.len();
            assert(all[f as int] == face@);
            assert(face_below(all[f as int], self@.vertices.len()));
            proof {
                lemma_fans_step(all, f as int);
                assert(fans_upto(all, f as int, 0) =~= fans(all.take(f as int)));
                if m < 3 {
                    assert(fans(all.take(f + 1)) =~= fans(all.take(f as int)));
                }
            }
            if m >= 3 {
                let a: Vec3 = self.vertex(face[0]);
                let mut k: usize = 0;
                while k < m - 2
                    invariant
                        k <= m - 2,
                        m >= 3,
                        m == face.len(),
                        face@ == all[f as int],
                        face_below(face@, self@.vertices.len()),
                        a == self@.vertices[face[0] as int],
                        forall|o: Vec3, d: Vec3, a: Vec3, b: Vec3, c: Vec3| #[trigger]
                    (*measure).requires((o, d, a, b, c)),
                        hits.len() == fans_upto(all, f as int, k as int).len(),
                        forall|i: int|
                            0 <= i < hits.len() ==> hit_at(
                                self@.vertices,
                                (#[trigger] fans_upto(all, f as int, k as int)[i]).1,
                                ray,
                                measure,
                                hits[i],
                            ),
                        same_pick(
                            best,
                            nearest(fans_upto(all, f as int, k as int), hits, hits.len() as int),
                        ),
                    decreases m - k,
                {
                    let b: Vec3 = self.vertex(face[k + 1]);
                    let c: Vec3 = self.vertex(face[k + 2]);
                    let test: TriangleHit = measure(ray.0, ray.1, a, b, c);
                    let found: Option<Real> = ray_triangle(test);
                    assert((*measure).ensures((ray.0, ray.1, a, b, c), test));
                    let ghost less = fans_upto(all, f as int, k as int);
                    let ghost more = fans_upto(all, f as int, k + 1);
                    let ghost before = hits;
                    proof {
                        hits = hits.push(found);
                        assert(more =~= less.push(
                            (f as int, (face[0], face[k + 1], face[k + 2])),
                        ));
                        lemma_nearest_prefix(less, before, more, hits, before.len() as int);
                        assert forall|i: int| 0 <= i < hits.len() implies hit_at(
                            self@.vertices,
                            (#[trigger] more[i]).1,
                            ray,
                            measure,
                            hits[i],
                        ) by {
                            if i < less.len() {
                                assert(less[i] == more[i]);
                            }
                        }
                    }
                    match found {
                        Some(t) => {
                            let closer: bool = match best {
                                Some(b) => t.lt(b.1),
                                None => true,
                            };
                            if closer {
                                best = Some((f, t));
                            }
                        },
                        None => {},
                    }
                    k = k + 1;
                }
                assert(fans_upto(all, f as int, k as int) =~= fans(all.take(f + 1)));
            }
            f = f + 1;
        }
        assert(all.take(f as int) =~= all);
        assert(picked(self@, ray, measure, hits, best));
        best
    }

    /// The face that points most upward, none if there is no face. `normal` gives the normal of
    /// a face from its outline. Of faces that point up equally far the last is taken.
    pub fn top_face_index<N: Fn(Vec<Vec3>) -> Vec3>(&self, normal: &N) -> (r: Option<usize>)
        requires
            self@.in_range(),
            forall|points: Vec<Vec3>| normal.requires((points,)),
        ensures
            is_top(self@, *normal, r),
            r matches Some(f) ==> f < self@.faces.len(),
            r is None <==> self@.faces.len() == 0,
    {
        if self.faces.len() == 0 {
            return None;
        }
        let mut normals: Vec<Vec3> = Vec::new();
        let mut best: usize = 0;
        let mut f: usize = 0;
        while f < self.faces.len()
            invariant
                f <= self.faces.len(),
                self@.in_range(),
                forall|points: Vec<Vec3>| normal.requires((points,)),
                normals.len() == f,
                forall|g: int|
                    0 <= g < f ==> made_from(
                        *normal,
                        outline(self@.vertices, self@.faces[g]),
                        #[trigger] normals[g],
                    ),
                f > 0 ==> best == upmost(heights(normals@), f as int) && best < f,
                f == 0 ==> best == 0,
            decreases self.faces.len() - f,
        {
            assert(self@.faces[f as int] == self.faces[f as int]@);
            assert(face_below(self@.faces[f as int], self@.vertices.len()));
            let made: Vec3 = self.make_from_face(&self.faces[f].indices, normal);
            let ghost before = normals@;
            normals.push(made);
            proof {
                assert forall|i: int| 0 <= i < f implies #[trigger] heights(before)[i] == heights(
                    normals@,
                )[i] by {}
                lemma_upmost_same(heights(before), heights(normals@), f as int);
            }
            if f > 0 && !made.y.lt(normals[best].y) {
                best = f;
            }
            f = f + 1;
        }
        assert(upmost(heights(normals@), normals@.len() as int) == best);
        Some(best)
    }
}

/// How far up each of some normals points.
pub open spec fn heights(normals: Seq<Vec3>) -> Seq<Real> {
    Seq::new(normals.len(), |i: int| normals[i].y)
}

/// Whether `r` is the face of the mesh that points most upward, none if there is no face.
pub open spec fn is_top<N: Fn(Vec<Vec3>) -> Vec3>(
    mesh: MeshModel,
    normal: N,
    r: Option<usize>,
) -> bool {
    &&& mesh.faces.len() == 0 ==> r is None
    &&& mesh.faces.len() > 0 ==> exists|normals: Seq<Vec3>|
        normals.len() == mesh.faces.len() && (forall|f: int|
            0 <= f < normals.len() ==> made_from(
                normal,
                outline(mesh.vertices, mesh.faces[f]),
                #[trigger] normals[f],
            )) && r == Some(#[trigger] upmost(heights(normals), normals.len() as int) as usize)
}

/// Whether `at` is where a ray hits a triangle, by what `measure` tells of them.
pub open spec fn hit_at<M: Fn(Vec3, Vec3, Vec3, Vec3, Vec3) -> TriangleHit>(
    vertices: Seq<Vec3>,
    triangle: (u32, u32, u32),
    ray: (Vec3, Vec3),
    measure: &M,
    at: Option<Real>,
) -> bool {
    exists|m: TriangleHit| #[trigger]
        (*measure).ensures(
            (
                ray.0,
                ray.1,
                vertices[triangle.0 as int],
                vertices[triangle.1 as int],
                vertices[triangle.2 as int],
            ),
            m,
        ) && at == m.distance()
}

/// Whether a picked face is the one that is meant.
pub open spec fn same_pick(r: Option<(usize, Real)>, want: Option<(int, Real)>) -> bool {
    match want {
        Some(w) => r == Some((w.0 as usize, w.1)) && 0 <= w.0 <= usize::MAX,
        None => r is None,
    }
}

/// Whether `r` is the nearest of the hits on the triangles of the mesh.
pub open spec fn picked<M: Fn(Vec3, Vec3, Vec3, Vec3, Vec3) -> TriangleHit>(
    mesh: MeshModel,
    ray: (Vec3, Vec3),
    measure: &M,
    hits: Seq<Option<Real>>,
    r: Option<(usize, Real)>,
) -> bool {
    let triangles = fans(mesh.faces);
    &&& hits.len() == triangles.len()
    &&& forall|i: int|
        0 <= i < hits.len() ==> hit_at(
            mesh.vertices,
            (#[trigger] triangles[i]).1,
            ray,
            measure,
            hits[i],
        )
    &&& same_pick(r, nearest(triangles, hits, hits.len() as int))
}

/// Whether `r` is the nearest hit of a ray of the world on a mesh that lies there by `world`.
pub open spec fn is_picked<
    W,
    A: Fn(W, Vec3, Vec3) -> (Vec3, Vec3),
    M: Fn(Vec3, Vec3, Vec3, Vec3, Vec3) -> TriangleHit,
>(
    mesh: MeshModel,
    ray_origin: Vec3,
    ray_dir: Vec3,
    world: W,
    local: &A,
    measure: &M,
    r: Option<(usize, Real)>,
) -> bool {
    exists|ray: (Vec3, Vec3), hits: Seq<Option<Real>>|
        (*local).ensures((world, ray_origin, ray_dir), ray) && #[trigger] picked(
            mesh,
            ray,
            measure,
            hits,
            r,
        )
}

proof fn lemma_nearest_prefix(
    a: Seq<(int, (u32, u32, u32))>,
    ha: Seq<Option<Real>>,
    b: Seq<(int, (u32, u32, u32))>,
    hb: Seq<Option<Real>>,
    n: int,
)
    requires
        n <= a.len() <= b.len(),
        n <= ha.len() <= hb.len(),
        forall|i: int| 0 <= i < n ==> #[trigger] a[i] == b[i],
        forall|i: int| 0 <= i < n ==> #[trigger] ha[i] == hb[i],
    ensures
        nearest(a, ha, n) == nearest(b, hb, n),
    decreases n,
{
    if n > 0 {
        lemma_nearest_prefix(a, ha, b, hb, n - 1);
        assert(a[n - 1] == b[n - 1]);
        assert(ha[n - 1] == hb[n - 1]);
    }
}

proof fn lemma_upmost_same(a: Seq<Real>, b: Seq<Real>, n: int)
    requires
        n <= a.len() <= b.len(),
        forall|i: int| 0 <= i < n ==> #[trigger] a[i] == b[i],
    ensures
        upmost(a, n) == upmost(b, n),
    decreases n,
{
    if n > 1 {
        lemma_upmost_same(a, b, n - 1);
        lemma_upmost_inside(a, n - 1);
        assert(a[n - 1] == b[n - 1]);
        assert(a[upmost(a, n - 1)] == b[upmost(a, n - 1)]);
    }
}

} // verus!
