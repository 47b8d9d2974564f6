//! What a ray hits, told by the ray and what it is tested against.
use crate::mesh::MeshModel;
use crate::mesh_fan::{fans, hit_at, nearest, picked};
use crate::number::{Real, Vec3};
use crate::object::Aabb;
use crate::picking::{entry, narrowed, slab_step, slab_steps, TriangleHit};
use vstd::prelude::*;

verus! {

/// The coordinate of a point along an axis: 0 is x, 1 is y, 2 is z.
pub open spec fn coordinate(p: Vec3, k: int) -> Real {
    if k == 0 {
        p.x
    } else if k == 1 {
        p.y
    } else {
        p.z
    }
}

/// Whether a ray stays at one place along an axis: its direction there is less than one
/// hundred-millionth.
pub open spec fn stays(d: Real) -> bool {
    d.magnitude() < 0x322b_cc77
}

/// Whether place `o` lies outside of `lo ..= hi`.
pub open spec fn outside(o: Real, lo: Real, hi: Real) -> bool {
    o.less(lo) || hi.less(o)
}

/// Whether a ray runs past a box: along some axis it stays at a place outside of it.
pub open spec fn passes_by(origin: Vec3, dir: Vec3, b: Aabb) -> bool {
    exists|k: int|
        0 <= k < 3 && stays(#[trigger] coordinate(dir, k)) && outside(
            coordinate(origin, k),
            coordinate(b.min, k),
            coordinate(b.max, k),
        )
}

/// The steps along the three axes, written out.
proof fn lemma_steps<C: Fn(Real, Real, Real) -> Real>(
    origin: Vec3,
    dir: Vec3,
    b: Aabb,
    crossing: &C,
    parts: Seq<Option<(Real, Real)>>,
    k: int,
)
    requires
        slab_steps(origin, dir, b, crossing, parts),
        0 <= k < 3,
    ensures
        parts.len() == 4,
        parts[0] == Some((Real { bits: 0xff80_0000 }, Real { bits: 0x7f80_0000 })),
        match parts[k] {
            None => parts[k + 1] is None,
            Some(part) => slab_step(
                coordinate(origin, k),
                coordinate(dir, k),
                coordinate(b.min, k),
                coordinate(b.max, k),
                crossing,
                part,
                parts[k + 1],
            ),
        },
{
    let _ = parts[k];
    assert(parts[0] is Some && parts[k] == parts[k]);
}

/// A ray that runs past a box does not hit it: where it does not move along an axis and begins
/// outside of the box there, on either side, there is no hit.
pub proof fn rays_past_a_box_miss<C: Fn(Real, Real, Real) -> Real>(
    origin: Vec3,
    dir: Vec3,
    b: Aabb,
    crossing: &C,
    parts: Seq<Option<(Real, Real)>>,
)
    requires
        slab_steps(origin, dir, b, crossing, parts),
        passes_by(origin, dir, b),
    ensures
        entry(parts[3]) is None,
{
    lemma_steps(origin, dir, b, crossing, parts, 0);
    lemma_steps(origin, dir, b, crossing, parts, 1);
    lemma_steps(origin, dir, b, crossing, parts, 2);
    let k = choose|k: int|
        0 <= k < 3 && stays(#[trigger] coordinate(dir, k)) && outside(
            coordinate(origin, k),
            coordinate(b.min, k),
            coordinate(b.max, k),
        );
    if k == 0 {
        assert(parts[1] is None);
    } else if k == 1 {
        assert(parts[2] is None);
    } else {
        assert(parts[3] is None);
    }
}

/// Whether `t` lies between the places where a ray crosses the two sides of a box along an axis.
/// Along an axis where the ray stays it has to be inside.
pub open spec fn within<C: Fn(Real, Real, Real) -> Real>(
    o: Real,
    d: Real,
    lo: Real,
    hi: Real,
    crossing: &C,
    t: Real,
) -> bool {
    if stays(d) {
        !outside(o, lo, hi)
    } else {
        exists|t1: Real, t2: Real| #[trigger]
            (*crossing).ensures((lo, o, d), t1) && #[trigger] (*crossing).ensures((hi, o, d), t2)
                && (!t.less(t1) || !t.less(t2)) && (!t1.less(t) || !t2.less(t))
    }
}

/// Whether `t` is where a ray first crosses a side of a box along an axis.
pub open spec fn crosses_at<C: Fn(Real, Real, Real) -> Real>(
    o: Real,
    d: Real,
    lo: Real,
    hi: Real,
    crossing: &C,
    t: Real,
) -> bool {
    !stays(d) && exists|t1: Real, t2: Real| #[trigger]
        (*crossing).ensures((lo, o, d), t1) && #[trigger] (*crossing).ensures((hi, o, d), t2) && (t
            == t1 || t == t2) && !t1.less(t) && !t2.less(t)
}

/// What is left of a ray after one axis begins no earlier and ends no later than before, and lies
/// between the crossings.
proof fn lemma_step<C: Fn(Real, Real, Real) -> Real>(
    o: Real,
    d: Real,
    lo: Real,
    hi: Real,
    crossing: &C,
    part: (Real, Real),
    after: (Real, Real),
)
    requires
        slab_step(o, d, lo, hi, crossing, part, Some(after)),
        !part.0.nan(),
        !part.1.nan(),
        !part.1.less(part.0),
    ensures
        !after.0.nan(),
        !after.1.nan(),
        !after.0.less(part.0),
        !part.1.less(after.1),
        !after.1.less(after.0),
        forall|t: Real|
            !t.nan() && !t.less(after.0) && !after.1.less(t) ==> #[trigger] within(
                o,
                d,
                lo,
                hi,
                crossing,
                t,
            ),
        after.0 == part.0 || crosses_at(o, d, lo, hi, crossing, after.0),
{
    if !stays(d) {
        let (t1, t2) = choose|t1: Real, t2: Real| #[trigger]
            (*crossing).ensures((lo, o, d), t1) && #[trigger] (*crossing).ensures((hi, o, d), t2)
                && Some(after) == narrowed(part, t1, t2);
        assert forall|t: Real| !t.nan() && !t.less(after.0) && !after.1.less(t) implies #[trigger] within(
            o,
            d,
            lo,
            hi,
            crossing,
            t,
        ) by {
            assert((!t.less(t1) || !t.less(t2)) && (!t1.less(t) || !t2.less(t)));
        }
    }
}

/// A ray hits a box where it is inside of it along every axis, not behind where the ray begins, and
/// no earlier than it has to be: at its beginning, or where it comes in along some axis.
pub proof fn rays_hit_where_they_come_in<C: Fn(Real, Real, Real) -> Real>(
    origin: Vec3,
    dir: Vec3,
    b: Aabb,
    crossing: &C,
    parts: Seq<Option<(Real, Real)>>,
)
    requires
        slab_steps(origin, dir, b, crossing, parts),
        entry(parts[3]) is Some,
    ensures
        ({
            let t = entry(parts[3])->0;
            let zero = Real { bits: 0 };
            &&& !t.nan() && !t.less(zero)
            &&& forall|k: int|
                0 <= k < 3 ==> within(
                    #[trigger] coordinate(origin, k),
                    coordinate(dir, k),
                    coordinate(b.min, k),
                    coordinate(b.max, k),
                    crossing,
                    t,
                )
            &&& t == zero || exists|k: int|
                0 <= k < 3 && crosses_at(
                    #[trigger] coordinate(origin, k),
                    coordinate(dir, k),
                    coordinate(b.min, k),
                    coordinate(b.max, k),
                    crossing,
                    t,
                )
        }),
{
    lemma_steps(origin, dir, b, crossing, parts, 0);
    lemma_steps(origin, dir, b, crossing, parts, 1);
    lemma_steps(origin, dir, b, crossing, parts, 2);
    assert(parts[1] is Some && parts[2] is Some && parts[3] is Some);
    let (p0, p1, p2, p3) = (parts[0]->0, parts[1]->0, parts[2]->0, parts[3]->0);
    let o = origin;
    lemma_step(o.x, dir.x, b.min.x, b.max.x, crossing, p0, p1);
    lemma_step(o.y, dir.y, b.min.y, b.max.y, crossing, p1, p2);
    lemma_step(o.z, dir.z, b.min.z, b.max.z, crossing, p2, p3);
    let t = entry(parts[3])->0;
    assert(within(o.x, dir.x, b.min.x, b.max.x, crossing, t));
    assert(within(o.y, dir.y, b.min.y, b.max.y, crossing, t));
    assert(within(o.z, dir.z, b.min.z, b.max.z, crossing, t));
    assert(coordinate(o, 0) == o.x && coordinate(o, 1) == o.y && coordinate(o, 2) == o.z);
}

/// Whether `t` lies on or between any two crossings of a ray with the sides of a box along an axis.
pub open spec fn surely_within<C: Fn(Real, Real, Real) -> Real>(
    o: Real,
    d: Real,
    lo: Real,
    hi: Real,
    crossing: &C,
    t: Real,
) -> bool {
    if stays(d) {
        !outside(o, lo, hi)
    } else {
        forall|t1: Real, t2: Real| #[trigger]
            (*crossing).ensures((lo, o, d), t1) && #[trigger] (*crossing).ensures((hi, o, d), t2)
                ==> !t1.nan() && !t2.nan() && (t1.at_most(t) && t.at_most(t2) || t2.at_most(t)
                && t.at_most(t1))
    }
}

proof fn lemma_step_keeps<C: Fn(Real, Real, Real) -> Real>(
    o: Real,
    d: Real,
    lo: Real,
    hi: Real,
    crossing: &C,
    part: (Real, Real),
    after: Option<(Real, Real)>,
    t: Real,
)
    requires
        slab_step(o, d, lo, hi, crossing, part, after),
        surely_within(o, d, lo, hi, crossing, t),
        part.0.at_most(t),
        t.at_most(part.1),
    ensures
        after is Some,
        (after->0).0.at_most(t),
        t.at_most((after->0).1),
{
}

/// A ray that is inside of a box along every axis at some place ahead hits the box, there or
/// earlier.
pub proof fn rays_into_a_box_hit<C: Fn(Real, Real, Real) -> Real>(
    origin: Vec3,
    dir: Vec3,
    b: Aabb,
    crossing: &C,
    parts: Seq<Option<(Real, Real)>>,
    t: Real,
)
    requires
        slab_steps(origin, dir, b, crossing, parts),
        !t.nan(),
        !t.less(Real { bits: 0 }),
        forall|k: int|
            0 <= k < 3 ==> surely_within(
                #[trigger] coordinate(origin, k),
                coordinate(dir, k),
                coordinate(b.min, k),
                coordinate(b.max, k),
                crossing,
                t,
            ),
    ensures
        entry(parts[3]) is Some,
        (entry(parts[3])->0).at_most(t),
{
    lemma_steps(origin, dir, b, crossing, parts, 0);
    lemma_steps(origin, dir, b, crossing, parts, 1);
    lemma_steps(origin, dir, b, crossing, parts, 2);
    let o = origin;
    assert(coordinate(o, 0) == o.x && coordinate(o, 1) == o.y && coordinate(o, 2) == o.z);
    lemma_step_keeps(o.x, dir.x, b.min.x, b.max.x, crossing, parts[0]->0, parts[1], t);
    lemma_step_keeps(o.y, dir.y, b.min.y, b.max.y, crossing, parts[1]->0, parts[2], t);
    lemma_step_keeps(o.z, dir.z, b.min.z, b.max.z, crossing, parts[2]->0, parts[3], t);
}

/// A ray hits a triangle that is not edge-on where it comes to a place on it: with `u` and `v` not
/// below zero and not above one together, further than a millionth ahead. Anywhere else it misses.
pub proof fn triangles_are_hit_on_their_inside(m: TriangleHit)
    requires
        !m.u.nan() && !m.v.nan() && !m.uv.nan() && !m.t.nan(),
    ensures
        m.distance() is Some ==> m.distance() == Some(m.t),
        m.distance() is Some <==> {
            &&& m.det.magnitude() >= 0x322b_cc77
            &&& (Real { bits: 0 }).at_most(m.u) && m.u.at_most(Real { bits: 0x3f80_0000 })
            &&& (Real { bits: 0 }).at_most(m.v) && m.uv.at_most(Real { bits: 0x3f80_0000 })
            &&& Real { bits: 0x3586_37bd }.less(m.t)
        },
{
}

/// Whether `tri` is triangle `k` of a polygon: the first vertex, and two that follow each other.
pub open spec fn fan_triangle(face: Seq<u32>, k: int, tri: (u32, u32, u32)) -> bool {
    1 <= k < face.len() - 1 && tri == (face[0], face[k], face[k + 1])
}

/// Whether face `f` has a triangle `k`: one for each vertex between its first and its last.
pub open spec fn has_triangle(faces: Seq<Seq<u32>>, f: int, k: int) -> bool {
    0 <= f < faces.len() && 1 <= k < faces[f].len() - 1
}

/// The triangles of a mesh are those of its polygons.
pub proof fn meshes_are_drawn_as_fans(faces: Seq<Seq<u32>>)
    ensures
        forall|i: int|
            0 <= i < fans(faces).len() ==> {
                let (f, tri) = #[trigger] fans(faces)[i];
                0 <= f < faces.len() && exists|k: int| fan_triangle(faces[f], k, tri)
            },
        forall|f: int, k: int|
            #[trigger] has_triangle(faces, f, k) ==> fans(faces).contains(
                (f, (faces[f][0], faces[f][k], faces[f][k + 1])),
            ),
    decreases faces.len(),
{
    if faces.len() > 0 {
        let front = faces.drop_last();
        let last = faces.len() - 1;
        let all = fans(faces);
        let less = fans(front);
        meshes_are_drawn_as_fans(front);
        assert forall|i: int| 0 <= i < all.len() implies {
            let (f, tri) = #[trigger] all[i];
            0 <= f < faces.len() && exists|k: int| fan_triangle(faces[f], k, tri)
        } by {
            let (f, tri) = all[i];
            if i < less.len() {
                assert(less[i] == all[i]);
                let k = choose|k: int| fan_triangle(front[f], k, tri);
                assert(fan_triangle(faces[f], k, tri));
            } else {
                assert(fan_triangle(faces[f], i - less.len() + 1, tri));
            }
        }
        assert forall|f: int, k: int|
            #[trigger] has_triangle(faces, f, k) implies all.contains(
            (f, (faces[f][0], faces[f][k], faces[f][k + 1])),
        ) by {
            let want = (f, (faces[f][0], faces[f][k], faces[f][k + 1]));
            if f < last {
                assert(front[f] == faces[f]);
                assert(has_triangle(front, f, k));
                assert(less.contains(want));
                let i = less.index_of(want);
                assert(all[i] == want);
            } else {
                assert(all[less.len() + k - 1] == want);
            }
        }
    }
}

proof fn lemma_nearest(
    triangles: Seq<(int, (u32, u32, u32))>,
    hits: Seq<Option<Real>>,
    n: int,
)
    requires
        0 <= n <= triangles.len(),
        n <= hits.len(),
        forall|i: int| 0 <= i < n ==> ((#[trigger] hits[i]) matches Some(t) ==> !t.nan()),
    ensures
        match nearest(triangles, hits, n) {
            Some((f, t)) => !t.nan() && (exists|i: int|
                0 <= i < n && #[trigger] hits[i] == Some(t) && triangles[i].0 == f) && forall|i: int|
                0 <= i < n ==> ((#[trigger] hits[i]) matches Some(u) ==> !u.less(t)),
            None => forall|i: int| 0 <= i < n ==> (#[trigger] hits[i]) is None,
        },
    decreases n,
{
    if n > 0 {
        lemma_nearest(triangles, hits, n - 1);
        let before = nearest(triangles, hits, n - 1);
        let now = nearest(triangles, hits, n);
        if let Some((f, t)) = now {
            if now == before {
                let i = choose|i: int|
                    0 <= i < n - 1 && #[trigger] hits[i] == Some(t) && triangles[i].0 == f;
                assert(hits[i] == Some(t) && triangles[i].0 == f);
            } else {
                assert(hits[n - 1] == Some(t) && triangles[n - 1].0 == f);
            }
        }
    }
}

/// The face that a ray picks has a triangle that the ray hits at the picked distance, and no
/// triangle of any face is hit nearer. Where nothing is picked no triangle is hit.
pub proof fn rays_pick_the_nearest_face<M: Fn(Vec3, Vec3, Vec3, Vec3, Vec3) -> TriangleHit>(
    mesh: MeshModel,
    ray: (Vec3, Vec3),
    measure: &M,
    hits: Seq<Option<Real>>,
    r: Option<(usize, Real)>,
)
    requires
        mesh.faces.len() <= usize::MAX,
        picked(mesh, ray, measure, hits, r),
    ensures
        match r {
            Some((f, t)) => f < mesh.faces.len() && exists|k: int|
                has_triangle(mesh.faces, f as int, k) && #[trigger] hit_by(
                    mesh,
                    ray,
                    measure,
                    f as int,
                    k,
                    Some(t),
                ),
            None => true,
        },
        forall|f: int, k: int|
            #[trigger] has_triangle(mesh.faces, f, k) ==> exists|
                u: Option<Real>,
            | #[trigger]
                hit_by(mesh, ray, measure, f, k, u) && match (r, u) {
                    (Some(best), Some(d)) => !d.less(best.1),
                    (None, Some(_)) => false,
                    (_, None) => true,
                },
{
    let triangles = fans(mesh.faces);
    meshes_are_drawn_as_fans(mesh.faces);
    assert forall|i: int| 0 <= i < hits.len() implies ((#[trigger] hits[i]) matches Some(t)
        ==> !t.nan()) by {
        assert(hit_at(mesh.vertices, triangles[i].1, ray, measure, hits[i]));
    }
    lemma_nearest(triangles, hits, hits.len() as int);
    if let Some((f, t)) = r {
        let i = choose|i: int|
            0 <= i < hits.len() && #[trigger] hits[i] == Some(t) && triangles[i].0 == f;
        let (g, tri) = triangles[i];
        assert(hit_at(mesh.vertices, triangles[i].1, ray, measure, hits[i]));
        let k = choose|k: int| fan_triangle(mesh.faces[g], k, tri);
        assert(hit_by(mesh, ray, measure, f as int, k, Some(t)));
    }
    assert forall|f: int, k: int|
        #[trigger] has_triangle(mesh.faces, f, k) implies exists|
        u: Option<Real>,
    | #[trigger]
        hit_by(mesh, ray, measure, f, k, u) && match (r, u) {
            (Some(best), Some(d)) => !d.less(best.1),
            (None, Some(_)) => false,
            (_, None) => true,
        } by {
        let want = (f, (mesh.faces[f][0], mesh.faces[f][k], mesh.faces[f][k + 1]));
        assert(triangles.contains(want));
        let i = triangles.index_of(want);
        assert(hit_at(mesh.vertices, triangles[i].1, ray, measure, hits[i]));
        assert(hit_by(mesh, ray, measure, f, k, hits[i]));
    }
}

/// Whether a ray hits triangle `k` of face `f` at `at`, none where it does not.
pub open spec fn hit_by<M: Fn(Vec3, Vec3, Vec3, Vec3, Vec3) -> TriangleHit>(
    mesh: MeshModel,
    ray: (Vec3, Vec3),
    measure: &M,
    f: int,
    k: int,
    at: Option<Real>,
) -> bool {
    let face = mesh.faces[f];
    exists|m: TriangleHit| #[trigger]
        (*measure).ensures(
            (
                ray.0,
                ray.1,
                mesh.vertices[face[0] as int],
                mesh.vertices[face[k] as int],
                mesh.vertices[face[k + 1] as int],
            ),
            m,
        ) && at == m.distance()
}

/// Of triangles that are hit equally near the first counts: the picked one is hit nearer than all
/// that come before it.
pub proof fn the_first_of_equals_is_picked(
    triangles: Seq<(int, (u32, u32, u32))>,
    hits: Seq<Option<Real>>,
    n: int,
)
    requires
        0 <= n <= hits.len(),
        hits.len() == triangles.len(),
        forall|i: int| 0 <= i < hits.len() ==> ((#[trigger] hits[i]) matches Some(t) ==> !t.nan()),
    ensures
        match nearest(triangles, hits, n) {
            Some((f, t)) => exists|i: int|
                {
                    &&& 0 <= i < n && #[trigger] hits[i] == Some(t) && triangles[i].0 == f
                    &&& forall|j: int|
                        0 <= j < i ==> ((#[trigger] hits[j]) matches Some(u) ==> t.less(u))
                    &&& forall|j: int|
                        0 <= j < n ==> ((#[trigger] hits[j]) matches Some(u) ==> !u.less(t))
                },
            None => forall|j: int| 0 <= j < n ==> (#[trigger] hits[j]) is None,
        },
    decreases n,
{
    if n > 0 {
        the_first_of_equals_is_picked(triangles, hits, n - 1);
        let before = nearest(triangles, hits, n - 1);
        match (before, hits[n - 1]) {
            (Some(b), Some(t)) => {
                let i = choose|i: int|
                    {
                        &&& 0 <= i < n - 1 && #[trigger] hits[i] == Some(b.1) && triangles[i].0
                            == b.0
                        &&& forall|j: int|
                            0 <= j < i ==> ((#[trigger] hits[j]) matches Some(u) ==> b.1.less(u))
                        &&& forall|j: int|
                            0 <= j < n - 1 ==> ((#[trigger] hits[j]) matches Some(u) ==> !u.less(
                                b.1,
                            ))
                    };
                if t.less(b.1) {
                    assert(hits[n - 1] == Some(t));
                } else {
                    assert(hits[i] == Some(b.1));
                }
            },
            (None, Some(t)) => {
                assert(hits[n - 1] == Some(t));
            },
            _ => {},
        }
    }
}

} // verus!
