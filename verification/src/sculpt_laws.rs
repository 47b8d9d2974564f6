//! What sculpting promises, told vertex by vertex.
use crate::bevel_laws::{following, preceding};
use crate::brush::{
    brushed, corner_of, corners, corners_upto, drawn, felt, flattened, has_normals, levelled, levels,
    moves_any, neighbours, neighbours_upto, picked, pinched, smoothed, summed, Corner, Sculptor,
};
use crate::mesh::{outline, MeshModel};
use crate::number::{Real, Vec3};
use crate::subdivide_laws::{adjacent, has_side, joins};
use vstd::prelude::*;

verus! {

proof fn lemma_neighbours(faces: Seq<Seq<u32>>, f: int, k: int, v: u32, b: u32)
    requires
        0 <= f <= faces.len(),
        0 <= k,
        f == faces.len() ==> k == 0,
        f < faces.len() ==> k <= faces[f].len(),
    ensures
        neighbours_upto(faces, f, k, v as int).contains(b) <==> exists|g: int, j: int| #[trigger]
            joins(faces, g, j, v, b) && (g < f || (g == f && j < k)),
    decreases f, k,
{
    let now = neighbours_upto(faces, f, k, v as int);
    if k > 0 {
        lemma_neighbours(faces, f, k - 1, v, b);
        let rest = neighbours_upto(faces, f, k - 1, v as int);
        let x = faces[f][k - 1];
        let y = following(faces[f], k - 1);
        let one = if x == v {
            rest.push(y)
        } else {
            rest
        };
        assert(now == if y == v { one.push(x) } else { one });
        if rest.contains(b) {
            let i = rest.index_of(b);
            assert(one[i] == b && now[i] == b);
        }
        if x == v && y == b {
            assert(one[one.len() - 1] == b);
            assert(now[one.len() - 1] == b);
        }
        if y == v && x == b {
            assert(now[now.len() - 1] == b);
        }
        if now.contains(b) {
            let i = now.index_of(b);
            if i < rest.len() {
                assert(rest[i] == b);
                let (g, j) = choose|g: int, j: int| #[trigger]
                    joins(faces, g, j, v, b) && (g < f || (g == f && j < k - 1));
                assert(joins(faces, g, j, v, b));
            } else {
                assert(joins(faces, f, k - 1, v, b));
            }
        }
        if exists|g: int, j: int| #[trigger]
            joins(faces, g, j, v, b) && (g < f || (g == f && j < k)) {
            let (g, j) = choose|g: int, j: int| #[trigger]
                joins(faces, g, j, v, b) && (g < f || (g == f && j < k));
            if g == f && j == k - 1 {
            } else {
                assert(rest.contains(b));
            }
        }
    } else if f > 0 {
        let m = faces[f - 1].len() as int;
        lemma_neighbours(faces, f - 1, m, v, b);
        if now.contains(b) {
            let (g, j) = choose|g: int, j: int| #[trigger]
                joins(faces, g, j, v, b) && (g < f - 1 || (g == f - 1 && j < m));
            assert(joins(faces, g, j, v, b));
        }
        if exists|g: int, j: int| #[trigger]
            joins(faces, g, j, v, b) && (g < f || (g == f && j < k)) {
            let (g, j) = choose|g: int, j: int| #[trigger]
                joins(faces, g, j, v, b) && (g < f || (g == f && j < k));
            assert(g < f - 1 || (g == f - 1 && j < m));
        }
    }
}

/// The neighbours of a vertex are the vertices that some side joins it to, and no others.
pub proof fn neighbours_are_joined_by_sides(faces: Seq<Seq<u32>>, v: u32, b: u32)
    ensures
        neighbours(faces, v as int).contains(b) <==> adjacent(faces, v, b),
{
    lemma_neighbours(faces, faces.len() as int, 0, v, b);
    if adjacent(faces, v, b) {
        let (g, j) = choose|g: int, j: int| #[trigger] joins(faces, g, j, v, b);
        assert(g < faces.len());
    }
    if neighbours(faces, v as int).contains(b) {
        let (g, j) = choose|g: int, j: int| #[trigger]
            joins(faces, g, j, v, b) && (g < faces.len() || (g == faces.len() && j < 0));
        assert(joins(faces, g, j, v, b));
    }
}

spec fn cornered_upto(faces: Seq<Seq<u32>>, f: int, k: int, v: int) -> Seq<(int, int)>
    decreases f, k,
{
    if k > 0 {
        let rest = cornered_upto(faces, f, k - 1, v);
        if faces[f][k - 1] == v {
            rest.push((f, k - 1))
        } else {
            rest
        }
    } else if f > 0 {
        cornered_upto(faces, f - 1, faces[f - 1].len() as int, v)
    } else {
        Seq::empty()
    }
}

spec fn ahead_of(s: (int, int), f: int, k: int) -> bool {
    s.0 < f || (s.0 == f && s.1 < k)
}

proof fn lemma_cornered(mesh: MeshModel, normals: Seq<Vec3>, f: int, k: int, v: int)
    requires
        0 <= f <= mesh.faces.len(),
        0 <= k,
        f == mesh.faces.len() ==> k == 0,
        f < mesh.faces.len() ==> k <= mesh.faces[f].len(),
    ensures
        ({
            let s = cornered_upto(mesh.faces, f, k, v);
            let c = corners_upto(mesh, normals, f, k, v);
            &&& s.len() == c.len()
            &&& s.no_duplicates()
            &&& forall|i: int|
                0 <= i < s.len() ==> has_side(mesh.faces, (#[trigger] s[i]).0, s[i].1)
                    && mesh.faces[s[i].0][s[i].1] == v && ahead_of(s[i], f, k) && c[i] == corner_of(
                    mesh,
                    normals,
                    s[i].0,
                    s[i].1,
                )
            &&& forall|g: int, j: int| #[trigger]
                has_side(mesh.faces, g, j) && ahead_of((g, j), f, k) && mesh.faces[g][j] == v
                    ==> s.contains((g, j))
        }),
    decreases f, k,
{
    let faces = mesh.faces;
    let s = cornered_upto(faces, f, k, v);
    let c = corners_upto(mesh, normals, f, k, v);
    if k > 0 {
        lemma_cornered(mesh, normals, f, k - 1, v);
        let rest = cornered_upto(faces, f, k - 1, v);
        assert forall|i: int| 0 <= i < s.len() implies has_side(faces, (#[trigger] s[i]).0, s[i].1)
            && faces[s[i].0][s[i].1] == v && ahead_of(s[i], f, k) && c[i] == corner_of(
            mesh,
            normals,
            s[i].0,
            s[i].1,
        ) by {
            if i < rest.len() {
                assert(s[i] == rest[i]);
                assert(ahead_of(rest[i], f, k - 1));
            }
        }
        assert forall|i: int, j: int| 0 <= i < s.len() && 0 <= j < s.len() && i != j implies s[i]
            != s[j] by {
            if i < rest.len() && j < rest.len() {
                assert(rest[i] != rest[j]);
            } else if i < rest.len() {
                assert(ahead_of(rest[i], f, k - 1));
            } else {
                assert(ahead_of(rest[j], f, k - 1));
            }
        }
        assert forall|g: int, j: int| #[trigger] has_side(faces, g, j) && ahead_of((g, j), f, k)
            && faces[g][j] == v implies s.contains((g, j)) by {
            if g == f && j == k - 1 {
                assert(s[s.len() - 1] == (g, j));
            } else {
                assert(ahead_of((g, j), f, k - 1));
                assert(rest.contains((g, j)));
                let i = rest.index_of((g, j));
                assert(s[i] == (g, j));
            }
        }
    } else if f > 0 {
        let m = faces[f - 1].len() as int;
        lemma_cornered(mesh, normals, f - 1, m, v);
        assert forall|i: int| 0 <= i < s.len() implies has_side(faces, (#[trigger] s[i]).0, s[i].1)
            && faces[s[i].0][s[i].1] == v && ahead_of(s[i], f, k) && c[i] == corner_of(
            mesh,
            normals,
            s[i].0,
            s[i].1,
        ) by {
            assert(ahead_of(cornered_upto(faces, f - 1, m, v)[i], f - 1, m));
        }
        assert forall|g: int, j: int| #[trigger] has_side(faces, g, j) && ahead_of((g, j), f, k)
            && faces[g][j] == v implies s.contains((g, j)) by {
            assert(ahead_of((g, j), f - 1, m));
        }
    }
}

/// Whether corners are those that faces have at a vertex, each once: the normal of the face, the
/// position of the vertex before it, its own, and that of the vertex after it. `at` tells of which
/// face and which place in it each is.
pub open spec fn corners_at(
    mesh: MeshModel,
    normals: Seq<Vec3>,
    v: u32,
    cs: Seq<Corner>,
    at: Seq<(int, int)>,
) -> bool {
    &&& at.len() == cs.len()
    &&& at.no_duplicates()
    &&& forall|i: int|
        0 <= i < at.len() ==> {
            let (f, k) = #[trigger] at[i];
            &&& has_side(mesh.faces, f, k)
            &&& mesh.faces[f][k] == v
            &&& cs[i].normal == normals[f]
            &&& cs[i].before == mesh.vertices[preceding(mesh.faces[f], k) as int]
            &&& cs[i].at == mesh.vertices[v as int]
            &&& cs[i].after == mesh.vertices[following(mesh.faces[f], k) as int]
        }
    &&& forall|f: int, k: int| #[trigger]
        has_side(mesh.faces, f, k) && mesh.faces[f][k] == v ==> at.contains((f, k))
}

/// The normal at a vertex is made from all corners that faces have there.
pub proof fn normals_are_made_from_all_corners<
    N: Fn(Vec<Vec3>) -> Vec3,
    S: Fn(Vec<Corner>) -> Vec3,
>(mesh: MeshModel, normal: &N, sum: &S, out: Seq<Vec3>, v: u32)
    requires
        has_normals(mesh, normal, sum, out),
        v < mesh.vertices.len(),
    ensures
        out.len() == mesh.vertices.len(),
        exists|normals: Seq<Vec3>, given: Vec<Corner>, at: Seq<(int, int)>|
            {
                &&& #[trigger] corners_at(mesh, normals, v, given@, at)
                &&& (*sum).ensures((given,), out[v as int])
                &&& normals.len() == mesh.faces.len()
                &&& forall|f: int|
                    0 <= f < normals.len() ==> has_normal(mesh, normal, f, #[trigger] normals[f])
            },
{
    let normals = choose|normals: Seq<Vec3>| #[trigger] summed(mesh, normal, sum, normals, out);
    assert(crate::brush::sum_of(sum, corners(mesh, normals, v as int), out[v as int]));
    let given = choose|given: Vec<Corner>|
        given@ == corners(mesh, normals, v as int) && #[trigger] (*sum).ensures(
            (given,),
            out[v as int],
        );
    let at = cornered_upto(mesh.faces, mesh.faces.len() as int, 0, v as int);
    lemma_cornered(mesh, normals, mesh.faces.len() as int, 0, v as int);
    assert forall|f: int, k: int| #[trigger] has_side(mesh.faces, f, k) && mesh.faces[f][k] == v implies at.contains(
        (f, k),
    ) by {
        assert(ahead_of((f, k), mesh.faces.len() as int, 0));
    }
    assert(corners_at(mesh, normals, v, given@, at));
    assert forall|f: int| 0 <= f < normals.len() implies has_normal(
        mesh,
        normal,
        f,
        #[trigger] normals[f],
    ) by {
        assert(crate::mesh::made_from(
            *normal,
            outline(mesh.vertices, mesh.faces[f]),
            normals[f],
        ));
        let points = choose|points: Vec<Vec3>|
            points@ == outline(mesh.vertices, mesh.faces[f]) && #[trigger] (*normal).ensures(
                (points,),
                normals[f],
            );
        assert forall|k: int| 0 <= k < points.len() implies #[trigger] points[k]
            == mesh.vertices[mesh.faces[f][k] as int] by {
            assert(points@[k] == outline(mesh.vertices, mesh.faces[f])[k]);
        }
    }
}

/// Whether `n` is the normal of face `f`: what `normal` makes of the positions around it.
pub open spec fn has_normal<N: Fn(Vec<Vec3>) -> Vec3>(
    mesh: MeshModel,
    normal: &N,
    f: int,
    n: Vec3,
) -> bool {
    exists|points: Vec<Vec3>|
        {
            &&& #[trigger] (*normal).ensures((points,), n)
            &&& points.len() == mesh.faces[f].len()
            &&& forall|k: int|
                0 <= k < points.len() ==> #[trigger] points[k]
                    == mesh.vertices[mesh.faces[f][k] as int]
        }
}

/// Whether a stroke changed a mesh by `change` alone: the faces are as they were, each vertex that
/// the brush does not touch is where it was, each that it touches is where `change` puts it from
/// its number and how strongly it is touched, and `moved` tells whether any is touched.
pub open spec fn touched_by<H: Fn(Vec3, Vec3, Real) -> Option<Real>>(
    before: MeshModel,
    after: MeshModel,
    moved: bool,
    at: Vec3,
    radius: Real,
    fall: &H,
    change: spec_fn(int, Real, Vec3) -> bool,
) -> bool {
    &&& after.faces == before.faces
    &&& after.vertices.len() == before.vertices.len()
    &&& forall|i: int|
        0 <= i < before.vertices.len() ==> touched_or_not(
            before,
            at,
            radius,
            fall,
            change,
            i,
            #[trigger] after.vertices[i],
        )
    &&& !moved ==> after == before
}

/// Whether vertex `i` is where a brush leaves it.
pub open spec fn touched_or_not<H: Fn(Vec3, Vec3, Real) -> Option<Real>>(
    before: MeshModel,
    at: Vec3,
    radius: Real,
    fall: &H,
    change: spec_fn(int, Real, Vec3) -> bool,
    i: int,
    q: Vec3,
) -> bool {
    let p = before.vertices[i];
    exists|f: Option<Real>| #[trigger]
        (*fall).ensures((p, at, radius), f) && match f {
            Some(x) => change(i, x, q),
            None => q == p,
        }
}

proof fn lemma_touched<H: Fn(Vec3, Vec3, Real) -> Option<Real>>(
    before: MeshModel,
    after: MeshModel,
    moved: bool,
    at: Vec3,
    radius: Real,
    fall: &H,
    change: spec_fn(int, Real, Vec3) -> bool,
    falls: Seq<Option<Real>>,
    moves: Seq<Option<Vec3>>,
)
    requires
        felt(before.vertices, at, radius, fall, falls),
        brushed(before, after, moves),
        moved == moves_any(moves),
        forall|i: int|
            0 <= i < moves.len() ==> match falls[i] {
                Some(f) => match #[trigger] moves[i] {
                    Some(q) => change(i, f, q),
                    None => change(i, f, before.vertices[i]),
                },
                None => moves[i] is None,
            },
    ensures
        touched_by(before, after, moved, at, radius, fall, change),
{
    assert forall|i: int| 0 <= i < before.vertices.len() implies touched_or_not(
        before,
        at,
        radius,
        fall,
        change,
        i,
        #[trigger] after.vertices[i],
    ) by {
        assert((*fall).ensures((before.vertices[i], at, radius), falls[i]));
        let m = moves[i];
        assert(after.vertices[i] == match m {
            Some(q) => q,
            None => before.vertices[i],
        });
    }
    if !moved {
        assert forall|i: int| 0 <= i < before.vertices.len() implies #[trigger] after.vertices[i]
            == before.vertices[i] by {
            assert(moves[i] is None);
        }
        assert(after.vertices =~= before.vertices);
    }
}

/// Whether a stroke pushed the vertices that it touches along normals.
pub open spec fn pushes<
    H: Fn(Vec3, Vec3, Real) -> Option<Real>,
    D: Fn(Vec3, Vec3, Real, Real) -> Vec3,
>(
    before: MeshModel,
    after: MeshModel,
    moved: bool,
    at: Vec3,
    radius: Real,
    strength: Real,
    fall: &H,
    push: &D,
    normals: Seq<Vec3>,
) -> bool {
    touched_by(
        before,
        after,
        moved,
        at,
        radius,
        fall,
        |i: int, f: Real, q: Vec3|
            (*push).ensures((before.vertices[i], normals[i], strength, f), q),
    )
}

/// Whether a stroke pulled the vertices that it touches toward its center.
pub open spec fn pulls<
    H: Fn(Vec3, Vec3, Real) -> Option<Real>,
    I: Fn(Vec3, Vec3, Real, Real) -> Vec3,
>(
    before: MeshModel,
    after: MeshModel,
    moved: bool,
    at: Vec3,
    radius: Real,
    strength: Real,
    fall: &H,
    pull: &I,
) -> bool {
    touched_by(
        before,
        after,
        moved,
        at,
        radius,
        fall,
        |i: int, f: Real, q: Vec3| (*pull).ensures((before.vertices[i], at, strength, f), q),
    )
}

/// Whether a stroke eased the vertices that it touches toward their neighbours.
pub open spec fn eases<
    H: Fn(Vec3, Vec3, Real) -> Option<Real>,
    E: Fn(Vec3, Vec<Vec3>, Real, Real) -> Vec3,
>(
    before: MeshModel,
    after: MeshModel,
    moved: bool,
    at: Vec3,
    radius: Real,
    factor: Real,
    fall: &H,
    ease: &E,
) -> bool {
    touched_by(
        before,
        after,
        moved,
        at,
        radius,
        fall,
        |i: int, f: Real, q: Vec3| eased_among_neighbours(before, ease, factor, i, f, q),
    )
}

/// Drawing pushes every vertex that the brush touches along the normal it has, and no other.
pub proof fn drawing_pushes_along_the_normals<
    W,
    A: Fn(W, Vec3) -> Vec3,
    H: Fn(Vec3, Vec3, Real) -> Option<Real>,
    N: Fn(Vec<Vec3>) -> Vec3,
    S: Fn(Vec<Corner>) -> Vec3,
    D: Fn(Vec3, Vec3, Real, Real) -> Vec3,
    E: Fn(Vec3, Vec<Vec3>, Real, Real) -> Vec3,
    T: Fn(Vec3, Vec3, Real) -> bool,
    L: Fn(Vec<Vec3>) -> Option<Vec3>,
    P: Fn(Vec3, Vec3, Vec3, Real, Real) -> Vec3,
    I: Fn(Vec3, Vec3, Real, Real) -> Vec3,
>(
    before: MeshModel,
    after: MeshModel,
    moved: bool,
    center: Vec3,
    radius: Real,
    strength: Real,
    world: W,
    by: &Sculptor<A, H, N, S, D, E, T, L, P, I>,
)
    requires
        drawn(before, after, moved, center, radius, strength, world, by),
    ensures
        exists|at: Vec3, normals: Seq<Vec3>|
            {
                &&& by.local.ensures((world, center), at)
                &&& #[trigger] has_normals(before, &by.normal, &by.sum, normals)
                &&& #[trigger] pushes(
                    before,
                    after,
                    moved,
                    at,
                    radius,
                    strength,
                    &by.fall,
                    &by.push,
                    normals,
                )
            },
{
    let (at, normals, falls, moves) = choose|
        at: Vec3,
        normals: Seq<Vec3>,
        falls: Seq<Option<Real>>,
        moves: Seq<Option<Vec3>>,
    |
        {
            &&& by.local.ensures((world, center), at)
            &&& #[trigger] has_normals(before, &by.normal, &by.sum, normals)
            &&& #[trigger] felt(before.vertices, at, radius, &by.fall, falls)
            &&& #[trigger] brushed(before, after, moves)
            &&& moved == moves_any(moves)
            &&& forall|i: int|
                0 <= i < moves.len() ==> crate::brush::pushed(
                    before,
                    normals,
                    strength,
                    &by.push,
                    falls[i],
                    i,
                    #[trigger] moves[i],
                )
        };
    let change = |i: int, f: Real, q: Vec3|
        by.push.ensures((before.vertices[i], normals[i], strength, f), q);
    lemma_touched(before, after, moved, at, radius, &by.fall, change, falls, moves);
    assert(pushes(before, after, moved, at, radius, strength, &by.fall, &by.push, normals));
}

/// Pinching pulls every vertex that the brush touches toward its center, and no other.
pub proof fn pinching_pulls_toward_the_center<
    W,
    A: Fn(W, Vec3) -> Vec3,
    H: Fn(Vec3, Vec3, Real) -> Option<Real>,
    N: Fn(Vec<Vec3>) -> Vec3,
    S: Fn(Vec<Corner>) -> Vec3,
    D: Fn(Vec3, Vec3, Real, Real) -> Vec3,
    E: Fn(Vec3, Vec<Vec3>, Real, Real) -> Vec3,
    T: Fn(Vec3, Vec3, Real) -> bool,
    L: Fn(Vec<Vec3>) -> Option<Vec3>,
    P: Fn(Vec3, Vec3, Vec3, Real, Real) -> Vec3,
    I: Fn(Vec3, Vec3, Real, Real) -> Vec3,
>(
    before: MeshModel,
    after: MeshModel,
    moved: bool,
    center: Vec3,
    radius: Real,
    strength: Real,
    world: W,
    by: &Sculptor<A, H, N, S, D, E, T, L, P, I>,
)
    requires
        pinched(before, after, moved, center, radius, strength, world, by),
    ensures
        exists|at: Vec3|
            by.local.ensures((world, center), at) && #[trigger] pulls(
                before,
                after,
                moved,
                at,
                radius,
                strength,
                &by.fall,
                &by.pull,
            ),
{
    let (at, falls, moves) = choose|at: Vec3, falls: Seq<Option<Real>>, moves: Seq<Option<Vec3>>|
        {
            &&& by.local.ensures((world, center), at)
            &&& #[trigger] felt(before.vertices, at, radius, &by.fall, falls)
            &&& #[trigger] brushed(before, after, moves)
            &&& moved == moves_any(moves)
            &&& forall|i: int|
                0 <= i < moves.len() ==> crate::brush::pulled(
                    before,
                    at,
                    strength,
                    &by.pull,
                    falls[i],
                    i,
                    #[trigger] moves[i],
                )
        };
    let change = |i: int, f: Real, q: Vec3|
        by.pull.ensures((before.vertices[i], at, strength, f), q);
    lemma_touched(before, after, moved, at, radius, &by.fall, change, falls, moves);
    assert(pulls(before, after, moved, at, radius, strength, &by.fall, &by.pull));
}

/// Whether smoothing puts vertex `i` at `q`: toward the positions of the vertices that sides join it
/// to, and where it was if there are none.
pub open spec fn eased_among_neighbours<E: Fn(Vec3, Vec<Vec3>, Real, Real) -> Vec3>(
    mesh: MeshModel,
    ease: &E,
    factor: Real,
    i: int,
    f: Real,
    q: Vec3,
) -> bool {
    if exists|b: u32| #[trigger] adjacent(mesh.faces, i as u32, b) {
        exists|given: Vec<Vec3>, who: Seq<u32>|
            {
                &&& #[trigger] (*ease).ensures((mesh.vertices[i], given, factor, f), q)
                &&& #[trigger] outline(mesh.vertices, who) == given@
                &&& forall|b: u32| #[trigger] who.contains(b) <==> adjacent(mesh.faces, i as u32, b)
            }
    } else {
        q == mesh.vertices[i]
    }
}

/// Smoothing eases every vertex that the brush touches toward its neighbours, all as they were before
/// the stroke, and no other.
pub proof fn smoothing_eases_among_neighbours<
    W,
    A: Fn(W, Vec3) -> Vec3,
    H: Fn(Vec3, Vec3, Real) -> Option<Real>,
    N: Fn(Vec<Vec3>) -> Vec3,
    S: Fn(Vec<Corner>) -> Vec3,
    D: Fn(Vec3, Vec3, Real, Real) -> Vec3,
    E: Fn(Vec3, Vec<Vec3>, Real, Real) -> Vec3,
    T: Fn(Vec3, Vec3, Real) -> bool,
    L: Fn(Vec<Vec3>) -> Option<Vec3>,
    P: Fn(Vec3, Vec3, Vec3, Real, Real) -> Vec3,
    I: Fn(Vec3, Vec3, Real, Real) -> Vec3,
>(
    before: MeshModel,
    after: MeshModel,
    moved: bool,
    center: Vec3,
    radius: Real,
    factor: Real,
    world: W,
    by: &Sculptor<A, H, N, S, D, E, T, L, P, I>,
)
    requires
        before.vertices.len() <= u32::MAX,
        smoothed(before, after, moved, center, radius, factor, world, by),
    ensures
        exists|at: Vec3|
            by.local.ensures((world, center), at) && #[trigger] eases(
                before,
                after,
                moved,
                at,
                radius,
                factor,
                &by.fall,
                &by.ease,
            ),
{
    let (at, falls, moves) = choose|at: Vec3, falls: Seq<Option<Real>>, moves: Seq<Option<Vec3>>|
        {
            &&& by.local.ensures((world, center), at)
            &&& #[trigger] felt(before.vertices, at, radius, &by.fall, falls)
            &&& #[trigger] brushed(before, after, moves)
            &&& moved == moves_any(moves)
            &&& forall|i: int|
                0 <= i < moves.len() ==> crate::brush::eased(
                    before,
                    factor,
                    &by.ease,
                    falls[i],
                    i,
                    #[trigger] moves[i],
                )
        };
    let change = |i: int, f: Real, q: Vec3|
        eased_among_neighbours(before, &by.ease, factor, i, f, q);
    assert forall|i: int| 0 <= i < moves.len() implies match falls[i] {
        Some(f) => match #[trigger] moves[i] {
            Some(q) => change(i, f, q),
            None => change(i, f, before.vertices[i]),
        },
        None => moves[i] is None,
    } by {
        assert(crate::brush::eased(before, factor, &by.ease, falls[i], i, moves[i]));
        let who = neighbours(before.faces, i);
        assert(i as u32 as int == i);
        assert forall|b: u32| #[trigger] who.contains(b) <==> adjacent(
            before.faces,
            i as u32,
            b,
        ) by {
            neighbours_are_joined_by_sides(before.faces, i as u32, b);
        }
        if who.len() > 0 {
            assert(who.contains(who[0]));
            assert(adjacent(before.faces, i as u32, who[0]));
            if let Some(f) = falls[i] {
                let q = moves[i]->0;
                assert(crate::brush::eased_to(before, factor, &by.ease, f, i, q));
                let given = choose|given: Vec<Vec3>|
                    given@ == outline(before.vertices, neighbours(before.faces, i))
                        && #[trigger] by.ease.ensures(
                        (before.vertices[i], given, factor, f),
                        q,
                    );
                assert(outline(before.vertices, who) == given@);
                assert(eased_among_neighbours(before, &by.ease, factor, i, f, q));
            }
        } else if exists|b: u32| #[trigger] adjacent(before.faces, i as u32, b) {
            let b = choose|b: u32| #[trigger] adjacent(before.faces, i as u32, b);
            assert(who.contains(b));
        }
    }
    lemma_touched(before, after, moved, at, radius, &by.fall, change, falls, moves);
    assert(eases(before, after, moved, at, radius, factor, &by.fall, &by.ease));
}

proof fn lemma_picked(normals: Seq<Vec3>, inside: Seq<bool>, n: int)
    requires
        0 <= n <= inside.len(),
        n <= normals.len(),
    ensures
        ({
            let all = picked(normals, inside, n);
            exists|who: Seq<int>| #[trigger]
                lists_inside(inside, n, who) && all.len() == who.len() && forall|i: int|
                    0 <= i < who.len() ==> #[trigger] all[i] == normals[who[i]]
        }),
    decreases n,
{
    if n > 0 {
        lemma_picked(normals, inside, n - 1);
        let less = picked(normals, inside, n - 1);
        let some = choose|who: Seq<int>| #[trigger]
            lists_inside(inside, n - 1, who) && less.len() == who.len() && forall|i: int|
                0 <= i < who.len() ==> #[trigger] less[i] == normals[who[i]];
        let who = if inside[n - 1] {
            some.push(n - 1)
        } else {
            some
        };
        let all = picked(normals, inside, n);
        assert forall|k: int| 0 <= k < n && #[trigger] inside[k] implies who.contains(k) by {
            if k < n - 1 {
                assert(some.contains(k));
                let i = some.index_of(k);
                assert(who[i] == k);
            } else {
                assert(who[who.len() - 1] == k);
            }
        }
        assert(lists_inside(inside, n, who));
        assert forall|i: int| 0 <= i < who.len() implies #[trigger] all[i] == normals[who[i]] by {
            if i < some.len() {
                assert(all[i] == less[i]);
            }
        }
    } else {
        assert(lists_inside(inside, n, Seq::empty()));
    }
}

/// Whether `who` lists which of the first `n` vertices are inside of a brush, in order.
pub open spec fn lists_inside(inside: Seq<bool>, n: int, who: Seq<int>) -> bool {
    &&& forall|i: int, j: int| 0 <= i < j < who.len() ==> (#[trigger] who[i]) < (#[trigger] who[j])
    &&& forall|i: int| 0 <= i < who.len() ==> 0 <= (#[trigger] who[i]) < n && inside[who[i]]
    &&& forall|k: int| 0 <= k < n && #[trigger] inside[k] ==> who.contains(k)
}

/// Flattening presses every vertex that the brush touches toward a plane through its center, and no
/// other. The plane is made from the normals at exactly those vertices that lie inside the brush.
pub proof fn flattening_presses_toward_a_plane<
    W,
    A: Fn(W, Vec3) -> Vec3,
    H: Fn(Vec3, Vec3, Real) -> Option<Real>,
    N: Fn(Vec<Vec3>) -> Vec3,
    S: Fn(Vec<Corner>) -> Vec3,
    D: Fn(Vec3, Vec3, Real, Real) -> Vec3,
    E: Fn(Vec3, Vec<Vec3>, Real, Real) -> Vec3,
    T: Fn(Vec3, Vec3, Real) -> bool,
    L: Fn(Vec<Vec3>) -> Option<Vec3>,
    P: Fn(Vec3, Vec3, Vec3, Real, Real) -> Vec3,
    I: Fn(Vec3, Vec3, Real, Real) -> Vec3,
>(
    before: MeshModel,
    after: MeshModel,
    moved: bool,
    center: Vec3,
    radius: Real,
    strength: Real,
    world: W,
    by: &Sculptor<A, H, N, S, D, E, T, L, P, I>,
)
    requires
        flattened(before, after, moved, center, radius, strength, world, by),
    ensures
        exists|at: Vec3, normals: Seq<Vec3>, inside: Seq<bool>, who: Seq<int>, given: Vec<Vec3>, plane: Option<Vec3>|
            {
                &&& by.local.ensures((world, center), at)
                &&& #[trigger] has_normals(before, &by.normal, &by.sum, normals)
                &&& inside.len() == before.vertices.len()
                &&& forall|i: int|
                    0 <= i < inside.len() ==> by.touches.ensures(
                        (before.vertices[i], at, radius),
                        #[trigger] inside[i],
                    )
                &&& #[trigger] lists_inside(inside, inside.len() as int, who)
                &&& given.len() == who.len()
                &&& forall|i: int|
                    0 <= i < who.len() ==> #[trigger] given[i] == normals[who[i]]
                &&& #[trigger] by.level.ensures((given,), plane)
                &&& plane is None ==> !moved && after == before
                &&& #[trigger] presses_or_not(before, after, moved, at, radius, strength, &by.fall, &by.press, plane)
            },
{
    let (at, normals, inside, plane) = choose|
        at: Vec3,
        normals: Seq<Vec3>,
        inside: Seq<bool>,
        plane: Option<Vec3>,
    |
        {
            &&& by.local.ensures((world, center), at)
            &&& #[trigger] levelled(before, at, radius, by, normals, inside, plane)
            &&& match plane {
                Some(n) => levels(
                    before,
                    after,
                    moved,
                    n,
                    at,
                    radius,
                    strength,
                    &by.fall,
                    &by.press,
                ),
                None => !moved && after == before,
            }
        };
    let n = inside.len() as int;
    let given = choose|given: Vec<Vec3>|
        given@ == picked(normals, inside, n) && #[trigger] by.level.ensures((given,), plane);
    assert(normals.len() == before.vertices.len()) by {
        let faces = choose|faces: Seq<Vec3>| #[trigger]
            summed(before, &by.normal, &by.sum, faces, normals);
    }
    lemma_picked(normals, inside, n);
    let all = picked(normals, inside, n);
    let who = choose|who: Seq<int>| #[trigger]
        lists_inside(inside, n, who) && all.len() == who.len() && forall|i: int|
            0 <= i < who.len() ==> #[trigger] all[i] == normals[who[i]];
    assert forall|i: int| 0 <= i < who.len() implies #[trigger] given[i] == normals[who[i]] by {
        assert(given@[i] == all[i]);
    }
    if let Some(p) = plane {
        let (falls, moves) = choose|falls: Seq<Option<Real>>, moves: Seq<Option<Vec3>>|
            {
                &&& #[trigger] felt(before.vertices, at, radius, &by.fall, falls)
                &&& #[trigger] brushed(before, after, moves)
                &&& moved == moves_any(moves)
                &&& forall|i: int|
                    0 <= i < moves.len() ==> crate::brush::pressed(
                        before,
                        p,
                        at,
                        strength,
                        &by.press,
                        falls[i],
                        i,
                        #[trigger] moves[i],
                    )
            };
        let change = |i: int, f: Real, q: Vec3|
            by.press.ensures((before.vertices[i], p, at, strength, f), q);
        lemma_touched(before, after, moved, at, radius, &by.fall, change, falls, moves);
    }
    assert(presses_or_not(before, after, moved, at, radius, strength, &by.fall, &by.press, plane));
}

/// Whether a mesh is pressed toward a plane with a normal, where there is one.
pub open spec fn presses_or_not<
    H: Fn(Vec3, Vec3, Real) -> Option<Real>,
    P: Fn(Vec3, Vec3, Vec3, Real, Real) -> Vec3,
>(
    before: MeshModel,
    after: MeshModel,
    moved: bool,
    at: Vec3,
    radius: Real,
    strength: Real,
    fall: &H,
    press: &P,
    plane: Option<Vec3>,
) -> bool {
    plane matches Some(n) ==> touched_by(
        before,
        after,
        moved,
        at,
        radius,
        fall,
        |i: int, f: Real, q: Vec3|
            (*press).ensures((before.vertices[i], n, at, strength, f), q),
    )
}

} // verus!
