//! Skeletons, skins and their binding to meshes.
use crate::mesh::{copy_faces, Mesh};
use crate::number::{Quat, Real, Vec3, ONE_BITS, ZERO_BITS};
use crate::spine::{is_spine_line, spine_line};
use crate::text::{append_decimal3, decimal3};
use vstd::prelude::*;
use vstd::string::StringExecFns;

verus! {

/// A bone of a skeleton. `head` and `tail` are rest positions in the space of the object, and
/// `pose` turns the bone about its head.
#[derive(Debug)]
pub struct Bone {
    pub name: String,
    pub head: Vec3,
    pub tail: Vec3,
    /// The parent bone, none for a root.
    pub parent: Option<usize>,
    pub pose: Quat,
}

/// Per vertex up to four bones and their weights.
#[derive(Debug)]
pub struct Skin {
    pub indices: Vec<[u32; 4]>,
    pub weights: Vec<[Real; 4]>,
}

/// An ordered list of bones.
#[derive(Debug)]
pub struct Skeleton {
    pub bones: Vec<Bone>,
}

/// The rotation that turns nothing.
pub open spec fn unturned() -> Quat {
    Quat {
        x: Real { bits: ZERO_BITS },
        y: Real { bits: ZERO_BITS },
        z: Real { bits: ZERO_BITS },
        w: Real { bits: ONE_BITS },
    }
}

/// The rotation that turns nothing.
pub fn quat_identity() -> (r: Quat)
    ensures
        r == unturned(),
{
    Quat {
        x: Real { bits: ZERO_BITS },
        y: Real { bits: ZERO_BITS },
        z: Real { bits: ZERO_BITS },
        w: Real { bits: ONE_BITS },
    }
}

impl Bone {
    /// A bone at rest.
    pub fn new(name: String, head: Vec3, tail: Vec3, parent: Option<usize>) -> (r: Bone)
        ensures
            r.name == name,
            r.head == head,
            r.tail == tail,
            r.parent == parent,
            r.pose == unturned(),
    {
        Bone { name, head, tail, parent, pose: quat_identity() }
    }

    /// A copy of the bone.
    pub fn copy(&self) -> (r: Bone)
        ensures
            r == *self,
    {
        Bone {
            name: self.name.clone(),
            head: self.head,
            tail: self.tail,
            parent: self.parent,
            pose: self.pose,
        }
    }
}

/// Whether every bone comes after its parent.
pub open spec fn parents_first(bones: Seq<Bone>) -> bool {
    forall|i: int|
        0 <= i < bones.len() ==> ((#[trigger] bones[i]).parent matches Some(p) ==> p < i)
}

/// The head of the parent of bone `i`, none for a root.
pub open spec fn parent_head(bones: Seq<Bone>, i: int) -> Option<Vec3> {
    match bones[i].parent {
        Some(p) => Some(bones[p as int].head),
        None => None,
    }
}

/// Whether `out` holds the posed transforms of the bones: the local one for a root, and for
/// every other bone the transform of its parent composed with the local one.
pub open spec fn posed<T, L: Fn(Vec3, Option<Vec3>, Quat) -> T, C: Fn(T, T) -> T>(
    bones: Seq<Bone>,
    local: L,
    compose: C,
    locals: Seq<T>,
    out: Seq<T>,
) -> bool {
    &&& locals.len() == bones.len()
    &&& out.len() == bones.len()
    &&& forall|i: int|
        0 <= i < bones.len() ==> local.ensures(
            (bones[i].head, parent_head(bones, i), bones[i].pose),
            #[trigger] locals[i],
        )
    &&& forall|i: int|
        0 <= i < bones.len() ==> match bones[i].parent {
            Some(p) => compose.ensures((out[p as int], locals[i]), #[trigger] out[i]),
            None => out[i] == locals[i],
        }
}

/// Whether `made` holds what `bind` makes of the posed and the rest transform of each bone.
pub open spec fn bound<
    T,
    F: Fn(Vec3) -> T,
    L: Fn(Vec3, Option<Vec3>, Quat) -> T,
    C: Fn(T, T) -> T,
    B: Fn(T, T) -> T,
>(
    bones: Seq<Bone>,
    place: F,
    local: L,
    compose: C,
    bind: B,
    rest: Seq<T>,
    locals: Seq<T>,
    out: Seq<T>,
    made: Seq<T>,
) -> bool {
    &&& posed(bones, local, compose, locals, out)
    &&& rest.len() == bones.len()
    &&& forall|i: int|
        0 <= i < rest.len() ==> place.ensures((bones[i].head,), #[trigger] rest[i])
    &&& made.len() == bones.len()
    &&& forall|i: int| 0 <= i < made.len() ==> bind.ensures((out[i], rest[i]), #[trigger] made[i])
}

/// Whether `made` holds the skinning transforms of the bones.
pub open spec fn skinning<
    T,
    F: Fn(Vec3) -> T,
    L: Fn(Vec3, Option<Vec3>, Quat) -> T,
    C: Fn(T, T) -> T,
    B: Fn(T, T) -> T,
>(bones: Seq<Bone>, place: F, local: L, compose: C, bind: B, made: Seq<T>) -> bool {
    exists|rest: Seq<T>, locals: Seq<T>, out: Seq<T>| #[trigger]
        bound(bones, place, local, compose, bind, rest, locals, out, made)
}

/// The name of bone `i` of a spine.
pub open spec fn spine_name(i: nat) -> Seq<char> {
    "Bone."@ + decimal3(i)
}

/// Whether `bones` is a spine of `n` bones along a line: each the child of the one before, named by
/// its number, at rest, and from one of the points where `along` puts the ends of `n` equal parts
/// of the line to the next.
pub open spec fn is_spine<L: Fn(Vec3, Vec3, usize, usize) -> Vec3>(
    bones: Seq<Bone>,
    n: int,
    line: (Vec3, Vec3),
    along: &L,
) -> bool {
    &&& bones.len() == n
    &&& forall|i: int|
        0 <= i < n ==> {
            &&& (#[trigger] bones[i]).name@ == spine_name(i as nat)
            &&& bones[i].parent == if i == 0 {
                None::<usize>
            } else {
                Some((i - 1) as usize)
            }
            &&& bones[i].pose == unturned()
            &&& (*along).ensures((line.0, line.1, i as usize, n as usize), bones[i].head)
            &&& (*along).ensures((line.0, line.1, (i + 1) as usize, n as usize), bones[i].tail)
        }
}

/// Whether `bones` is the spine of a mesh: along the middle of the box around its vertices, where
/// that is longest, of `n` bones, at least two.
pub open spec fn spine_of<
    S: Fn(Real, Real) -> Real,
    M: Fn(Real, Real) -> Real,
    L: Fn(Vec3, Vec3, usize, usize) -> Vec3,
>(vertices: Seq<Vec3>, n_bones: u32, side: &S, middle: &M, along: &L, bones: Seq<Bone>) -> bool {
    exists|line: (Vec3, Vec3)| #[trigger]
        is_spine_line(vertices, side, middle, line) && is_spine(
            bones,
            if n_bones < 2 {
                2
            } else {
                n_bones as int
            },
            line,
            along,
        )
}

/// Whether `i` is the first of the nearest, apart from `skip`.
pub open spec fn is_nearest(dists: Seq<Real>, skip: int, i: int) -> bool {
    &&& 0 <= i < dists.len()
    &&& i != skip
    &&& forall|j: int| 0 <= j < dists.len() && j != skip ==> !(#[trigger] dists[j]).less(dists[i])
    &&& forall|j: int| 0 <= j < i && j != skip ==> dists[i].less(#[trigger] dists[j])
}

impl Skeleton {
    /// A skeleton without bones.
    pub fn empty() -> (r: Skeleton)
        ensures
            r.bones@.len() == 0,
    {
        Skeleton { bones: Vec::new() }
    }

    /// A copy of the skeleton.
    pub fn copy(&self) -> (r: Skeleton)
        ensures
            r.bones@ == self.bones@,
    {
        let mut bones: Vec<Bone> = Vec::new();
        let mut i: usize = 0;
        while i < self.bones.len()
            invariant
                i <= self.bones.len(),
                bones@ == self.bones@.take(i as int),
            decreases self.bones.len() - i,
        {
            bones.push(self.bones[i].copy());
            assert(bones@ =~= self.bones@.take(i + 1));
            i = i + 1;
        }
        assert(self.bones@.take(i as int) =~= self.bones@);
        Skeleton { bones }
    }

    /// Rest head of bone `i`.
    pub fn world_head(&self, i: usize) -> (r: Vec3)
        requires
            i < self.bones.len(),
        ensures
            r == self.bones[i as int].head,
    {
        self.bones[i].head
    }

    /// Rest tail of bone `i`.
    pub fn world_tail(&self, i: usize) -> (r: Vec3)
        requires
            i < self.bones.len(),
        ensures
            r == self.bones[i as int].tail,
    {
        self.bones[i].tail
    }

    /// The rest transform of each bone, where `place` puts its head.
    pub fn rest_globals<T, F: Fn(Vec3) -> T>(&self, place: &F) -> (r: Vec<T>)
        requires
            forall|p: Vec3| place.requires((p,)),
        ensures
            r.len() == self.bones.len(),
            forall|i: int|
                0 <= i < r.len() ==> place.ensures((self.bones[i].head,), #[trigger] r[i]),
    {
        let mut out: Vec<T> = Vec::new();
        let mut i: usize = 0;
        while i < self.bones.len()
            invariant
                i <= self.bones.len(),
                out.len() == i,
                forall|p: Vec3| place.requires((p,)),
                forall|j: int|
                    0 <= j < i ==> place.ensures((self.bones[j].head,), #[trigger] out[j]),
            decreases self.bones.len() - i,
        {
            out.push(place(self.bones[i].head));
            i = i + 1;
        }
        out
    }

    /// The posed transform of each bone, from parents to children. `local` gives the
    /// transform of a bone relative to its parent from its head, the head of its parent and
    /// its pose, and `compose` puts it behind the transform of the parent.
    pub fn pose_globals<T: Copy, L: Fn(Vec3, Option<Vec3>, Quat) -> T, C: Fn(T, T) -> T>(
        &self,
        local: &L,
        compose: &C,
    ) -> (r: Vec<T>)
        requires
            parents_first(self.bones@),
            forall|p: Vec3, q: Option<Vec3>, t: Quat| local.requires((p, q, t)),
            forall|a: T, b: T| compose.requires((a, b)),
        ensures
            exists|locals: Seq<T>| #[trigger]
                posed(self.bones@, *local, *compose, locals, r@),
    {
        let ghost mut locals: Seq<T> = Seq::empty();
        let mut out: Vec<T> = Vec::new();
        let mut i: usize = 0;
        while i < self.bones.len()
            invariant
                i <= self.bones.len(),
                parents_first(self.bones@),
                forall|p: Vec3, q: Option<Vec3>, t: Quat| local.requires((p, q, t)),
                forall|a: T, b: T| compose.requires((a, b)),
                locals.len() == i,
                out.len() == i,
                forall|j: int|
                    0 <= j < i ==> local.ensures(
                        (self.bones[j].head, parent_head(self.bones@, j), self.bones[j].pose),
                        #[trigger] locals[j],
                    ),
                forall|j: int|
                    0 <= j < i ==> match self.bones[j].parent {
                        Some(p) => compose.ensures((out[p as int], locals[j]), #[trigger] out[j]),
                        None => out[j] == locals[j],
                    },
            decreases self.bones.len() - i,
        {
            let bone = &self.bones[i];
            assert(self.bones@[i as int].parent matches Some(p) ==> p < i);
            let above: Option<Vec3> = match bone.parent {
                Some(p) => Some(self.bones[p].head),
                None => None,
            };
            let own: T = local(bone.head, above, bone.pose);
            let made: T = match bone.parent {
                Some(p) => compose(out[p], own),
                None => own,
            };
            let ghost before = out@;
            proof {
                locals = locals.push(own);
            }
            out.push(made);
            proof {
                assert forall|j: int| 0 <= j < i + 1 implies match self.bones[j].parent {
                    Some(p) => compose.ensures((out[p as int], locals[j]), #[trigger] out[j]),
                    None => out[j] == locals[j],
                } by {
                    assert(self.bones@[j].parent matches Some(p) ==> p < j);
                    if j < i {
                        assert(before[j] == out[j]);
                    }
                }
            }
            i = i + 1;
        }
        assert(posed(self.bones@, *local, *compose, locals, out@));
        out
    }

    /// The skinning transform of each bone: what `bind` makes of its posed and its rest
    /// transform.
    pub fn skinning_matrices<
        T: Copy,
        F: Fn(Vec3) -> T,
        L: Fn(Vec3, Option<Vec3>, Quat) -> T,
        C: Fn(T, T) -> T,
        B: Fn(T, T) -> T,
    >(&self, place: &F, local: &L, compose: &C, bind: &B) -> (r: Vec<T>)
        requires
            parents_first(self.bones@),
            forall|p: Vec3| place.requires((p,)),
            forall|p: Vec3, q: Option<Vec3>, t: Quat| local.requires((p, q, t)),
            forall|a: T, b: T| compose.requires((a, b)),
            forall|a: T, b: T| bind.requires((a, b)),
        ensures
            skinning(self.bones@, *place, *local, *compose, *bind, r@),
    {
        let rest = self.rest_globals(place);
        let out = self.pose_globals(local, compose);
        let mut made: Vec<T> = Vec::new();
        let mut i: usize = 0;
        while i < self.bones.len()
            invariant
                i <= self.bones.len(),
                rest.len() == self.bones.len(),
                out.len() == self.bones.len(),
                forall|a: T, b: T| bind.requires((a, b)),
                made.len() == i,
                forall|j: int| 0 <= j < i ==> bind.ensures((out[j], rest[j]), #[trigger] made[j]),
            decreases self.bones.len() - i,
        {
            made.push(bind(out[i], rest[i]));
            i = i + 1;
        }
        proof {
            let locals = choose|locals: Seq<T>| #[trigger]
                posed(self.bones@, *local, *compose, locals, out@);
            assert(posed(self.bones@, *local, *compose, locals, out@));
            assert(bound(
                self.bones@,
                *place,
                *local,
                *compose,
                *bind,
                rest@,
                locals,
                out@,
                made@,
            ));
        }
        made
    }

    /// A spine of `n_bones` bones along a mesh, at least two: along the middle of the box around
    /// its vertices, where that is longest. `side` is how long a side is from its ends, `middle`
    /// the middle of it, and `along` the end of the first so many of equal parts of a line. A mesh
    /// without vertices gets no bones.
    pub fn auto_rig_from_mesh<
        S: Fn(Real, Real) -> Real,
        M: Fn(Real, Real) -> Real,
        L: Fn(Vec3, Vec3, usize, usize) -> Vec3,
    >(mesh: &Mesh, n_bones: u32, side: &S, middle: &M, along: &L) -> (r: Skeleton)
        requires
            forall|a: Real, b: Real| #[trigger] (*side).requires((a, b)),
            forall|a: Real, b: Real| #[trigger] (*middle).requires((a, b)),
            forall|p: Vec3, q: Vec3, i: usize, n: usize| #[trigger]
                (*along).requires((p, q, i, n)),
        ensures
            mesh@.vertices.len() == 0 ==> r.bones.len() == 0,
            mesh@.vertices.len() > 0 ==> spine_of(
                mesh@.vertices,
                n_bones,
                side,
                middle,
                along,
                r.bones@,
            ),
            parents_first(r.bones@),
    {
        let n: usize = if n_bones < 2 {
            2
        } else {
            n_bones as usize
        };
        if mesh.vertices.len() == 0 {
            return Skeleton::empty();
        }
        let line: (Vec3, Vec3) = spine_line(&mesh.vertices, side, middle);
        let mut bones: Vec<Bone> = Vec::new();
        let mut i: usize = 0;
        while i < n
            invariant
                i <= n,
                forall|p: Vec3, q: Vec3, i: usize, n: usize| #[trigger]
                    (*along).requires((p, q, i, n)),
                bones.len() == i,
                forall|j: int|
                    0 <= j < i ==> {
                        &&& (#[trigger] bones[j]).name@ == spine_name(j as nat)
                        &&& bones[j].parent == if j == 0 {
                            None::<usize>
                        } else {
                            Some((j - 1) as usize)
                        }
                        &&& bones[j].pose == unturned()
                        &&& (*along).ensures((line.0, line.1, j as usize, n), bones[j].head)
                        &&& (*along).ensures((line.0, line.1, (j + 1) as usize, n), bones[j].tail)
                    },
            decreases n - i,
        {
            let head: Vec3 = along(line.0, line.1, i, n);
            let tail: Vec3 = along(line.0, line.1, i + 1, n);
            let parent: Option<usize> = if i == 0 {
                None
            } else {
                Some(i - 1)
            };
            let mut name: String = "Bone.".to_owned();
            append_decimal3(&mut name, i as u64);
            bones.push(Bone::new(name, head, tail, parent));
            i = i + 1;
        }
        assert(is_spine(bones@, n as int, line, along));
        Skeleton { bones }
    }
}

/// Whether `dists` are the distances of a point from the bones.
pub open spec fn measured<D: Fn(Vec3, Vec3, Vec3) -> Real>(
    bones: Seq<Bone>,
    p: Vec3,
    distance: D,
    dists: Seq<Real>,
) -> bool {
    &&& dists.len() == bones.len()
    &&& forall|i: int|
        0 <= i < dists.len() ==> distance.ensures(
            (p, bones[i].head, bones[i].tail),
            #[trigger] dists[i],
        )
}

/// Whether a vertex is bound to bones `i` and `j` with what `weigh` makes of their distances.
pub open spec fn weighed<W: Fn(Real, Real) -> (Real, Real)>(
    dists: Seq<Real>,
    weigh: W,
    i: int,
    j: int,
    indices: Seq<u32>,
    weights: Seq<Real>,
) -> bool {
    let zero = Real { bits: ZERO_BITS };
    &&& is_nearest(dists, -1, i)
    &&& is_nearest(dists, i, j)
    &&& indices == seq![i as u32, j as u32, 0u32, 0u32]
    &&& weights.len() == 4
    &&& weigh.ensures((dists[i], dists[j]), (weights[0], weights[1]))
    &&& weights[2] == zero
    &&& weights[3] == zero
}

/// Whether a vertex is bound to the nearest bone, or to the nearest two where there are more.
pub open spec fn skinned<W: Fn(Real, Real) -> (Real, Real)>(
    dists: Seq<Real>,
    weigh: W,
    indices: Seq<u32>,
    weights: Seq<Real>,
) -> bool {
    let zero = Real { bits: ZERO_BITS };
    if dists.len() == 1 {
        &&& indices == seq![0u32, 0u32, 0u32, 0u32]
        &&& weights == seq![Real { bits: ONE_BITS }, zero, zero, zero]
    } else {
        exists|i: int, j: int| #[trigger] weighed(dists, weigh, i, j, indices, weights)
    }
}

/// Whether vertex `v` of a mesh is bound by its distances from the bones.
pub open spec fn vertex_skinned<
    D: Fn(Vec3, Vec3, Vec3) -> Real,
    W: Fn(Real, Real) -> (Real, Real),
>(
    bones: Seq<Bone>,
    p: Vec3,
    distance: D,
    weigh: W,
    indices: Seq<u32>,
    weights: Seq<Real>,
) -> bool {
    exists|dists: Seq<Real>| #[trigger]
        measured(bones, p, distance, dists) && skinned(dists, weigh, indices, weights)
}

/// The first of the nearest, apart from `skip`.
fn nearest_but(dists: &Vec<Real>, skip: Option<usize>) -> (r: usize)
    requires
        dists.len() > (if skip is Some { 1int } else { 0int }),
        skip matches Some(s) ==> s < dists.len(),
        forall|i: int| 0 <= i < dists.len() ==> !(#[trigger] dists[i]).nan(),
    ensures
        is_nearest(
            dists@,
            match skip {
                Some(s) => s as int,
                None => -1,
            },
            r as int,
        ),
{
    let ghost but: int = match skip {
        Some(s) => s as int,
        None => -1,
    };
    let mut best: usize = match skip {
        Some(s) => if s == 0 {
            1
        } else {
            0
        },
        None => 0,
    };
    let mut i: usize = 0;
    while i < dists.len()
        invariant
            i <= dists.len(),
            forall|i: int| 0 <= i < dists.len() ==> !(#[trigger] dists[i]).nan(),
            but == match skip {
                Some(s) => s as int,
                None => -1,
            },
            best < dists.len(),
            best != but,
            best < i || best == 0 || (best == 1 && but == 0),
            forall|j: int| 0 <= j < i && j != but ==> !(#[trigger] dists[j]).less(dists[best as int]),
            forall|j: int|
                0 <= j < best && j != but ==> dists[best as int].less(#[trigger] dists[j]),
        decreases dists.len() - i,
    {
        let skipped: bool = match skip {
            Some(s) => s == i,
            None => false,
        };
        if !skipped && dists[i].lt(dists[best]) {
            best = i;
        }
        i = i + 1;
    }
    best
}

impl Skeleton {
    /// Bind each vertex of a mesh to the bones nearest to it: to the one bone there is, or to
    /// the nearest two. `distance` measures a point against the head and tail of a bone, and
    /// `weigh` turns two distances into weights. Of equally near bones the first is taken.
    pub fn auto_skin<D: Fn(Vec3, Vec3, Vec3) -> Real, W: Fn(Real, Real) -> (Real, Real)>(
        &self,
        mesh: &Mesh,
        distance: D,
        weigh: W,
    ) -> (r: Skin)
        requires
            mesh@.vertices.len() > 0 ==> self.bones.len() > 0,
            self.bones.len() <= u32::MAX,
            forall|p: Vec3, a: Vec3, b: Vec3| distance.requires((p, a, b)),
            forall|p: Vec3, a: Vec3, b: Vec3, d: Real| #[trigger]
                distance.ensures((p, a, b), d) ==> !d.nan(),
            forall|a: Real, b: Real| weigh.requires((a, b)),
        ensures
            r.indices.len() == mesh@.vertices.len(),
            r.weights.len() == mesh@.vertices.len(),
            forall|v: int|
                0 <= v < mesh@.vertices.len() ==> vertex_skinned(
                    self.bones@,
                    #[trigger] mesh@.vertices[v],
                    distance,
                    weigh,
                    r.indices[v]@,
                    r.weights[v]@,
                ),
    {
        let zero: Real = Real { bits: ZERO_BITS };
        let one: Real = Real { bits: ONE_BITS };
        let mut indices: Vec<[u32; 4]> = Vec::new();
        let mut weights: Vec<[Real; 4]> = Vec::new();
        let mut v: usize = 0;
        while v < mesh.vertices.len()
            invariant
                v <= mesh.vertices.len(),
                mesh@.vertices.len() > 0 ==> self.bones.len() > 0,
                self.bones.len() <= u32::MAX,
                zero == (Real { bits: ZERO_BITS }),
                one == (Real { bits: ONE_BITS }),
                forall|p: Vec3, a: Vec3, b: Vec3| distance.requires((p, a, b)),
                forall|p: Vec3, a: Vec3, b: Vec3, d: Real| #[trigger]
                    distance.ensures((p, a, b), d) ==> !d.nan(),
                forall|a: Real, b: Real| weigh.requires((a, b)),
                indices.len() == v,
                weights.len() == v,
                forall|u: int|
                    0 <= u < v ==> vertex_skinned(
                        self.bones@,
                        #[trigger] mesh@.vertices[u],
                        distance,
                        weigh,
                        indices[u]@,
                        weights[u]@,
                    ),
            decreases mesh.vertices.len() - v,
        {
            let p: Vec3 = mesh.vertices[v];
            let mut dists: Vec<Real> = Vec::new();
            let mut i: usize = 0;
            while i < self.bones.len()
                invariant
                    i <= self.bones.len(),
                    forall|p: Vec3, a: Vec3, b: Vec3| distance.requires((p, a, b)),
                    forall|p: Vec3, a: Vec3, b: Vec3, d: Real| #[trigger]
                        distance.ensures((p, a, b), d) ==> !d.nan(),
                    dists.len() == i,
                    forall|j: int|
                        0 <= j < i ==> !(#[trigger] dists[j]).nan() && distance.ensures(
                            (p, self.bones[j].head, self.bones[j].tail),
                            dists[j],
                        ),
                decreases self.bones.len() - i,
            {
                let d: Real = distance(p, self.bones[i].head, self.bones[i].tail);
                dists.push(d);
                i = i + 1;
            }
            assert(measured(self.bones@, p, distance, dists@));
            if self.bones.len() == 1 {
                let idx: [u32; 4] = [0, 0, 0, 0];
                let w: [Real; 4] = [one, zero, zero, zero];
                assert(idx@ =~= seq![0u32, 0u32, 0u32, 0u32]);
                assert(w@ =~= seq![one, zero, zero, zero]);
                assert(skinned(dists@, weigh, idx@, w@));
                indices.push(idx);
                weights.push(w);
            } else {
                let i: usize = nearest_but(&dists, None);
                let j: usize = nearest_but(&dists, Some(i));
                let (wi, wj): (Real, Real) = weigh(dists[i], dists[j]);
                let idx: [u32; 4] = [i as u32, j as u32, 0, 0];
                let w: [Real; 4] = [wi, wj, zero, zero];
                assert(idx@ =~= seq![i as u32, j as u32, 0u32, 0u32]);
                assert(weighed(dists@, weigh, i as int, j as int, idx@, w@));
                assert(skinned(dists@, weigh, idx@, w@));
                indices.push(idx);
                weights.push(w);
            }
            v = v + 1;
        }
        Skin { indices, weights }
    }
}

/// Whether the influence `k` of a vertex counts: its weight is not zero or less, and its bone
/// is one of the given number.
pub open spec fn counts(indices: Seq<u32>, weights: Seq<Real>, bones: int, k: int) -> bool {
    let zero = Real { bits: ZERO_BITS };
    !(weights[k].less(zero) || weights[k].same_number(zero)) && indices[k] < bones
}

/// Those of the first `n` influences of a vertex that count, each as the transform of its bone and
/// its weight.
pub open spec fn influences<T>(
    indices: Seq<u32>,
    weights: Seq<Real>,
    matrices: Seq<T>,
    n: int,
) -> Seq<(T, Real)>
    decreases n,
{
    if n <= 0 {
        Seq::empty()
    } else {
        let rest = influences(indices, weights, matrices, n - 1);
        if counts(indices, weights, matrices.len() as int, n - 1) {
            rest.push((matrices[indices[n - 1] as int], weights[n - 1]))
        } else {
            rest
        }
    }
}

/// Whether `after` is where `blend` moves a vertex by the influences that count; it stays
/// where `blend` gives nothing.
pub open spec fn deformed<T, D: Fn(Vec3, Vec<(T, Real)>) -> Option<Vec3>>(
    before: Vec3,
    indices: Seq<u32>,
    weights: Seq<Real>,
    matrices: Seq<T>,
    blend: &D,
    after: Vec3,
) -> bool {
    exists|given: Vec<(T, Real)>, out: Option<Vec3>| #[trigger]
        (*blend).ensures((before, given), out) && given@ == influences(
            indices,
            weights,
            matrices,
            4,
        ) && after == match out {
            Some(q) => q,
            None => before,
        }
}

impl Mesh {
    /// The mesh deformed by its skin: each vertex where `blend` moves it by those of its four
    /// influences that count. Where the skin does not fit the mesh, a copy of the mesh.
    pub fn skin_deform<T: Copy, D: Fn(Vec3, Vec<(T, Real)>) -> Option<Vec3>>(
        &self,
        skin: &Skin,
        matrices: &Vec<T>,
        blend: &D,
    ) -> (r: Mesh)
        requires
            forall|p: Vec3, given: Vec<(T, Real)>| #[trigger] (*blend).requires((p, given)),
        ensures
            r@.faces == self@.faces,
            r@.vertices.len() == self@.vertices.len(),
            skin.indices.len() != self@.vertices.len() || skin.weights.len()
                != self@.vertices.len() ==> r@ == self@,
            skin.indices.len() == self@.vertices.len() && skin.weights.len()
                == self@.vertices.len() ==> forall|v: int|
                0 <= v < self@.vertices.len() ==> deformed(
                    self@.vertices[v],
                    skin.indices[v]@,
                    skin.weights[v]@,
                    matrices@,
                    blend,
                    #[trigger] r@.vertices[v],
                ),
    {
        if skin.indices.len() != self.vertices.len() || skin.weights.len() != self.vertices.len() {
            return self.copy();
        }
        let zero: Real = Real { bits: ZERO_BITS };
        let mut vertices: Vec<Vec3> = Vec::new();
        let mut v: usize = 0;
        while v < self.vertices.len()
            invariant
                v <= self.vertices.len(),
                zero == (Real { bits: ZERO_BITS }),
                skin.indices.len() == self@.vertices.len(),
                skin.weights.len() == self@.vertices.len(),
                forall|p: Vec3, given: Vec<(T, Real)>| #[trigger] (*blend).requires((p, given)),
                vertices.len() == v,
                forall|u: int|
                    0 <= u < v ==> deformed(
                        self@.vertices[u],
                        skin.indices[u]@,
                        skin.weights[u]@,
                        matrices@,
                        blend,
                        #[trigger] vertices[u],
                    ),
            decreases self.vertices.len() - v,
        {
            let p: Vec3 = self.vertices[v];
            let idx: [u32; 4] = skin.indices[v];
            let w: [Real; 4] = skin.weights[v];
            let mut given: Vec<(T, Real)> = Vec::new();
            let mut k: usize = 0;
            while k < 4
                invariant
                    k <= 4,
                    zero == (Real { bits: ZERO_BITS }),
                    given@ == influences(idx@, w@, matrices@, k as int),
                decreases 4 - k,
            {
                if !w[k].le(zero) && (idx[k] as usize) < matrices.len() {
                    given.push((matrices[idx[k] as usize], w[k]));
                }
                k = k + 1;
            }
            let ghost shown = given;
            let out: Option<Vec3> = blend(p, given);
            assert((*blend).ensures((p, shown), out));
            let q: Vec3 = match out {
                Some(q) => q,
                None => p,
            };
            assert(deformed(p, idx@, w@, matrices@, blend, q));
            vertices.push(q);
            v = v + 1;
        }
        Mesh { vertices, faces: copy_faces(&self.faces) }
    }
}

impl Default for Skeleton {
    /// A skeleton without bones.
    fn default() -> (r: Skeleton)
        ensures
            r.bones@.len() == 0,
    {
        Skeleton::empty()
    }
}

impl Default for Skin {
    /// A skin of no vertices.
    fn default() -> (r: Skin)
        ensures
            r.indices@.len() == 0,
            r.weights@.len() == 0,
    {
        Skin { indices: Vec::new(), weights: Vec::new() }
    }
}

} // verus!
