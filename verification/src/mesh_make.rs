//! Meshes made from meshes: mirrored and repeated copies, triangle lists, coarser meshes.
use crate::mesh::{
    copy_faces, copy_points, face_below, faces_below, lemma_loops_push, loops, Face, Mesh,
    MeshModel,
};
use crate::number::Vec3;
use vstd::prelude::*;

verus! {

/// A point reflected across the plane of an axis: 0 is x, 1 is y, 2 is z.
pub open spec fn reflected(p: Vec3, axis: int) -> Vec3 {
    if axis == 0 {
        Vec3 { x: p.x.opposite(), ..p }
    } else if axis == 1 {
        Vec3 { y: p.y.opposite(), ..p }
    } else {
        Vec3 { z: p.z.opposite(), ..p }
    }
}

fn reflect(p: Vec3, axis: usize) -> (r: Vec3)
    ensures
        r == reflected(p, axis as int),
{
    if axis == 0 {
        Vec3 { x: p.x.negated(), y: p.y, z: p.z }
    } else if axis == 1 {
        Vec3 { x: p.x, y: p.y.negated(), z: p.z }
    } else {
        Vec3 { x: p.x, y: p.y, z: p.z.negated() }
    }
}

/// A face wound the other way from its first vertex on, over vertices `base` further on.
pub open spec fn turned(face: Seq<u32>, base: int) -> Seq<u32> {
    Seq::new(
        face.len(),
        |k: int| (base + face[if k == 0 { 0 } else { face.len() - k }]) as u32,
    )
}

/// A face over vertices `base` further on.
pub open spec fn moved_on(face: Seq<u32>, base: int) -> Seq<u32> {
    Seq::new(face.len(), |k: int| (base + face[k]) as u32)
}

/// The mesh and its mirror image.
pub open spec fn mirrored_model(m: MeshModel, axis: int) -> MeshModel {
    let n = m.vertices.len() as int;
    MeshModel {
        vertices: m.vertices + Seq::new(m.vertices.len(), |i: int| reflected(m.vertices[i], axis)),
        faces: m.faces + Seq::new(m.faces.len(), |f: int| turned(m.faces[f], n)),
    }
}

/// How far the numbers of vertices may go in a face that is moved on by `steps` times `n`.
pub open spec fn room_after(n: nat, steps: int) -> nat {
    (u32::MAX + 1 - steps * n) as nat
}

/// The number of copies that are made: at least one.
pub open spec fn copies(count: u32) -> int {
    if count == 0 { 1 } else { count as int }
}

/// Whether `after` is `count` copies of `before`, each vertex of copy `c` where `place` puts
/// it for that copy.
pub open spec fn repeated(
    before: MeshModel,
    after: MeshModel,
    count: int,
    place: spec_fn(Vec3, int, Vec3) -> bool,
) -> bool {
    let n = before.vertices.len() as int;
    let nf = before.faces.len() as int;
    &&& after.vertices.len() == count * n
    &&& after.faces.len() == count * nf
    &&& forall|c: int, i: int|
        #![trigger after.vertices[c * n + i]]
        0 <= c < count && 0 <= i < n ==> place(before.vertices[i], c, after.vertices[c * n + i])
    &&& forall|c: int, f: int|
        #![trigger after.faces[c * nf + f]]
        0 <= c < count && 0 <= f < nf ==> after.faces[c * nf + f] == moved_on(
            before.faces[f],
            c * n,
        )
}

/// Copy `c` of `n` things ends before the next begins.
pub(crate) proof fn lemma_copies(c: int, n: int, count: int, i: int)
    requires
        0 <= c < count,
        0 <= i < n,
    ensures
        0 <= c * n,
        c * n + i < (c + 1) * n,
        (c + 1) * n == c * n + n,
        (c + 1) * n <= count * n,
{
    assert(0 <= c * n && (c + 1) * n == c * n + n && (c + 1) * n <= count * n)
        by (nonlinear_arith)
        requires
            0 <= c < count,
            0 <= n,
    ;
}

/// A place in `count` copies of `n` things lies in one of them.
pub(crate) proof fn lemma_place_in_copies(x: int, n: int, count: int)
    requires
        0 <= x < count * n,
        0 < n,
    ensures
        0 <= x / n < count,
        0 <= x % n < n,
        x == (x / n) * n + x % n,
{
    assert(x == (x / n) * n + x % n && 0 <= x % n < n) by (nonlinear_arith)
        requires
            0 < n,
    ;
    assert(0 <= x / n) by (nonlinear_arith)
        requires
            0 <= x,
            0 < n,
    ;
    assert(x / n < count) by (nonlinear_arith)
        requires
            0 <= x < count * n,
            0 < n,
            x == (x / n) * n + x % n,
            0 <= x % n,
    ;
}

impl Mesh {
    /// The mesh with its reflection across the plane of an axis: 0 is x, 1 is y, 2 is z. The
    /// copies of the faces wind the other way, so that they face outward.
    pub fn mirrored(&self, axis: usize) -> (r: Mesh)
        requires
            axis < 3,
            faces_below(self@.faces, (u32::MAX + 1 - self@.vertices.len()) as nat),
            self@.vertices.len() <= u32::MAX,
            forall|f: int| 0 <= f < self@.faces.len() ==> (#[trigger] self@.faces[f]).len() > 0,
        ensures
            r@ == mirrored_model(self@, axis as int),
    {
        let n: u32 = self.vertices.len() as u32;
        let mut vertices = copy_points(&self.vertices);
        let ghost images = Seq::new(
            self@.vertices.len(),
            |i: int| reflected(self@.vertices[i], axis as int),
        );
        let mut i: usize = 0;
        assert(vertices@ =~= self@.vertices + images.take(0));
        while i < self.vertices.len()
            invariant
                i <= self.vertices.len(),
                images == Seq::new(
                    self@.vertices.len(),
                    |i: int| reflected(self@.vertices[i], axis as int),
                ),
                vertices@ == self@.vertices + images.take(i as int),
            decreases self.vertices.len() - i,
        {
            vertices.push(reflect(self.vertices[i], axis));
            assert(vertices@ =~= self@.vertices + images.take(i + 1));
            i = i + 1;
        }
        assert(images.take(i as int) =~= images);
        let mut faces = copy_faces(&self.faces);
        let ghost turns = Seq::new(self@.faces.len(), |f: int| turned(self@.faces[f], n as int));
        let mut f: usize = 0;
        assert(loops(faces@) =~= self@.faces + turns.take(0));
        while f < self.faces.len()
            invariant
                f <= self.faces.len(),
                n == self@.vertices.len(),
                faces_below(self@.faces, (u32::MAX + 1 - self@.vertices.len()) as nat),
                forall|f: int|
                    0 <= f < self@.faces.len() ==> (#[trigger] self@.faces[f]).len() > 0,
                turns == Seq::new(self@.faces.len(), |f: int| turned(self@.faces[f], n as int)),
                loops(faces@) == self@.faces + turns.take(f as int),
            decreases self.faces.len() - f,
        {
            let face = &self.faces[f].indices;
            let m: usize = face.len();
            assert(self@.faces[f as int] == face@);
            assert(face_below(self@.faces[f as int], (u32::MAX + 1 - n) as nat));
            let mut out: Vec<u32> = Vec::new();
            let ghost want = turned(face@, n as int);
            let mut k: usize = 0;
            while k < m
                invariant
                    k <= m,
                    m == face.len(),
                    m > 0,
                    face_below(face@, (u32::MAX + 1 - n) as nat),
                    want == turned(face@, n as int),
                    out@ == want.take(k as int),
                decreases m - k,
            {
                let from: usize = if k == 0 {
                    0
                } else {
                    m - k
                };
                assert(face@[from as int] < u32::MAX + 1 - n);
                out.push(n + face[from]);
                assert(out@ =~= want.take(k + 1));
                k = k + 1;
            }
            assert(want.take(k as int) =~= want);
            let made = Face { indices: out };
            proof {
                lemma_loops_push(faces@, made);
                assert(turns.take(f + 1) =~= turns.take(f as int).push(made@));
                assert((self@.faces + turns.take(f as int)).push(made@) =~= self@.faces
                    + turns.take(f + 1));
            }
            faces.push(made);
            f = f + 1;
        }
        assert(turns.take(f as int) =~= turns);
        Mesh { vertices, faces }
    }

    /// `count` copies of the mesh, at least one, with the vertices of copy `c` where `shift`
    /// moves them by `c` times the offset.
    pub fn arrayed<F: Fn(Vec3, Vec3, u32) -> Vec3>(&self, count: u32, offset: Vec3, shift: &F) -> (r:
        Mesh)
        requires
            self@.vertices.len() <= u32::MAX,
            (copies(count) - 1) * self@.vertices.len() <= u32::MAX,
            faces_below(self@.faces, room_after(self@.vertices.len(), copies(count) - 1)),
            forall|p: Vec3, o: Vec3, c: u32| shift.requires((p, o, c)),
        ensures
            repeated(
                self@,
                r@,
                copies(count),
                |p: Vec3, c: int, q: Vec3| shift.ensures((p, offset, c as u32), q),
            ),
    {
        let count: u32 = if count == 0 {
            1
        } else {
            count
        };
        let ghost n = self@.vertices.len() as int;
        let ghost nf = self@.faces.len() as int;
        let mut vertices: Vec<Vec3> = Vec::new();
        let mut faces: Vec<Face> = Vec::new();
        let stride: u32 = self.vertices.len() as u32;
        let mut base: u32 = 0;
        let mut c: u32 = 0;
        let ghost room = room_after(n as nat, count - 1);
        while c < count
            invariant
                c <= count,
                n == self@.vertices.len(),
                nf == self@.faces.len(),
                n == stride,
                (count - 1) * n <= u32::MAX,
                room == u32::MAX + 1 - (count - 1) * n,
                c < count ==> base == c * n,
                faces_below(self@.faces, room),
                forall|p: Vec3, o: Vec3, c: u32| shift.requires((p, o, c)),
                vertices.len() == c * n,
                faces.len() == c * nf,
                forall|b: int, i: int|
                    #![trigger vertices[b * n + i]]
                    0 <= b < c && 0 <= i < n ==> shift.ensures(
                        (self@.vertices[i], offset, b as u32),
                        vertices[b * n + i],
                    ),
                forall|b: int, f: int|
                    #![trigger faces[b * nf + f]]
                    0 <= b < c && 0 <= f < nf ==> faces[b * nf + f]@ == moved_on(
                        self@.faces[f],
                        b * n,
                    ),
            decreases count - c,
        {
            proof {
                assert((c + 1) * n == c * n + n && c * n <= (count - 1) * n && (c + 1) * nf == c
                    * nf + nf) by (nonlinear_arith)
                    requires
                        0 <= c < count,
                        0 <= n,
                ;
            }
            let mut i: usize = 0;
            while i < self.vertices.len()
                invariant
                    i <= self.vertices.len(),
                    n == self@.vertices.len(),
                    c < count,
                    forall|p: Vec3, o: Vec3, c: u32| shift.requires((p, o, c)),
                    vertices.len() == c * n + i,
                    forall|b: int, i: int|
                        #![trigger vertices[b * n + i]]
                        0 <= b < c && 0 <= i < n ==> shift.ensures(
                            (self@.vertices[i], offset, b as u32),
                            vertices[b * n + i],
                        ),
                    forall|j: int|
                        0 <= j < i ==> shift.ensures(
                            (self@.vertices[j], offset, c),
                            #[trigger] vertices[c * n + j],
                        ),
                decreases self.vertices.len() - i,
            {
                let ghost before = vertices@;
                vertices.push(shift(self.vertices[i], offset, c));
                proof {
                    assert forall|b: int, j: int|
                        #![trigger vertices[b * n + j]]
                        0 <= b < c && 0 <= j < n implies shift.ensures(
                        (self@.vertices[j], offset, b as u32),
                        vertices[b * n + j],
                    ) by {
                        lemma_copies(b, n, c as int, j);
                        assert(vertices@[b * n + j] == before[b * n + j]);
                    }
                }
                i = i + 1;
            }
            let mut f: usize = 0;
            while f < self.faces.len()
                invariant
                    f <= self.faces.len(),
                    n == self@.vertices.len(),
                    nf == self@.faces.len(),
                    base == c * n,
                    c * n + room <= u32::MAX + 1,
                    c < count,
                    faces_below(self@.faces, room),
                    faces.len() == c * nf + f,
                    forall|b: int, f: int|
                        #![trigger faces[b * nf + f]]
                        0 <= b < c && 0 <= f < nf ==> faces[b * nf + f]@ == moved_on(
                            self@.faces[f],
                            b * n,
                        ),
                    forall|g: int|
                        0 <= g < f ==> (#[trigger] faces[c * nf + g])@ == moved_on(
                            self@.faces[g],
                            c * n,
                        ),
                decreases self.faces.len() - f,
            {
                assert(self@.faces[f as int] == self.faces[f as int]@);
                assert(face_below(self@.faces[f as int], room));
                let face = move_face(&self.faces[f].indices, base, Ghost(room));
                let ghost before = faces@;
                faces.push(face);
                proof {
                    assert forall|b: int, g: int|
                        #![trigger faces[b * nf + g]]
                        0 <= b < c && 0 <= g < nf implies faces[b * nf + g]@ == moved_on(
                        self@.faces[g],
                        b * n,
                    ) by {
                        lemma_copies(b, nf, c as int, g);
                        assert(faces@[b * nf + g] == before[b * nf + g]);
                    }
                }
                f = f + 1;
            }
            proof {
                assert forall|b: int, i: int|
                    #![trigger vertices[b * n + i]]
                    0 <= b < c + 1 && 0 <= i < n implies shift.ensures(
                    (self@.vertices[i], offset, b as u32),
                    vertices[b * n + i],
                ) by {
                    if b == c {
                        assert(vertices[c * n + i] == vertices[b * n + i]);
                    }
                }
                assert forall|b: int, g: int|
                    #![trigger faces[b * nf + g]]
                    0 <= b < c + 1 && 0 <= g < nf implies faces[b * nf + g]@ == moved_on(
                    self@.faces[g],
                    b * n,
                ) by {
                    if b == c {
                        assert(faces[c * nf + g] == faces[b * nf + g]);
                    }
                }
            }
            c = c + 1;
            if c < count {
                assert(c * n <= (count - 1) * n) by (nonlinear_arith)
                    requires
                        0 <= c <= count - 1,
                        0 <= n,
                ;
                base = base + stride;
            }
        }
        let out = Mesh { vertices, faces };
        proof {
            assert forall|b: int, g: int|
                #![trigger out@.faces[b * nf + g]]
                0 <= b < count && 0 <= g < nf implies out@.faces[b * nf + g] == moved_on(
                self@.faces[g],
                b * n,
            ) by {
                lemma_copies(b, nf, count as int, g);
                assert(faces[b * nf + g]@ == moved_on(self@.faces[g], b * n));
            }
        }
        out
    }
}

/// A face over vertices `base` further on.
fn move_face(face: &Vec<u32>, base: u32, Ghost(n): Ghost<nat>) -> (r: Face)
    requires
        face_below(face@, n),
        base + n <= u32::MAX + 1,
    ensures
        r@ == moved_on(face@, base as int),
{
    let mut out: Vec<u32> = Vec::new();
    let mut k: usize = 0;
    while k < face.len()
        invariant
            k <= face.len(),
            face_below(face@, n),
            base + n <= u32::MAX + 1,
            out@ == moved_on(face@, base as int).take(k as int),
        decreases face.len() - k,
    {
        assert(face@[k as int] < n);
        out.push(base + face[k]);
        assert(out@ =~= moved_on(face@, base as int).take(k + 1));
        k = k + 1;
    }
    assert(moved_on(face@, base as int).take(k as int) =~= moved_on(face@, base as int));
    Face { indices: out }
}

/// A mirrored mesh names its own vertices, and has twice the vertices and faces.
pub proof fn mirroring_keeps_range(m: MeshModel, axis: int)
    requires
        m.in_range(),
        2 * m.vertices.len() <= u32::MAX,
        forall|f: int| 0 <= f < m.faces.len() ==> (#[trigger] m.faces[f]).len() > 0,
    ensures
        mirrored_model(m, axis).in_range(),
        mirrored_model(m, axis).vertices.len() == 2 * m.vertices.len(),
        mirrored_model(m, axis).faces.len() == 2 * m.faces.len(),
        forall|f: int|
            0 <= f < 2 * m.faces.len() ==> (#[trigger] mirrored_model(m, axis).faces[f]).len() > 0,
{
    let out = mirrored_model(m, axis);
    let n = m.vertices.len() as int;
    assert forall|f: int| 0 <= f < out.faces.len() implies face_below(
        #[trigger] out.faces[f],
        out.vertices.len(),
    ) && out.faces[f].len() > 0 by {
        if f < m.faces.len() {
            assert(face_below(m.faces[f], m.vertices.len()));
        } else {
            let g = f - m.faces.len();
            assert(face_below(m.faces[g], m.vertices.len()));
            assert(out.faces[f] == turned(m.faces[g], n));
            assert forall|k: int| 0 <= k < out.faces[f].len() implies #[trigger] out.faces[f][k]
                < out.vertices.len() by {
                let from = if k == 0 {
                    0
                } else {
                    m.faces[g].len() - k
                };
                assert(m.faces[g][from] < n);
            }
        }
    }
}

/// A repeated mesh names its own vertices.
pub proof fn repeating_keeps_range(
    before: MeshModel,
    after: MeshModel,
    count: int,
    place: spec_fn(Vec3, int, Vec3) -> bool,
)
    requires
        before.in_range(),
        count >= 1,
        count * before.vertices.len() <= u32::MAX,
        repeated(before, after, count, place),
    ensures
        after.in_range(),
        (forall|f: int| 0 <= f < before.faces.len() ==> (#[trigger] before.faces[f]).len() > 0)
            ==> (forall|f: int| 0 <= f < after.faces.len() ==> (#[trigger] after.faces[f]).len() > 0),
{
    let n = before.vertices.len() as int;
    let nf = before.faces.len() as int;
    assert forall|x: int| 0 <= x < after.faces.len() implies face_below(
        #[trigger] after.faces[x],
        after.vertices.len(),
    ) && after.faces[x].len() == before.faces[x % nf].len() && 0 <= x % nf < nf by {
        if nf == 0 {
            assert(count * nf == 0) by (nonlinear_arith)
                requires
                    nf == 0,
            ;
        }
        lemma_place_in_copies(x, nf, count);
        let c = x / nf;
        let f = x % nf;
        assert(after.faces[c * nf + f] == moved_on(before.faces[f], c * n));
        assert(face_below(before.faces[f], before.vertices.len()));
        assert forall|k: int| 0 <= k < after.faces[x].len() implies #[trigger] after.faces[x][k]
            < after.vertices.len() by {
            assert(before.faces[f][k] < n);
            lemma_copies(c, n, count, before.faces[f][k] as int);
        }
    }
}

} // verus!
