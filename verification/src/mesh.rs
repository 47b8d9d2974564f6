//! Indexed polygon meshes: the storage form of modeled geometry.
use crate::number::{Real, Vec3, HALF_BITS, MINUS_HALF_BITS};
use vstd::prelude::*;

verus! {

/// One polygon face: an ordered list of vertex indices.
#[derive(Clone, Debug)]
pub struct Face {
    pub indices: Vec<u32>,
}

/// An editable polygon mesh: vertices and faces over them.
#[derive(Clone, Debug)]
pub struct Mesh {
    pub vertices: Vec<Vec3>,
    pub faces: Vec<Face>,
}

/// What a mesh holds, as sequences.
#[verifier::ext_equal]
pub ghost struct MeshModel {
    pub vertices: Seq<Vec3>,
    pub faces: Seq<Seq<u32>>,
}

impl View for Face {
    type V = Seq<u32>;

    open spec fn view(&self) -> Seq<u32> {
        self.indices@
    }
}

/// The index lists of a list of faces.
pub open spec fn loops(faces: Seq<Face>) -> Seq<Seq<u32>> {
    Seq::new(faces.len(), |i: int| faces[i]@)
}

impl View for Mesh {
    type V = MeshModel;

    open spec fn view(&self) -> MeshModel {
        MeshModel { vertices: self.vertices@, faces: loops(self.faces@) }
    }
}

/// Whether every index of a face is below `n`.
pub open spec fn face_below(face: Seq<u32>, n: nat) -> bool {
    forall|k: int| 0 <= k < face.len() ==> #[trigger] face[k] < n
}

/// Whether every index of every face is below `n`.
pub open spec fn faces_below(faces: Seq<Seq<u32>>, n: nat) -> bool {
    forall|f: int| 0 <= f < faces.len() ==> #[trigger] face_below(faces[f], n)
}

impl MeshModel {
    /// Whether every face names vertices that the mesh has.
    pub open spec fn in_range(self) -> bool {
        faces_below(self.faces, self.vertices.len())
    }
}

/// The position after `j` around a loop of `m`.
pub open spec fn succ(j: int, m: int) -> int {
    if j + 1 == m { 0 } else { j + 1 }
}

/// The position before `j` around a loop of `m`.
pub open spec fn pred(j: int, m: int) -> int {
    if j == 0 { m - 1 } else { j - 1 }
}

/// The position after `j` around a loop of `m`.
pub(crate) fn succ_of(j: usize, m: usize) -> (r: usize)
    requires
        j < m,
    ensures
        r == succ(j as int, m as int),
        r < m,
{
    if j + 1 == m {
        0
    } else {
        j + 1
    }
}

/// The position before `j` around a loop of `m`.
pub(crate) fn pred_of(j: usize, m: usize) -> (r: usize)
    requires
        j < m,
    ensures
        r == pred(j as int, m as int),
        r < m,
{
    if j == 0 {
        m - 1
    } else {
        j - 1
    }
}

/// A copy of a list of indices.
pub(crate) fn copy_indices(list: &Vec<u32>) -> (r: Vec<u32>)
    ensures
        r@ == list@,
{
    let mut out: Vec<u32> = Vec::new();
    let mut i: usize = 0;
    while i < list.len()
        invariant
            i <= list.len(),
            out@ == list@.take(i as int),
        decreases list.len() - i,
    {
        out.push(list[i]);
        assert(list@.take(i + 1) == list@.take(i as int).push(list[i as int]));
        i = i + 1;
    }
    assert(list@.take(i as int) == list@);
    out
}

/// A copy of a list of points.
pub(crate) fn copy_points(list: &Vec<Vec3>) -> (r: Vec<Vec3>)
    ensures
        r@ == list@,
{
    let mut out: Vec<Vec3> = Vec::new();
    let mut i: usize = 0;
    while i < list.len()
        invariant
            i <= list.len(),
            out@ == list@.take(i as int),
        decreases list.len() - i,
    {
        out.push(list[i]);
        assert(list@.take(i + 1) == list@.take(i as int).push(list[i as int]));
        i = i + 1;
    }
    assert(list@.take(i as int) == list@);
    out
}

/// Pushing a face appends its index list.
pub(crate) proof fn lemma_loops_push(faces: Seq<Face>, face: Face)
    ensures
        loops(faces.push(face)) == loops(faces).push(face@),
{
    assert(loops(faces.push(face)) =~= loops(faces).push(face@));
}

impl Face {
    /// A copy of the face.
    pub fn copy(&self) -> (r: Face)
        ensures
            r@ == self@,
    {
        Face { indices: copy_indices(&self.indices) }
    }
}

/// A triangle.
pub(crate) fn triangle(a: u32, b: u32, c: u32) -> (r: Face)
    ensures
        r@ == seq![a, b, c],
{
    let mut indices: Vec<u32> = Vec::new();
    indices.push(a);
    indices.push(b);
    indices.push(c);
    assert(indices@ =~= seq![a, b, c]);
    Face { indices }
}

/// A quadrilateral.
pub(crate) fn quad(a: u32, b: u32, c: u32, d: u32) -> (r: Face)
    ensures
        r@ == seq![a, b, c, d],
{
    let mut indices: Vec<u32> = Vec::new();
    indices.push(a);
    indices.push(b);
    indices.push(c);
    indices.push(d);
    assert(indices@ =~= seq![a, b, c, d]);
    Face { indices }
}

/// The corner of the unit cube that lies on the given side of each axis.
pub open spec fn corner(right: bool, up: bool, front: bool) -> Vec3 {
    Vec3 {
        x: Real { bits: if right { HALF_BITS } else { MINUS_HALF_BITS } },
        y: Real { bits: if up { HALF_BITS } else { MINUS_HALF_BITS } },
        z: Real { bits: if front { HALF_BITS } else { MINUS_HALF_BITS } },
    }
}

fn make_corner(right: bool, up: bool, front: bool) -> (r: Vec3)
    ensures
        r == corner(right, up, front),
{
    Vec3 {
        x: Real { bits: if right { HALF_BITS } else { MINUS_HALF_BITS } },
        y: Real { bits: if up { HALF_BITS } else { MINUS_HALF_BITS } },
        z: Real { bits: if front { HALF_BITS } else { MINUS_HALF_BITS } },
    }
}

/// A unit cube around the origin: eight vertices and six quads that wind outward.
pub open spec fn cube_model() -> MeshModel {
    MeshModel {
        vertices: seq![
            corner(false, false, false),
            corner(true, false, false),
            corner(true, true, false),
            corner(false, true, false),
            corner(false, false, true),
            corner(true, false, true),
            corner(true, true, true),
            corner(false, true, true),
        ],
        faces: seq![
            seq![4u32, 5u32, 6u32, 7u32],
            seq![1u32, 0u32, 3u32, 2u32],
            seq![0u32, 4u32, 7u32, 3u32],
            seq![5u32, 1u32, 2u32, 6u32],
            seq![3u32, 7u32, 6u32, 2u32],
            seq![0u32, 1u32, 5u32, 4u32],
        ],
    }
}

impl Mesh {
    /// A mesh without vertices and faces.
    pub fn empty() -> (r: Mesh)
        ensures
            r@ == (MeshModel { vertices: Seq::empty(), faces: Seq::empty() }),
    {
        let r = Mesh { vertices: Vec::new(), faces: Vec::new() };
        assert(r@.faces =~= Seq::empty());
        r
    }

    /// A copy of the mesh.
    pub fn copy(&self) -> (r: Mesh)
        ensures
            r@ == self@,
    {
        Mesh { vertices: copy_points(&self.vertices), faces: copy_faces(&self.faces) }
    }

    /// A unit cube around the origin.
    pub fn cube() -> (r: Mesh)
        ensures
            r@ == cube_model(),
            r@.in_range(),
    {
        let mut vertices: Vec<Vec3> = Vec::new();
        vertices.push(make_corner(false, false, false));
        vertices.push(make_corner(true, false, false));
        vertices.push(make_corner(true, true, false));
        vertices.push(make_corner(false, true, false));
        vertices.push(make_corner(false, false, true));
        vertices.push(make_corner(true, false, true));
        vertices.push(make_corner(true, true, true));
        vertices.push(make_corner(false, true, true));
        let mut faces: Vec<Face> = Vec::new();
        faces.push(quad(4, 5, 6, 7));
        faces.push(quad(1, 0, 3, 2));
        faces.push(quad(0, 4, 7, 3));
        faces.push(quad(5, 1, 2, 6));
        faces.push(quad(3, 7, 6, 2));
        faces.push(quad(0, 1, 5, 4));
        let r = Mesh { vertices, faces };
        assert(r@ =~= cube_model()) by {
            assert(r@.vertices =~= cube_model().vertices);
            assert(r@.faces =~= cube_model().faces);
        }
        r
    }

    /// The position of vertex `i`.
    pub fn vertex(&self, i: u32) -> (r: Vec3)
        requires
            i < self@.vertices.len(),
        ensures
            r == self@.vertices[i as int],
    {
        self.vertices[i as usize]
    }
}

/// A copy of a list of faces.
pub(crate) fn copy_faces(list: &Vec<Face>) -> (r: Vec<Face>)
    ensures
        loops(r@) == loops(list@),
{
    let mut out: Vec<Face> = Vec::new();
    let mut i: usize = 0;
    while i < list.len()
        invariant
            i <= list.len(),
            loops(out@) == loops(list@).take(i as int),
        decreases list.len() - i,
    {
        let face = list[i].copy();
        proof {
            lemma_loops_push(out@, face);
            assert(loops(list@).take(i + 1) == loops(list@).take(i as int).push(face@));
        }
        out.push(face);
        i = i + 1;
    }
    assert(loops(list@).take(i as int) == loops(list@));
    out
}

/// The positions of the vertices of a face.
pub open spec fn outline(points: Seq<Vec3>, face: Seq<u32>) -> Seq<Vec3> {
    Seq::new(face.len(), |k: int| points[face[k] as int])
}

/// Whether `point` is what `f` makes of some points.
pub open spec fn made_from<F: Fn(Vec<Vec3>) -> Vec3>(f: F, points: Seq<Vec3>, point: Vec3) -> bool {
    exists|given: Vec<Vec3>| given@ == points && #[trigger] f.ensures((given,), point)
}

impl Mesh {
    /// The positions around a face.
    pub(crate) fn face_outline(&self, face: &Vec<u32>) -> (r: Vec<Vec3>)
        requires
            face_below(face@, self@.vertices.len()),
        ensures
            r@ == outline(self@.vertices, face@),
    {
        let mut out: Vec<Vec3> = Vec::new();
        let mut k: usize = 0;
        while k < face.len()
            invariant
                k <= face.len(),
                face_below(face@, self@.vertices.len()),
                out@ == outline(self@.vertices, face@).take(k as int),
            decreases face.len() - k,
        {
            assert(face@[k as int] < self@.vertices.len());
            out.push(self.vertices[face[k] as usize]);
            assert(out@ =~= outline(self@.vertices, face@).take(k + 1));
            k = k + 1;
        }
        assert(outline(self@.vertices, face@).take(k as int) =~= outline(self@.vertices, face@));
        out
    }

    /// What `f` makes of the positions around a face.
    pub(crate) fn make_from_face<F: Fn(Vec<Vec3>) -> Vec3>(&self, face: &Vec<u32>, f: &F) -> (r: Vec3)
        requires
            face_below(face@, self@.vertices.len()),
            forall|points: Vec<Vec3>| f.requires((points,)),
        ensures
            made_from(*f, outline(self@.vertices, face@), r),
    {
        let given = self.face_outline(face);
        let point: Vec3 = f(given);
        assert(f.ensures((given,), point));
        point
    }
}

impl Default for Mesh {
    /// A mesh without vertices and faces.
    fn default() -> (r: Mesh)
        ensures
            r@ == (MeshModel { vertices: Seq::empty(), faces: Seq::empty() }),
    {
        Mesh::empty()
    }
}

} // verus!
