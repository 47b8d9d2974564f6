//! What the makers of meshes promise, told by the places of the corners of faces.
use crate::bevel_laws::following;
use crate::decimate::{cells_fit, clustered, is_clustered, is_mean, members, rank};
use crate::mesh::{made_from, outline, MeshModel};
use crate::mesh_fan::{
    corners, drawn_corners, drawn_triangle, fans, heights, is_top, upmost, upmost_is_the_last_maximum,
    MeshCorner,
};
use crate::mesh_make::{lemma_copies, mirrored_model, repeated};
use crate::mesh_shapes::{
    cap_triangle, cell, cell_triangle, is_lathe, is_relief, is_tube, lathe_face, sample, tube_face,
};
use crate::number::{Real, Vec3};
use crate::pick_laws::{coordinate, fan_triangle, has_triangle, meshes_are_drawn_as_fans};
use crate::subdivide_laws::has_side;
use crate::topology_laws::next_place;
use vstd::prelude::*;

verus! {

/// Whether a face over vertices `n` further on walks side `k` of another the other way.
pub open spec fn walks_back(face: Seq<u32>, image: Seq<u32>, n: int, k: int) -> bool {
    exists|l: int|
        0 <= l < image.len() && #[trigger] image[l] == n + following(face, k) && following(image, l)
            == n + face[k]
}

/// Mirroring keeps the mesh, and adds for each vertex one that lies across the plane of the axis:
/// as far from it on the other side, and at the same place along the other axes. For each face it
/// adds one over those vertices that walks every side the other way.
pub proof fn mirror_images_lie_across(m: MeshModel, axis: int)
    requires
        0 <= axis < 3,
        m.in_range(),
        2 * m.vertices.len() <= u32::MAX,
    ensures
        ({
            let n = m.vertices.len() as int;
            let nf = m.faces.len() as int;
            let out = mirrored_model(m, axis);
            &&& out.vertices.len() == 2 * n && out.faces.len() == 2 * nf
            &&& forall|i: int| 0 <= i < n ==> #[trigger] out.vertices[i] == m.vertices[i]
            &&& forall|f: int| 0 <= f < nf ==> #[trigger] out.faces[f] == m.faces[f]
            &&& forall|i: int, k: int|
                0 <= i < n && 0 <= k < 3 ==> {
                    let p = #[trigger] coordinate(m.vertices[i], k);
                    let q = coordinate(out.vertices[n + i], k);
                    if k == axis {
                        q.place() == -p.place() && q.magnitude() == p.magnitude() && q != p
                    } else {
                        q == p
                    }
                }
            &&& forall|f: int|
                0 <= f < nf ==> (#[trigger] m.faces[f]).len() == out.faces[nf + f].len()
            &&& forall|f: int, k: int|
                #[trigger] has_side(m.faces, f, k) ==> walks_back(
                    m.faces[f],
                    out.faces[nf + f],
                    n,
                    k,
                )
        }),
{
    let n = m.vertices.len() as int;
    let nf = m.faces.len() as int;
    let out = mirrored_model(m, axis);
    assert forall|i: int, k: int| 0 <= i < n && 0 <= k < 3 implies {
        let p = #[trigger] coordinate(m.vertices[i], k);
        let q = coordinate(out.vertices[n + i], k);
        if k == axis {
            q.place() == -p.place() && q.magnitude() == p.magnitude() && q != p
        } else {
            q == p
        }
    } by {
        assert(out.vertices[n + i] == crate::mesh_make::reflected(m.vertices[i], axis));
    }
    assert forall|f: int| 0 <= f < nf implies (#[trigger] m.faces[f]).len() == out.faces[nf
        + f].len() by {
        assert(out.faces[nf + f] == crate::mesh_make::turned(m.faces[f], n));
    }
    assert forall|f: int, k: int|
        #[trigger] has_side(m.faces, f, k) implies walks_back(
        m.faces[f],
        out.faces[nf + f],
        n,
        k,
    ) by {
        let face = m.faces[f];
        let c = face.len() as int;
        assert(crate::mesh::face_below(face, m.vertices.len()));
        let l = if k == c - 1 {
            0
        } else {
            c - 1 - k
        };
        assert(face[k] < n && following(face, k) < n);
        assert(out.faces[nf + f][l] == n + following(face, k));
        assert(following(out.faces[nf + f], l) == n + face[k]);
    }
}

/// Every copy in an array is the mesh again: where a face of the mesh has a corner, the copy of the
/// face has the copy of it, moved by the number of its copy. The first copy is number nothing.
pub proof fn copies_are_congruent(
    before: MeshModel,
    after: MeshModel,
    count: int,
    place: spec_fn(Vec3, int, Vec3) -> bool,
    c: int,
    f: int,
    k: int,
)
    requires
        before.in_range(),
        count * before.vertices.len() <= u32::MAX,
        repeated(before, after, count, place),
        0 <= c < count,
        0 <= f < before.faces.len(),
        0 <= k < before.faces[f].len(),
    ensures
        ({
            let nf = before.faces.len() as int;
            let face = after.faces[c * nf + f];
            &&& face.len() == before.faces[f].len()
            &&& face[k] == c * before.vertices.len() + before.faces[f][k]
            &&& place(
                before.vertices[before.faces[f][k] as int],
                c,
                after.vertices[face[k] as int],
            )
        }),
{
    let n = before.vertices.len() as int;
    let v = before.faces[f][k] as int;
    assert(crate::mesh::face_below(before.faces[f], before.vertices.len()));
    assert(v < n);
    lemma_copies(c, n, count, v);
    assert(place(before.vertices[v], c, after.vertices[c * n + v]));
    lemma_copies(c, before.faces.len() as int, count, f);
}

/// The places along a path and around a cross-section that the corners of a quad of a tube have:
/// two neighbours around one ring, and the same two around the next ring, back again.
pub proof fn tubes_join_their_rings<P: Fn(usize, usize) -> Vec3>(
    out: MeshModel,
    rings: int,
    n: int,
    place: P,
    s: int,
    p: int,
)
    requires
        is_tube(out, rings, n, place),
        rings * n <= u32::MAX,
        n >= 1,
        0 <= s < rings - 1,
        0 <= p < n,
    ensures
        ({
            let face = out.faces[s * n + p];
            let q = next_place(p, n);
            &&& face.len() == 4
            &&& place.ensures((s as usize, p as usize), out.vertices[face[0] as int])
            &&& place.ensures((s as usize, q as usize), out.vertices[face[1] as int])
            &&& place.ensures(((s + 1) as usize, q as usize), out.vertices[face[2] as int])
            &&& place.ensures(((s + 1) as usize, p as usize), out.vertices[face[3] as int])
            &&& out.faces[s * n + q][0] == face[1] && out.faces[s * n + q][3] == face[2]
            &&& s + 1 < rings - 1 ==> out.faces[(s + 1) * n + p][0] == face[3]
                && out.faces[(s + 1) * n + p][1] == face[2]
        }),
{
    let q = next_place(p, n);
    lemma_copies(s, n, rings, p);
    lemma_copies(s, n, rings, q);
    lemma_copies(s + 1, n, rings, p);
    lemma_copies(s + 1, n, rings, q);
    assert(out.faces[s * n + p] == tube_face(n, s, p));
    assert(out.faces[s * n + q] == tube_face(n, s, q));
    if s + 1 < rings - 1 {
        assert(out.faces[(s + 1) * n + p] == tube_face(n, s + 1, p));
    }
    assert(place.ensures((s as usize, p as usize), out.vertices[s * n + p]));
    assert(place.ensures((s as usize, q as usize), out.vertices[s * n + q]));
    assert(place.ensures(((s + 1) as usize, p as usize), out.vertices[(s + 1) * n + p]));
    assert(place.ensures(((s + 1) as usize, q as usize), out.vertices[(s + 1) * n + q]));
}

/// Whether a vertex of a lathe is point `p` of the profile in slice `s`.
pub open spec fn turned_to<P: Fn(usize, usize, Real, Real) -> Vec3>(
    out: MeshModel,
    profile: Seq<(Real, Real)>,
    steps: int,
    place: P,
    v: u32,
    s: int,
    p: int,
) -> bool {
    v < out.vertices.len() && place.ensures(
        (s as usize, steps as usize, profile[p].0, profile[p].1),
        out.vertices[v as int],
    )
}

/// Whether a distance from the axis is less than one hundred-thousandth.
pub open spec fn at_axis(r: Real) -> bool {
    r.magnitude() < 0x3727_c5ac
}

/// Between two points of a profile and two slices a lathe has a quad that goes around them; where
/// one of the points is on the axis it has a triangle. The last slice meets the first.
pub proof fn lathes_join_their_slices<P: Fn(usize, usize, Real, Real) -> Vec3>(
    out: MeshModel,
    profile: Seq<(Real, Real)>,
    steps: int,
    place: P,
    s: int,
    p: int,
)
    requires
        is_lathe(out, profile, steps, place),
        steps >= 3,
        profile.len() >= 2,
        steps * profile.len() + 2 <= u32::MAX,
        0 <= s < steps,
        0 <= p < profile.len() - 1,
    ensures
        ({
            let face = out.faces[s * (profile.len() - 1) + p];
            let t = next_place(s, steps);
            if at_axis(profile[p].0) {
                &&& face.len() == 3
                &&& turned_to(out, profile, steps, place, face[0], s, p)
                &&& turned_to(out, profile, steps, place, face[1], s, p + 1)
                &&& turned_to(out, profile, steps, place, face[2], t, p + 1)
            } else if at_axis(profile[p + 1].0) {
                &&& face.len() == 3
                &&& turned_to(out, profile, steps, place, face[0], s, p)
                &&& turned_to(out, profile, steps, place, face[1], t, p)
                &&& turned_to(out, profile, steps, place, face[2], s, p + 1)
            } else {
                &&& face.len() == 4
                &&& turned_to(out, profile, steps, place, face[0], s, p)
                &&& turned_to(out, profile, steps, place, face[1], t, p)
                &&& turned_to(out, profile, steps, place, face[2], t, p + 1)
                &&& turned_to(out, profile, steps, place, face[3], s, p + 1)
            }
        }),
{
    let n = profile.len() as int;
    let t = next_place(s, steps);
    assert(out.faces[s * (n - 1) + p] == lathe_face(profile, steps, s, p));
    lemma_turned(out, profile, steps, place, s, p);
    lemma_turned(out, profile, steps, place, s, p + 1);
    lemma_turned(out, profile, steps, place, t, p);
    lemma_turned(out, profile, steps, place, t, p + 1);
}

proof fn lemma_turned<P: Fn(usize, usize, Real, Real) -> Vec3>(
    out: MeshModel,
    profile: Seq<(Real, Real)>,
    steps: int,
    place: P,
    s: int,
    p: int,
)
    requires
        is_lathe(out, profile, steps, place),
        steps * profile.len() + 2 <= u32::MAX,
        0 <= s < steps,
        0 <= p < profile.len(),
    ensures
        turned_to(out, profile, steps, place, cell(profile.len() as int, s, p), s, p),
{
    let n = profile.len() as int;
    lemma_copies(s, n, steps, p);
    assert(place.ensures(
        (s as usize, steps as usize, profile[p].0, profile[p].1),
        out.vertices[s * n + p],
    ));
}

/// An end of a profile that is on the axis is closed by a fan of triangles around one vertex on the
/// axis at its height, one for each slice. The two fans wind opposite ways.
pub proof fn lathes_are_capped_at_the_axis<P: Fn(usize, usize, Real, Real) -> Vec3>(
    out: MeshModel,
    profile: Seq<(Real, Real)>,
    steps: int,
    place: P,
    s: int,
)
    requires
        is_lathe(out, profile, steps, place),
        steps >= 3,
        profile.len() >= 2,
        steps * profile.len() + 2 <= u32::MAX,
        0 <= s < steps,
    ensures
        ({
            let n = profile.len() as int;
            let sides = steps * (n - 1);
            let (low, high) = (at_axis(profile[0].0), at_axis(profile[n - 1].0));
            let t = next_place(s, steps);
            let zero = Real { bits: 0 };
            &&& low ==> {
                let face = out.faces[sides + s];
                &&& face.len() == 3
                &&& out.vertices[face[0] as int] == (Vec3 { x: zero, y: profile[0].1, z: zero })
                &&& turned_to(out, profile, steps, place, face[1], t, 0)
                &&& turned_to(out, profile, steps, place, face[2], s, 0)
            }
            &&& high ==> {
                let face = out.faces[sides + (if low { steps } else { 0 }) + s];
                &&& face.len() == 3
                &&& out.vertices[face[0] as int] == (Vec3 {
                    x: zero,
                    y: profile[n - 1].1,
                    z: zero,
                })
                &&& turned_to(out, profile, steps, place, face[1], s, n - 1)
                &&& turned_to(out, profile, steps, place, face[2], t, n - 1)
            }
            &&& out.faces.len() == sides + (if low { steps } else { 0 }) + (if high {
                steps
            } else {
                0
            })
            &&& out.vertices.len() == steps * n + (if low { 1int } else { 0 }) + (if high {
                1int
            } else {
                0
            })
        }),
{
    let n = profile.len() as int;
    let t = next_place(s, steps);
    lemma_turned(out, profile, steps, place, s, 0);
    lemma_turned(out, profile, steps, place, t, 0);
    lemma_turned(out, profile, steps, place, s, n - 1);
    lemma_turned(out, profile, steps, place, t, n - 1);
    let low = crate::mesh_shapes::caps_low(profile);
    let high = crate::mesh_shapes::caps_high(profile);
    assert(low * steps == (if at_axis(profile[0].0) { steps } else { 0 })) by (nonlinear_arith)
        requires
            low == (if at_axis(profile[0].0) { 1int } else { 0 }),
    ;
    assert(high * steps == (if at_axis(profile[n - 1].0) { steps } else { 0 })) by (nonlinear_arith)
        requires
            high == (if at_axis(profile[n - 1].0) { 1int } else { 0 }),
    ;
    assert(0 <= steps * n) by (nonlinear_arith)
        requires
            steps >= 3,
            n >= 2,
    ;
    if low == 1 {
        assert(out.faces[steps * (n - 1) + s] == cap_triangle(n, steps, low, s, true));
    }
    if high == 1 {
        assert(out.faces[steps * (n - 1) + low * steps + s] == cap_triangle(
            n,
            steps,
            low,
            s,
            false,
        ));
    }
}

/// The point of a relief in column `x` of row `y` is put by the pixel that lies as far across and
/// down the picture, as even steps go: it begins no later than the point, and the next one later. A
/// grid of the size of the picture reads each pixel for its own point.
pub proof fn reliefs_read_the_picture(
    pixels: Seq<u8>,
    width: int,
    height: int,
    w: int,
    h: int,
    x: int,
    y: int,
    i: int,
    j: int,
)
    requires
        0 < width,
        0 < height,
        pixels.len() >= 4 * (width * height),
        0 <= x < w,
        0 <= y < h,
        i * w <= x * width < (i + 1) * w,
        j * h <= y * height < (j + 1) * h,
    ensures
        0 <= i < width,
        0 <= j < height,
        ({
            let at = 4 * (j * width + i);
            sample(pixels, width, height, w, h, x, y) == Some(
                (pixels[at], pixels[at + 1], pixels[at + 2]),
            )
        }),
        w == width ==> i == x,
        h == height ==> j == y,
{
    lemma_even_step(width, w, x, i);
    lemma_even_step(height, h, y, j);
    assert(0 <= j * width + i && (j * width + i) + 1 <= width * height) by (nonlinear_arith)
        requires
            0 <= i < width,
            0 <= j < height,
    ;
}

pub(crate) proof fn lemma_even_step(width: int, w: int, x: int, i: int)
    requires
        0 < width,
        0 <= x < w,
        i * w <= x * width < (i + 1) * w,
    ensures
        0 <= i < width,
        x * width / w == i,
        w == width ==> i == x,
{
    assert(0 <= x * width) by (nonlinear_arith)
        requires
            0 <= x,
            0 < width,
    ;
    assert(i >= 0) by (nonlinear_arith)
        requires
            0 <= x * width < (i + 1) * w,
            w > 0,
    ;
    assert(i < width) by (nonlinear_arith)
        requires
            i * w <= x * width,
            x < w,
            width > 0,
            w > 0,
    ;
    assert((i + 1) * w == i * w + w) by (nonlinear_arith);
    vstd::arithmetic::div_mod::lemma_fundamental_div_mod_converse(
        x * width,
        w,
        i,
        x * width - i * w,
    );
    if w == width {
        assert(i == x) by (nonlinear_arith)
            requires
                i * w <= x * w < (i + 1) * w,
                w > 0,
        ;
    }
}

/// Over each cell of a relief lie two triangles that meet along the line from its first corner to
/// the one across, each walking it the other way.
pub proof fn reliefs_cover_their_cells<
    P: Fn(usize, usize, usize, usize, Option<(u8, u8, u8)>) -> Vec3,
>(
    out: MeshModel,
    pixels: Seq<u8>,
    width: int,
    height: int,
    w: int,
    h: int,
    place: P,
    x: int,
    y: int,
)
    requires
        is_relief(out, pixels, width, height, w, h, place),
        h * w <= u32::MAX,
        0 <= x < w - 1,
        0 <= y < h - 1,
    ensures
        ({
            let one = out.faces[2 * (y * (w - 1) + x)];
            let other = out.faces[2 * (y * (w - 1) + x) + 1];
            &&& one.len() == 3 && other.len() == 3
            &&& one[0] == y * w + x && one[1] == y * w + (x + 1) && one[2] == (y + 1) * w + (x + 1)
            &&& other[0] == one[0] && other[1] == one[2] && other[2] == (y + 1) * w + x
        }),
{
    lemma_copies(y, w, h, x);
    lemma_copies(y, w, h, x + 1);
    lemma_copies(y + 1, w, h, x);
    lemma_copies(y + 1, w, h, x + 1);
    assert(out.faces[2 * (y * (w - 1) + x)] == cell_triangle(w, y, x, false));
    assert(out.faces[2 * (y * (w - 1) + x) + 1] == cell_triangle(w, y, x, true));
}

proof fn lemma_rank(cells: Seq<usize>, a: int, b: int)
    requires
        0 <= a <= b,
    ensures
        rank(cells, a) <= rank(cells, b),
        a < b && cells.contains(a as usize) && a <= usize::MAX ==> rank(cells, a) < rank(cells, b),
    decreases b,
{
    if a < b {
        lemma_rank(cells, a, b - 1);
    }
}

/// Clustering makes one vertex of all that are in a cell, in the order of the cells: two vertices
/// become one exactly where they are in the same cell.
pub proof fn clusters_gather_their_cells(cells: Seq<usize>, i: int, j: int)
    requires
        0 <= i < cells.len(),
        0 <= j < cells.len(),
    ensures
        rank(cells, cells[i] as int) == rank(cells, cells[j] as int) <==> cells[i] == cells[j],
        rank(cells, cells[i] as int) < rank(cells, cells[j] as int) <==> cells[i] < cells[j],
{
    if cells[i] < cells[j] {
        lemma_rank(cells, cells[i] as int, cells[j] as int);
    } else {
        lemma_rank(cells, cells[j] as int, cells[i] as int);
    }
    assert(cells.contains(cells[i]) && cells.contains(cells[j]));
}

proof fn lemma_members(cells: Seq<usize>, c: int)
    requires
        cells.len() <= usize::MAX,
    ensures
        ({
            let m = members(cells, c);
            &&& forall|k: int|
                0 <= k < m.len() ==> (#[trigger] m[k]) < cells.len() && cells[m[k] as int] == c
            &&& forall|k: int, l: int|
                0 <= k < l < m.len() ==> (#[trigger] m[k]) < (#[trigger] m[l])
            &&& forall|i: int|
                0 <= i < cells.len() && #[trigger] cells[i] == c ==> m.contains(i as usize)
        }),
    decreases cells.len(),
{
    if cells.len() > 0 {
        let front = cells.drop_last();
        lemma_members(front, c);
        let less = members(front, c);
        let m = members(cells, c);
        assert forall|k: int| 0 <= k < m.len() implies (#[trigger] m[k]) < cells.len()
            && cells[m[k] as int] == c by {
            if k < less.len() {
                assert(less[k] == m[k]);
                assert(front[less[k] as int] == cells[m[k] as int]);
            }
        }
        assert forall|k: int, l: int| 0 <= k < l < m.len() implies (#[trigger] m[k]) < (
        #[trigger] m[l]) by {
            assert(less[k] == m[k]);
            if l < less.len() {
                assert(less[l] == m[l]);
            }
        }
        assert forall|i: int| 0 <= i < cells.len() && #[trigger] cells[i] == c implies m.contains(
            i as usize,
        ) by {
            if i < front.len() {
                assert(front[i] == c);
                assert(less.contains(i as usize));
                let k = less.index_of(i as usize);
                assert(m[k] == i as usize);
            } else {
                assert(m[m.len() - 1] == i as usize);
            }
        }
    }
}

/// The vertex of a cell is made from the positions of all vertices in the cell and no others, each
/// once, in their order.
pub proof fn clusters_are_means_of_their_members<M: Fn(Vec<Vec3>) -> Vec3>(
    before: MeshModel,
    after: MeshModel,
    cells: Seq<usize>,
    n: int,
    mean: M,
    i: int,
)
    requires
        before.vertices.len() <= usize::MAX,
        cells_fit(cells, before.vertices.len(), n),
        is_clustered(before, after, cells, n, mean),
        0 <= i < cells.len(),
    ensures
        exists|given: Vec<Vec3>, who: Seq<usize>|
            {
                &&& #[trigger] mean.ensures(
                    (given,),
                    after.vertices[rank(cells, cells[i] as int)],
                )
                &&& #[trigger] in_cell(cells, cells[i], who)
                &&& given.len() == who.len()
                &&& forall|k: int|
                    0 <= k < who.len() ==> #[trigger] given[k] == before.vertices[who[k] as int]
            },
{
    let c = cells[i];
    assert(cells.contains(c));
    assert(cells.contains((c as int) as usize));
    assert(cells[i] < n);
    lemma_members(cells, c as int);
    let who = members(cells, c as int);
    assert(is_mean(
        before.vertices,
        cells,
        c as int,
        mean,
        after.vertices[rank(cells, c as int)],
    ));
    let given = choose|given: Vec<Vec3>|
        given@ == Seq::new(who.len(), |i: int| before.vertices[who[i] as int])
            && #[trigger] mean.ensures((given,), after.vertices[rank(cells, c as int)]);
    assert(in_cell(cells, c, who));
    assert forall|k: int| 0 <= k < who.len() implies #[trigger] given[k]
        == before.vertices[who[k] as int] by {
        assert(given@[k] == Seq::new(who.len(), |i: int| before.vertices[who[i] as int])[k]);
    }
}

/// Whether `who` lists the vertices in a cell, in order.
pub open spec fn in_cell(cells: Seq<usize>, c: usize, who: Seq<usize>) -> bool {
    &&& forall|k: int, l: int| 0 <= k < l < who.len() ==> (#[trigger] who[k]) < (#[trigger] who[l])
    &&& forall|k: int|
        0 <= k < who.len() ==> (#[trigger] who[k]) < cells.len() && cells[who[k] as int] == c
    &&& forall|i: int|
        0 <= i < cells.len() && #[trigger] cells[i] == c ==> who.contains(i as usize)
}

/// Whether a triangle of a clustered mesh is one of the mesh, corner by corner.
pub open spec fn stays_as(
    cells: Seq<usize>,
    tri: (u32, u32, u32),
    face: Seq<u32>,
) -> bool {
    let (a, b, c) = (cells[tri.0 as int], cells[tri.1 as int], cells[tri.2 as int]);
    &&& a != b && b != c && a != c
    &&& face.len() == 3
    &&& face[0] == rank(cells, a as int) as u32
    &&& face[1] == rank(cells, b as int) as u32
    &&& face[2] == rank(cells, c as int) as u32
}

/// Whether a triangle of a clustered mesh is one of the fan of some face of the mesh.
pub open spec fn stays_from(faces: Seq<Seq<u32>>, cells: Seq<usize>, face: Seq<u32>) -> bool {
    exists|f: int, k: int| #[trigger]
        has_triangle(faces, f, k) && stays_as(
            cells,
            (faces[f][0], faces[f][k], faces[f][k + 1]),
            face,
        )
}

/// The triangle that face `f` of a clustered mesh comes from.
proof fn came_from(
    triangles: Seq<(int, (u32, u32, u32))>,
    cells: Seq<usize>,
    f: int,
) -> (t: int)
    requires
        0 <= f < clustered(triangles, cells).len(),
    ensures
        0 <= t < triangles.len(),
        stays_as(cells, triangles[t].1, clustered(triangles, cells)[f]),
    decreases triangles.len(),
{
    let front = triangles.drop_last();
    let less = clustered(front, cells);
    if f < less.len() {
        let t = came_from(front, cells, f);
        assert(front[t] == triangles[t]);
        assert(clustered(triangles, cells)[f] == less[f]);
        t
    } else {
        triangles.len() - 1
    }
}

/// The face of a clustered mesh that triangle `t` becomes.
proof fn went_to(
    triangles: Seq<(int, (u32, u32, u32))>,
    cells: Seq<usize>,
    t: int,
) -> (f: int)
    requires
        0 <= t < triangles.len(),
        parts_cells(cells, triangles[t].1),
    ensures
        0 <= f < clustered(triangles, cells).len(),
        stays_as(cells, triangles[t].1, clustered(triangles, cells)[f]),
    decreases triangles.len(),
{
    let front = triangles.drop_last();
    let less = clustered(front, cells);
    if t < triangles.len() - 1 {
        assert(front[t] == triangles[t]);
        let f = went_to(front, cells, t);
        assert(clustered(triangles, cells)[f] == less[f]);
        f
    } else {
        clustered(triangles, cells).len() - 1
    }
}

/// Whether the corners of a triangle are in three different cells.
pub open spec fn parts_cells(cells: Seq<usize>, tri: (u32, u32, u32)) -> bool {
    let (a, b, c) = (cells[tri.0 as int], cells[tri.1 as int], cells[tri.2 as int]);
    a != b && b != c && a != c
}

/// The triangles of a clustered mesh are those of the mesh whose corners are in three different
/// cells, with the vertices of those cells as corners, wound as they were.
pub proof fn clusters_keep_the_triangles_between_cells<M: Fn(Vec<Vec3>) -> Vec3>(
    before: MeshModel,
    after: MeshModel,
    cells: Seq<usize>,
    n: int,
    mean: M,
)
    requires
        is_clustered(before, after, cells, n, mean),
    ensures
        forall|g: int|
            0 <= g < after.faces.len() ==> stays_from(
                before.faces,
                cells,
                #[trigger] after.faces[g],
            ),
        forall|f: int, k: int| #[trigger]
            has_triangle(before.faces, f, k) && parts_cells(
                cells,
                (before.faces[f][0], before.faces[f][k], before.faces[f][k + 1]),
            ) ==> exists|g: int|
                0 <= g < after.faces.len() && stays_as(
                    cells,
                    (before.faces[f][0], before.faces[f][k], before.faces[f][k + 1]),
                    #[trigger] after.faces[g],
                ),
{
    let triangles = fans(before.faces);
    meshes_are_drawn_as_fans(before.faces);
    assert forall|g: int| 0 <= g < after.faces.len() implies stays_from(
        before.faces,
        cells,
        #[trigger] after.faces[g],
    ) by {
        let t = came_from(triangles, cells, g);
        let (f, tri) = triangles[t];
        let k = choose|k: int| fan_triangle(before.faces[f], k, tri);
        assert(has_triangle(before.faces, f, k));
    }
    assert forall|f: int, k: int| #[trigger] has_triangle(before.faces, f, k) && parts_cells(
        cells,
        (before.faces[f][0], before.faces[f][k], before.faces[f][k + 1]),
    ) implies exists|g: int|
        0 <= g < after.faces.len() && stays_as(
            cells,
            (before.faces[f][0], before.faces[f][k], before.faces[f][k + 1]),
            #[trigger] after.faces[g],
        ) by {
        let want = (f, (before.faces[f][0], before.faces[f][k], before.faces[f][k + 1]));
        assert(triangles.contains(want));
        let t = triangles.index_of(want);
        assert(triangles[t] == want);
        let g = went_to(triangles, cells, t);
        assert(stays_as(cells, triangles[t].1, after.faces[g]));
    }
}

/// A list of triangles is written down corner by corner.
pub proof fn triangles_are_listed_by_corners(triangles: Seq<(int, (u32, u32, u32))>, t: int)
    requires
        0 <= t < triangles.len(),
    ensures
        corners(triangles).len() == 3 * triangles.len(),
        corners(triangles)[3 * t] == triangles[t].1.0,
        corners(triangles)[3 * t + 1] == triangles[t].1.1,
        corners(triangles)[3 * t + 2] == triangles[t].1.2,
    decreases triangles.len(),
{
    reveal_with_fuel(corners, 2);
    let front = triangles.drop_last();
    if front.len() > 0 {
        triangles_are_listed_by_corners(front, if t < front.len() { t } else { 0 });
    }
    if t < front.len() {
        assert(front[t] == triangles[t]);
    }
}

/// Every triangle of the fan of every polygon is drawn, with its corners in order, as one of the
/// face it belongs to, and lit exactly where that is the face to be shown lit.
pub proof fn drawn_meshes_show_their_faces(
    faces: Seq<Seq<u32>>,
    highlight: Option<usize>,
    r: Seq<MeshCorner>,
    f: int,
    k: int,
)
    requires
        faces.len() <= usize::MAX,
        drawn_corners(fans(faces), highlight, r),
        has_triangle(faces, f, k),
    ensures
        exists|t: int|
            {
                &&& 0 <= 3 * t && 3 * t + 2 < r.len()
                &&& (#[trigger] r[3 * t]).vertex == faces[f][0] && r[3 * t + 1].vertex == faces[f][k]
                    && r[3 * t + 2].vertex == faces[f][k + 1]
                &&& r[3 * t].face == f && r[3 * t + 1].face == f && r[3 * t + 2].face == f
                &&& r[3 * t].lit == (highlight == Some(f as usize))
                &&& r[3 * t + 1].lit == r[3 * t].lit && r[3 * t + 2].lit == r[3 * t].lit
            },
{
    let triangles = fans(faces);
    meshes_are_drawn_as_fans(faces);
    let want = (f, (faces[f][0], faces[f][k], faces[f][k + 1]));
    assert(triangles.contains(want));
    let t = triangles.index_of(want);
    assert(drawn_triangle(triangles[t], highlight, r, 3 * t));
    assert(r[3 * t].vertex == faces[f][0]);
}

/// The face that points most upward has a normal that reaches no less far up than that of any face.
pub proof fn top_faces_point_most_upward<N: Fn(Vec<Vec3>) -> Vec3>(
    mesh: MeshModel,
    normal: N,
    r: Option<usize>,
)
    requires
        is_top(mesh, normal, r),
        mesh.faces.len() <= usize::MAX,
        forall|given: Vec<Vec3>, n: Vec3| #[trigger] normal.ensures((given,), n) ==> !n.y.nan(),
    ensures
        r is None <==> mesh.faces.len() == 0,
        r matches Some(f) ==> f < mesh.faces.len() && exists|normals: Seq<Vec3>|
            {
                &&& #[trigger] normals.len() == mesh.faces.len()
                &&& forall|g: int|
                    0 <= g < normals.len() ==> made_from(
                        normal,
                        outline(mesh.vertices, mesh.faces[g]),
                        #[trigger] normals[g],
                    ) && !normals[f as int].y.less(normals[g].y)
            },
{
    if mesh.faces.len() > 0 {
        let normals = choose|normals: Seq<Vec3>|
            normals.len() == mesh.faces.len() && (forall|f: int|
                0 <= f < normals.len() ==> made_from(
                    normal,
                    outline(mesh.vertices, mesh.faces[f]),
                    #[trigger] normals[f],
                )) && r == Some(#[trigger] upmost(heights(normals), normals.len() as int) as usize);
        let keys = heights(normals);
        assert forall|i: int| 0 <= i < keys.len() implies !(#[trigger] keys[i]).nan() by {
            assert(made_from(normal, outline(mesh.vertices, mesh.faces[i]), normals[i]));
        }
        upmost_is_the_last_maximum(keys, keys.len() as int);
        let f = r->0;
        assert forall|g: int| 0 <= g < normals.len() implies !normals[f as int].y.less(
            (#[trigger] normals[g]).y,
        ) by {
            assert(!keys[f as int].less(keys[g]));
        }
        assert(normals.len() == mesh.faces.len());
    }
}

} // verus!
