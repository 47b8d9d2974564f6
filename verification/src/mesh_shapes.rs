//! Meshes made from pictures, profiles, paths and triangle lists.
use crate::mesh::{face_below, quad, succ, succ_of, triangle, Face, Mesh, MeshModel};
use crate::mesh_make::{lemma_copies, lemma_place_in_copies};
use crate::number::{Real, Vec3, ZERO_BITS};
use vstd::prelude::*;

verus! {

/// The bit pattern of the distance from the axis, one hundred-thousandth, below which a
/// profile point counts as on it.
pub const AXIS_BITS: u32 = 0x3727_c5ac;

/// The vertex at column `x` of row `y` in rows of `w`.
pub open spec fn cell(w: int, y: int, x: int) -> u32 {
    (y * w + x) as u32
}

/// The pixel of a picture that the grid point `(xi, yi)` of a `w` by `h` grid reads, none
/// beyond the end of the picture.
pub open spec fn sample(
    pixels: Seq<u8>,
    width: int,
    height: int,
    w: int,
    h: int,
    xi: int,
    yi: int,
) -> Option<(u8, u8, u8)> {
    let x = if xi * width / w < width - 1 { xi * width / w } else { width - 1 };
    let y = if yi * height / h < height - 1 { yi * height / h } else { height - 1 };
    let at = (y * width + x) * 4;
    if at + 2 >= pixels.len() {
        None
    } else {
        Some((pixels[at], pixels[at + 1], pixels[at + 2]))
    }
}

/// The column of a picture `width` wide that column `xi` of a grid `w` wide reads.
fn source_of(xi: usize, width: u32, w: usize) -> (r: u64)
    requires
        0 < width,
        xi < w <= u32::MAX,
    ensures
        r == (if xi * width / (w as int) < width - 1 {
            xi * width / (w as int)
        } else {
            width - 1
        }),
        r < width,
{
    assert(0 <= xi * width <= 0xffff_ffff * 0xffff_ffff) by (nonlinear_arith)
        requires
            0 <= xi <= 0xffff_ffff,
            0 <= width <= 0xffff_ffff,
    ;
    let at: u64 = xi as u64 * width as u64 / w as u64;
    if at < width as u64 - 1 {
        at
    } else {
        width as u64 - 1
    }
}

fn sample_of(
    pixels: &[u8],
    width: u32,
    height: u32,
    w: usize,
    h: usize,
    xi: usize,
    yi: usize,
) -> (r: Option<(u8, u8, u8)>)
    requires
        0 < width,
        0 < height,
        xi < w <= u32::MAX,
        yi < h <= u32::MAX,
    ensures
        r == sample(
            pixels@,
            width as int,
            height as int,
            w as int,
            h as int,
            xi as int,
            yi as int,
        ),
{
    let x: u64 = source_of(xi, width, w);
    let y: u64 = source_of(yi, height, h);
    assert(0 <= y * width <= 0xffff_ffff * 0xffff_ffff) by (nonlinear_arith)
        requires
            0 <= y <= 0xffff_ffff,
            0 <= width <= 0xffff_ffff,
    ;
    let at: u128 = (y as u128 * width as u128 + x as u128) * 4;
    if at + 2 >= pixels.len() as u128 {
        return None;
    }
    let at: usize = at as usize;
    Some((pixels[at], pixels[at + 1], pixels[at + 2]))
}

/// The two triangles of a grid cell.
pub open spec fn cell_triangle(w: int, y: int, x: int, second: bool) -> Seq<u32> {
    if second {
        seq![cell(w, y, x), cell(w, y + 1, x + 1), cell(w, y + 1, x)]
    } else {
        seq![cell(w, y, x), cell(w, y, x + 1), cell(w, y + 1, x + 1)]
    }
}

/// Whether `out` is a `w` by `h` grid of points, each where `place` puts it from its column,
/// its row, the size of the grid and the pixel it reads, with two triangles over each cell.
pub open spec fn is_relief<P: Fn(usize, usize, usize, usize, Option<(u8, u8, u8)>) -> Vec3>(
    out: MeshModel,
    pixels: Seq<u8>,
    width: int,
    height: int,
    w: int,
    h: int,
    place: P,
) -> bool {
    &&& out.vertices.len() == h * w
    &&& forall|y: int, x: int|
        #![trigger out.vertices[y * w + x]]
        0 <= y < h && 0 <= x < w ==> place.ensures(
            (
                x as usize,
                y as usize,
                w as usize,
                h as usize,
                sample(pixels, width, height, w, h, x, y),
            ),
            out.vertices[y * w + x],
        )
    &&& out.faces.len() == 2 * ((h - 1) * (w - 1))
    &&& forall|y: int, x: int|
        #![trigger cell_triangle(w, y, x, false)]
        0 <= y < h - 1 && 0 <= x < w - 1 ==> out.faces[2 * (y * (w - 1) + x)] == cell_triangle(
            w,
            y,
            x,
            false,
        )
    &&& forall|y: int, x: int|
        #![trigger cell_triangle(w, y, x, true)]
        0 <= y < h - 1 && 0 <= x < w - 1 ==> out.faces[2 * (y * (w - 1) + x) + 1] == cell_triangle(
            w,
            y,
            x,
            true,
        )
}

/// The larger of a number and two.
pub open spec fn at_least_two(n: int) -> int {
    if n < 2 { 2 } else { n }
}

/// The larger of a number and two.
pub(crate) fn two_or_more(n: u32) -> (r: usize)
    ensures
        r == at_least_two(n as int),
        r <= u32::MAX,
{
    if n < 2 {
        2
    } else {
        n as usize
    }
}

/// The vertex at column `x` of row `y` in rows of `w`.
fn cell_of(w: usize, y: usize, x: usize, Ghost(h): Ghost<int>) -> (r: u32)
    requires
        x < w,
        y < h,
        h * w <= u32::MAX,
    ensures
        r == cell(w as int, y as int, x as int),
        r == y * w + x,
        r < h * w,
{
    proof {
        lemma_copies(y as int, w as int, h, x as int);
    }
    (y * w + x) as u32
}

impl Mesh {
    /// A mesh over a grid of the pixels of a picture, rows of RGBA. The grid is the size of the
    /// picture, at least two by two. `place` puts a grid point from its column, its row, the
    /// size of the grid, and the color it reads.
    pub fn from_heightmap<P: Fn(usize, usize, usize, usize, Option<(u8, u8, u8)>) -> Vec3>(
        pixels: &[u8],
        width: u32,
        height: u32,
        place: P,
    ) -> (r: Mesh)
        requires
            width > 0,
            height > 0,
            at_least_two(height as int) * at_least_two(width as int) <= u32::MAX,
            forall|x: usize, y: usize, w: usize, h: usize, c: Option<(u8, u8, u8)>|
                place.requires((x, y, w, h, c)),
        ensures
            is_relief(
                r@,
                pixels@,
                width as int,
                height as int,
                at_least_two(width as int),
                at_least_two(height as int),
                place,
            ),
    {
        Mesh::relief(pixels, width, height, two_or_more(width), two_or_more(height), place)
    }

    /// A mesh over a `w` by `h` grid of the pixels of a picture, rows of RGBA.
    pub(crate) fn relief<P: Fn(usize, usize, usize, usize, Option<(u8, u8, u8)>) -> Vec3>(
        pixels: &[u8],
        width: u32,
        height: u32,
        w: usize,
        h: usize,
        place: P,
    ) -> (r: Mesh)
        requires
            width > 0,
            height > 0,
            2 <= w <= u32::MAX,
            2 <= h <= u32::MAX,
            h * w <= u32::MAX,
            forall|x: usize, y: usize, w: usize, h: usize, c: Option<(u8, u8, u8)>|
                place.requires((x, y, w, h, c)),
        ensures
            is_relief(r@, pixels@, width as int, height as int, w as int, h as int, place),
    {
        let ghost (gw, gh) = (w as int, h as int);
        let mut vertices: Vec<Vec3> = Vec::new();
        let mut y: usize = 0;
        while y < h
            invariant
                y <= h,
                gw == w,
                gh == h,
                w >= 2,
                h >= 2,
                w <= u32::MAX,
                h <= u32::MAX,
                width > 0,
                height > 0,
                forall|x: usize, y: usize, w: usize, h: usize, c: Option<(u8, u8, u8)>|
                    place.requires((x, y, w, h, c)),
                vertices.len() == y * gw,
                forall|v: int, x: int|
                    #![trigger vertices[v * gw + x]]
                    0 <= v < y && 0 <= x < gw ==> place.ensures(
                        (
                            x as usize,
                            v as usize,
                            w,
                            h,
                            sample(pixels@, width as int, height as int, gw, gh, x, v),
                        ),
                        vertices[v * gw + x],
                    ),
            decreases h - y,
        {
            let mut x: usize = 0;
            assert((y + 1) * gw == y * gw + gw) by (nonlinear_arith);
            while x < w
                invariant
                    x <= w,
                    y < h,
                    gw == w,
                    gh == h,
                    w <= u32::MAX,
                    h <= u32::MAX,
                    width > 0,
                    height > 0,
                    forall|x: usize, y: usize, w: usize, h: usize, c: Option<(u8, u8, u8)>|
                        place.requires((x, y, w, h, c)),
                    vertices.len() == y * gw + x,
                    forall|v: int, u: int|
                        #![trigger vertices[v * gw + u]]
                        0 <= v < y && 0 <= u < gw || v == y && 0 <= u < x ==> place.ensures(
                            (
                                u as usize,
                                v as usize,
                                w,
                                h,
                                sample(pixels@, width as int, height as int, gw, gh, u, v),
                            ),
                            vertices[v * gw + u],
                        ),
                decreases w - x,
            {
                let c: Option<(u8, u8, u8)> = sample_of(
                    pixels,
                    width,
                    height,
                    w,
                    h,
                    x,
                    y,
                );
                let ghost before = vertices@;
                vertices.push(place(x, y, w, h, c));
                proof {
                    assert forall|v: int, u: int|
                        #![trigger vertices[v * gw + u]]
                        0 <= v < y && 0 <= u < gw || v == y && 0 <= u < x + 1 implies place.ensures(
                        (
                            u as usize,
                            v as usize,
                            w,
                            h,
                            sample(pixels@, width as int, height as int, gw, gh, u, v),
                        ),
                        vertices[v * gw + u],
                    ) by {
                        if v < y {
                            lemma_copies(v, gw, y as int, u);
                            assert(vertices@[v * gw + u] == before[v * gw + u]);
                        } else if u < x {
                            lemma_copies(v, gw, y + 1, u);
                            assert(vertices@[v * gw + u] == before[v * gw + u]);
                        }
                    }
                }
                x = x + 1;
            }
            y = y + 1;
        }
        let mut faces: Vec<Face> = Vec::new();
        let mut y: usize = 0;
        while y < h - 1
            invariant
                y <= h - 1,
                gw == w,
                gh == h,
                w >= 2,
                h >= 2,
                h * w <= u32::MAX,
                faces.len() == 2 * (y * (gw - 1)),
                forall|v: int, u: int|
                    #![trigger cell_triangle(gw, v, u, false)]
                    0 <= v < y && 0 <= u < gw - 1 ==> faces[2 * (v * (gw - 1) + u)]@
                        == cell_triangle(gw, v, u, false),
                forall|v: int, u: int|
                    #![trigger cell_triangle(gw, v, u, true)]
                    0 <= v < y && 0 <= u < gw - 1 ==> faces[2 * (v * (gw - 1) + u) + 1]@
                        == cell_triangle(gw, v, u, true),
            decreases h - y,
        {
            let mut x: usize = 0;
            assert((y + 1) * (gw - 1) == y * (gw - 1) + (gw - 1)) by (nonlinear_arith);
            while x < w - 1
                invariant
                    x <= w - 1,
                    y < h - 1,
                    gw == w,
                    gh == h,
                    w >= 2,
                    h >= 2,
                    h * w <= u32::MAX,
                    faces.len() == 2 * (y * (gw - 1) + x),
                    forall|v: int, u: int|
                        #![trigger cell_triangle(gw, v, u, false)]
                        0 <= v < y && 0 <= u < gw - 1 || v == y && 0 <= u < x ==> faces[2 * (v * (
                        gw - 1) + u)]@ == cell_triangle(gw, v, u, false),
                    forall|v: int, u: int|
                        #![trigger cell_triangle(gw, v, u, true)]
                        0 <= v < y && 0 <= u < gw - 1 || v == y && 0 <= u < x ==> faces[2 * (v * (
                        gw - 1) + u) + 1]@ == cell_triangle(gw, v, u, true),
                decreases w - x,
            {
                let a: u32 = cell_of(w, y, x, Ghost(gh));
                let b: u32 = cell_of(w, y, x + 1, Ghost(gh));
                let c: u32 = cell_of(w, y + 1, x + 1, Ghost(gh));
                let d: u32 = cell_of(w, y + 1, x, Ghost(gh));
                let ghost before = faces@;
                let first = triangle(a, b, c);
                let second = triangle(a, c, d);
                faces.push(first);
                faces.push(second);
                proof {
                    assert(first@ =~= cell_triangle(gw, y as int, x as int, false));
                    assert(second@ =~= cell_triangle(gw, y as int, x as int, true));
                    assert forall|v: int, u: int| (0 <= v < y && 0 <= u < gw - 1 || v == y && 0 <= u
                        < x) implies 0 <= #[trigger] (2 * (v * (gw - 1) + u)) && 2 * (v * (gw - 1)
                        + u) + 1 < before.len() by {
                        if v < y {
                            lemma_copies(v, gw - 1, y as int, u);
                        } else {
                            lemma_copies(v, gw - 1, y + 1, u);
                        }
                    }
                    assert forall|v: int, u: int|
                        #![trigger cell_triangle(gw, v, u, false)]
                        0 <= v < y && 0 <= u < gw - 1 || v == y && 0 <= u < x + 1 implies faces[2 * (
                    v * (gw - 1) + u)]@ == cell_triangle(gw, v, u, false) by {
                        if v < y || u < x {
                            assert(2 * (v * (gw - 1) + u) + 1 < before.len());
                        }
                    }
                    assert forall|v: int, u: int|
                        #![trigger cell_triangle(gw, v, u, true)]
                        0 <= v < y && 0 <= u < gw - 1 || v == y && 0 <= u < x + 1 implies faces[2 * (
                    v * (gw - 1) + u) + 1]@ == cell_triangle(gw, v, u, true) by {
                        if v < y || u < x {
                            assert(2 * (v * (gw - 1) + u) + 1 < before.len());
                        }
                    }
                }
                x = x + 1;
            }
            y = y + 1;
        }
        let out = Mesh { vertices, faces };
        proof {
            assert forall|v: int, u: int| 0 <= v < gh - 1 && 0 <= u < gw - 1 implies 0
                <= #[trigger] (2 * (v * (gw - 1) + u)) && 2 * (v * (gw - 1) + u) + 1
                < faces.len() by {
                lemma_copies(v, gw - 1, gh - 1, u);
            }
            assert forall|v: int, u: int|
                #![trigger cell_triangle(gw, v, u, false)]
                0 <= v < gh - 1 && 0 <= u < gw - 1 implies out@.faces[2 * (v * (gw - 1) + u)]
                == cell_triangle(gw, v, u, false) by {
                assert(2 * (v * (gw - 1) + u) + 1 < faces.len());
            }
            assert forall|v: int, u: int|
                #![trigger cell_triangle(gw, v, u, true)]
                0 <= v < gh - 1 && 0 <= u < gw - 1 implies out@.faces[2 * (v * (gw - 1) + u) + 1]
                == cell_triangle(gw, v, u, true) by {
                assert(2 * (v * (gw - 1) + u) + 1 < faces.len());
            }
        }
        out
    }
}

/// Whether a profile point at distance `r` counts as on the axis.
pub open spec fn on_axis(r: Real) -> bool {
    r.magnitude() < AXIS_BITS
}

/// The face between profile points `p` and `p + 1` in slice `s` of a lathe: a triangle where
/// one of the points is on the axis, else a quad.
pub open spec fn lathe_face(profile: Seq<(Real, Real)>, steps: int, s: int, p: int) -> Seq<u32> {
    let n = profile.len() as int;
    let t = succ(s, steps);
    if on_axis(profile[p].0) {
        seq![cell(n, s, p), cell(n, s, p + 1), cell(n, t, p + 1)]
    } else if on_axis(profile[p + 1].0) {
        seq![cell(n, s, p), cell(n, t, p), cell(n, s, p + 1)]
    } else {
        seq![cell(n, s, p), cell(n, t, p), cell(n, t, p + 1), cell(n, s, p + 1)]
    }
}

/// The triangle of a cap in slice `s`: of the cap around the first profile point, or of the
/// cap around the last one, whose pole comes `low` after the first vertex past the rings.
pub open spec fn cap_triangle(n: int, steps: int, low: int, s: int, first: bool) -> Seq<u32> {
    let t = succ(s, steps);
    if first {
        seq![(steps * n) as u32, cell(n, t, 0), cell(n, s, 0)]
    } else {
        seq![(steps * n + low) as u32, cell(n, s, n - 1), cell(n, t, n - 1)]
    }
}

/// The point on the axis at height `y`.
pub open spec fn pole_point(y: Real) -> Vec3 {
    Vec3 { x: Real { bits: ZERO_BITS }, y, z: Real { bits: ZERO_BITS } }
}

/// The number of slices of a lathe: at least three.
pub open spec fn slices(steps: int) -> int {
    if steps < 3 { 3 } else { steps }
}

/// How many caps close the start of the profile: one if it is on the axis.
pub open spec fn caps_low(profile: Seq<(Real, Real)>) -> int {
    if on_axis(profile[0].0) { 1 } else { 0 }
}

/// How many caps close the end of the profile: one if it is on the axis.
pub open spec fn caps_high(profile: Seq<(Real, Real)>) -> int {
    if on_axis(profile[profile.len() - 1].0) { 1 } else { 0 }
}

/// Whether `out` is the profile turned around the axis in `steps` slices: a ring of points
/// for each slice where `place` puts them, a face for each slice and each pair of neighbouring
/// profile points, and a cap around a pole over an end of the profile that is on the axis.
pub open spec fn is_lathe<P: Fn(usize, usize, Real, Real) -> Vec3>(
    out: MeshModel,
    profile: Seq<(Real, Real)>,
    steps: int,
    place: P,
) -> bool {
    let n = profile.len() as int;
    let sides = steps * (n - 1);
    let low = caps_low(profile);
    let high = caps_high(profile);
    let ring = steps * n;
    &&& out.vertices.len() == ring + low + high
    &&& forall|s: int, p: int|
        #![trigger out.vertices[s * n + p]]
        0 <= s < steps && 0 <= p < n ==> place.ensures(
            (s as usize, steps as usize, profile[p].0, profile[p].1),
            out.vertices[s * n + p],
        )
    &&& low == 1 ==> out.vertices[ring] == pole_point(profile[0].1)
    &&& high == 1 ==> out.vertices[ring + low] == pole_point(profile[n - 1].1)
    &&& out.faces.len() == sides + low * steps + high * steps
    &&& forall|s: int, p: int|
        0 <= s < steps && 0 <= p < n - 1 ==> out.faces[s * (n - 1) + p] == #[trigger] lathe_face(
            profile,
            steps,
            s,
            p,
        )
    &&& low == 1 ==> forall|s: int|
        0 <= s < steps ==> out.faces[sides + s] == #[trigger] cap_triangle(
            n,
            steps,
            low,
            s,
            true,
        )
    &&& high == 1 ==> forall|s: int|
        0 <= s < steps ==> out.faces[sides + low * steps + s] == #[trigger] cap_triangle(
            n,
            steps,
            low,
            s,
            false,
        )
}

/// Append the triangles of a cap.
fn push_cap(faces: &mut Vec<Face>, n: usize, steps: usize, low: u32, first: bool)
    requires
        n > 0,
        low <= 1,
        steps * n + 1 <= u32::MAX,
    ensures
        final(faces).len() == old(faces).len() + steps,
        forall|i: int| 0 <= i < old(faces).len() ==> #[trigger] final(faces)[i] == old(faces)[i],
        forall|s: int|
            0 <= s < steps ==> final(faces)[old(faces).len() + s]@ == #[trigger] cap_triangle(
                n as int,
                steps as int,
                low as int,
                s,
                first,
            ),
{
    let ghost start = faces@;
    let p: usize = if first {
        0
    } else {
        n - 1
    };
    let pole: u32 = if first {
        (steps * n) as u32
    } else {
        (steps * n) as u32 + low
    };
    let mut s: usize = 0;
    while s < steps
        invariant
            s <= steps,
            n > 0,
            p == (if first { 0 } else { n - 1 }),
            pole == (if first { steps * n } else { steps * n + low }),
            steps * n + 1 <= u32::MAX,
            faces.len() == start.len() + s,
            forall|i: int| 0 <= i < start.len() ==> #[trigger] faces[i] == start[i],
            forall|t: int|
                0 <= t < s ==> faces[start.len() + t]@ == #[trigger] cap_triangle(
                    n as int,
                    steps as int,
                    low as int,
                    t,
                    first,
                ),
        decreases steps - s,
    {
        let t: usize = succ_of(s, steps);
        let here: u32 = cell_of(n, s, p, Ghost(steps as int));
        let there: u32 = cell_of(n, t, p, Ghost(steps as int));
        let made = if first {
            triangle(pole, there, here)
        } else {
            triangle(pole, here, there)
        };
        assert(made@ =~= cap_triangle(n as int, steps as int, low as int, s as int, first));
        faces.push(made);
        s = s + 1;
    }
}

impl Mesh {
    /// Turn a profile of `(r, y)` points around the axis in `steps` slices, at least three.
    /// `place` puts a point from its slice, the number of slices, `r` and `y`.
    pub fn revolve<P: Fn(usize, usize, Real, Real) -> Vec3>(
        profile: &Vec<(Real, Real)>,
        steps: u32,
        place: P,
    ) -> (r: Mesh)
        requires
            profile.len() >= 2,
            slices(steps as int) * profile.len() + 2 <= u32::MAX,
            forall|s: usize, n: usize, r: Real, y: Real| place.requires((s, n, r, y)),
        ensures
            is_lathe(r@, profile@, slices(steps as int), place),
    {
        let steps: usize = if steps < 3 {
            3
        } else {
            steps as usize
        };
        let n: usize = profile.len();
        let ghost (gs, gn) = (steps as int, n as int);
        let mut vertices: Vec<Vec3> = Vec::new();
        let mut s: usize = 0;
        while s < steps
            invariant
                s <= steps,
                n == profile.len(),
                gs == steps,
                gn == n,
                forall|s: usize, n: usize, r: Real, y: Real| place.requires((s, n, r, y)),
                vertices.len() == s * gn,
                forall|t: int, p: int|
                    #![trigger vertices[t * gn + p]]
                    0 <= t < s && 0 <= p < gn ==> place.ensures(
                        (t as usize, steps, profile[p].0, profile[p].1),
                        vertices[t * gn + p],
                    ),
            decreases steps - s,
        {
            let mut p: usize = 0;
            assert((s + 1) * gn == s * gn + gn) by (nonlinear_arith);
            while p < n
                invariant
                    p <= n,
                    s < steps,
                    n == profile.len(),
                    gs == steps,
                    gn == n,
                    forall|s: usize, n: usize, r: Real, y: Real| place.requires((s, n, r, y)),
                    vertices.len() == s * gn + p,
                    forall|t: int, q: int|
                        #![trigger vertices[t * gn + q]]
                        0 <= t < s && 0 <= q < gn || t == s && 0 <= q < p ==> place.ensures(
                            (t as usize, steps, profile[q].0, profile[q].1),
                            vertices[t * gn + q],
                        ),
                decreases n - p,
            {
                let ghost before = vertices@;
                vertices.push(place(s, steps, profile[p].0, profile[p].1));
                proof {
                    assert forall|t: int, q: int|
                        #![trigger vertices[t * gn + q]]
                        0 <= t < s && 0 <= q < gn || t == s && 0 <= q < p + 1 implies place.ensures(
                        (t as usize, steps, profile[q].0, profile[q].1),
                        vertices[t * gn + q],
                    ) by {
                        if t < s {
                            lemma_copies(t, gn, s as int, q);
                            assert(vertices@[t * gn + q] == before[t * gn + q]);
                        } else if q < p {
                            lemma_copies(t, gn, s + 1, q);
                            assert(vertices@[t * gn + q] == before[t * gn + q]);
                        }
                    }
                }
                p = p + 1;
            }
            s = s + 1;
        }
        let ghost ring = vertices@;
        let mut faces: Vec<Face> = Vec::new();
        let mut s: usize = 0;
        while s < steps
            invariant
                s <= steps,
                n == profile.len(),
                n >= 2,
                gs == steps,
                gn == n,
                gs * gn + 2 <= u32::MAX,
                faces.len() == s * (gn - 1),
                forall|t: int, q: int|
                    0 <= t < s && 0 <= q < gn - 1 ==> faces[t * (gn - 1) + q]@
                        == #[trigger] lathe_face(profile@, gs, t, q),
            decreases steps - s,
        {
            let t: usize = succ_of(s, steps);
            let mut p: usize = 0;
            assert((s + 1) * (gn - 1) == s * (gn - 1) + (gn - 1)) by (nonlinear_arith);
            while p < n - 1
                invariant
                    p <= n - 1,
                    s < steps,
                    t == succ(s as int, gs),
                    t < steps,
                    n == profile.len(),
                    n >= 2,
                    gs == steps,
                    gn == n,
                    gs * gn + 2 <= u32::MAX,
                    faces.len() == s * (gn - 1) + p,
                    forall|t: int, q: int|
                        0 <= t < s && 0 <= q < gn - 1 || t == s && 0 <= q < p ==> faces[t * (gn - 1)
                            + q]@ == #[trigger] lathe_face(profile@, gs, t, q),
                decreases n - p,
            {
                let a: u32 = cell_of(n, s, p, Ghost(gs));
                let b: u32 = cell_of(n, t, p, Ghost(gs));
                let c: u32 = cell_of(n, t, p + 1, Ghost(gs));
                let d: u32 = cell_of(n, s, p + 1, Ghost(gs));
                let made = if profile[p].0.magnitude_bits() < AXIS_BITS {
                    triangle(a, d, c)
                } else if profile[p + 1].0.magnitude_bits() < AXIS_BITS {
                    triangle(a, b, d)
                } else {
                    quad(a, b, c, d)
                };
                let ghost before = faces@;
                assert(made@ =~= lathe_face(profile@, gs, s as int, p as int));
                faces.push(made);
                proof {
                    assert forall|t: int, q: int|
                        0 <= t < s && 0 <= q < gn - 1 || t == s && 0 <= q < p + 1 implies faces[t * (
                    gn - 1) + q]@ == #[trigger] lathe_face(profile@, gs, t, q) by {
                        if t < s {
                            lemma_copies(t, gn - 1, s as int, q);
                            assert(faces@[t * (gn - 1) + q] == before[t * (gn - 1) + q]);
                        } else if q < p {
                            lemma_copies(t, gn - 1, s + 1, q);
                            assert(faces@[t * (gn - 1) + q] == before[t * (gn - 1) + q]);
                        }
                    }
                }
                p = p + 1;
            }
            s = s + 1;
        }
        let ghost walls = faces@;
        let zero: Real = Real { bits: ZERO_BITS };
        let low: bool = profile[0].0.magnitude_bits() < AXIS_BITS;
        if low {
            vertices.push(Vec3 { x: zero, y: profile[0].1, z: zero });
            push_cap(&mut faces, n, steps, 1, true);
        }
        let ghost capped = faces@;
        let high: bool = profile[n - 1].0.magnitude_bits() < AXIS_BITS;
        if high {
            vertices.push(Vec3 { x: zero, y: profile[n - 1].1, z: zero });
            let above: u32 = if low {
                1
            } else {
                0
            };
            push_cap(&mut faces, n, steps, above, false);
        }
        let out = Mesh { vertices, faces };
        proof {
            assert forall|s: int, p: int|
                #![trigger out@.vertices[s * gn + p]]
                0 <= s < gs && 0 <= p < gn implies place.ensures(
                (s as usize, steps, profile[p].0, profile[p].1),
                out@.vertices[s * gn + p],
            ) by {
                lemma_copies(s, gn, gs, p);
                assert(out@.vertices[s * gn + p] == ring[s * gn + p]);
            }
            assert forall|s: int, p: int| 0 <= s < gs && 0 <= p < gn - 1 implies out@.faces[s * (gn
                - 1) + p] == #[trigger] lathe_face(profile@, gs, s, p) by {
                lemma_copies(s, gn - 1, gs, p);
                assert(capped[s * (gn - 1) + p] == walls[s * (gn - 1) + p]);
                assert(faces@[s * (gn - 1) + p] == walls[s * (gn - 1) + p]);
            }
            if low {
                assert forall|s: int| 0 <= s < gs implies out@.faces[gs * (gn - 1) + s]
                    == #[trigger] cap_triangle(gn, gs, 1, s, true) by {
                    assert(faces@[gs * (gn - 1) + s] == capped[gs * (gn - 1) + s]);
                }
            }
            assert(0 * gs == 0 && 1 * gs == gs);
        }
        out
    }
}

/// The quad between shape points `p` and the next of rings `s` and `s + 1` of a tube.
pub open spec fn tube_face(n: int, s: int, p: int) -> Seq<u32> {
    let q = succ(p, n);
    seq![cell(n, s, p), cell(n, s, q), cell(n, s + 1, q), cell(n, s + 1, p)]
}

/// Whether `out` is a tube of `rings` rings of `n` points, each where `place` puts it, with
/// a quad between each pair of neighbouring points of neighbouring rings.
pub open spec fn is_tube<P: Fn(usize, usize) -> Vec3>(
    out: MeshModel,
    rings: int,
    n: int,
    place: P,
) -> bool {
    &&& out.vertices.len() == rings * n
    &&& forall|s: int, p: int|
        #![trigger out.vertices[s * n + p]]
        0 <= s < rings && 0 <= p < n ==> place.ensures(
            (s as usize, p as usize),
            out.vertices[s * n + p],
        )
    &&& out.faces.len() == (rings - 1) * n
    &&& forall|s: int, p: int|
        0 <= s < rings - 1 && 0 <= p < n ==> out.faces[s * n + p] == #[trigger] tube_face(n, s, p)
}

impl Mesh {
    /// Extrude a cross-section of `shape_len` points along a path of `path_len` points.
    /// `place` puts a point from its place on the path and its place in the cross-section.
    pub fn path_extrude<P: Fn(usize, usize) -> Vec3>(
        path_len: usize,
        shape_len: usize,
        place: P,
    ) -> (r: Mesh)
        requires
            path_len >= 2,
            shape_len >= 3,
            path_len * shape_len <= u32::MAX,
            forall|s: usize, p: usize| place.requires((s, p)),
        ensures
            is_tube(r@, path_len as int, shape_len as int, place),
    {
        let n: usize = shape_len;
        let ghost gn = n as int;
        let mut vertices: Vec<Vec3> = Vec::new();
        let mut s: usize = 0;
        while s < path_len
            invariant
                s <= path_len,
                gn == n,
                forall|s: usize, p: usize| place.requires((s, p)),
                vertices.len() == s * gn,
                forall|t: int, p: int|
                    #![trigger vertices[t * gn + p]]
                    0 <= t < s && 0 <= p < gn ==> place.ensures(
                        (t as usize, p as usize),
                        vertices[t * gn + p],
                    ),
            decreases path_len - s,
        {
            let mut p: usize = 0;
            assert((s + 1) * gn == s * gn + gn) by (nonlinear_arith);
            while p < n
                invariant
                    p <= n,
                    s < path_len,
                    gn == n,
                    forall|s: usize, p: usize| place.requires((s, p)),
                    vertices.len() == s * gn + p,
                    forall|t: int, q: int|
                        #![trigger vertices[t * gn + q]]
                        0 <= t < s && 0 <= q < gn || t == s && 0 <= q < p ==> place.ensures(
                            (t as usize, q as usize),
                            vertices[t * gn + q],
                        ),
                decreases n - p,
            {
                let ghost before = vertices@;
                vertices.push(place(s, p));
                proof {
                    assert forall|t: int, q: int|
                        #![trigger vertices[t * gn + q]]
                        0 <= t < s && 0 <= q < gn || t == s && 0 <= q < p + 1 implies place.ensures(
                        (t as usize, q as usize),
                        vertices[t * gn + q],
                    ) by {
                        if t < s {
                            lemma_copies(t, gn, s as int, q);
                            assert(vertices@[t * gn + q] == before[t * gn + q]);
                        } else if q < p {
                            lemma_copies(t, gn, s + 1, q);
                            assert(vertices@[t * gn + q] == before[t * gn + q]);
                        }
                    }
                }
                p = p + 1;
            }
            s = s + 1;
        }
        let mut faces: Vec<Face> = Vec::new();
        let mut s: usize = 0;
        while s < path_len - 1
            invariant
                s <= path_len - 1,
                path_len >= 2,
                gn == n,
                path_len * gn <= u32::MAX,
                faces.len() == s * gn,
                forall|t: int, q: int|
                    0 <= t < s && 0 <= q < gn ==> faces[t * gn + q]@ == #[trigger] tube_face(
                        gn,
                        t,
                        q,
                    ),
            decreases path_len - s,
        {
            let mut p: usize = 0;
            assert((s + 1) * gn == s * gn + gn) by (nonlinear_arith);
            while p < n
                invariant
                    p <= n,
                    s < path_len - 1,
                    gn == n,
                    path_len * gn <= u32::MAX,
                    faces.len() == s * gn + p,
                    forall|t: int, q: int|
                        0 <= t < s && 0 <= q < gn || t == s && 0 <= q < p ==> faces[t * gn + q]@
                            == #[trigger] tube_face(gn, t, q),
                decreases n - p,
            {
                let q: usize = succ_of(p, n);
                let a: u32 = cell_of(n, s, p, Ghost(path_len as int));
                let b: u32 = cell_of(n, s, q, Ghost(path_len as int));
                let c: u32 = cell_of(n, s + 1, q, Ghost(path_len as int));
                let d: u32 = cell_of(n, s + 1, p, Ghost(path_len as int));
                let made = quad(a, b, c, d);
                let ghost before = faces@;
                assert(made@ =~= tube_face(gn, s as int, p as int));
                faces.push(made);
                proof {
                    assert forall|t: int, q: int|
                        0 <= t < s && 0 <= q < gn || t == s && 0 <= q < p + 1 implies faces[t * gn
                        + q]@ == #[trigger] tube_face(gn, t, q) by {
                        if t < s {
                            lemma_copies(t, gn, s as int, q);
                            assert(faces@[t * gn + q] == before[t * gn + q]);
                        } else if q < p {
                            lemma_copies(t, gn, s + 1, q);
                            assert(faces@[t * gn + q] == before[t * gn + q]);
                        }
                    }
                }
                p = p + 1;
            }
            s = s + 1;
        }
        let out = Mesh { vertices, faces };
        proof {
            assert forall|s: int, p: int| 0 <= s < path_len - 1 && 0 <= p < gn implies out@.faces[s
                * gn + p] == #[trigger] tube_face(gn, s, p) by {
                lemma_copies(s, gn, path_len - 1, p);
            }
        }
        out
    }

    /// A mesh from a flat list of numbers, `props` for each vertex and its position first, and
    /// a flat list of triangle corners. `place` moves a position into the space of the mesh.
    pub fn from_csg_output<P: Fn(Vec3) -> Vec3>(
        numbers: &Vec<Real>,
        props: usize,
        tris: &Vec<u32>,
        place: P,
    ) -> (r: Mesh)
        requires
            props >= 3,
            numbers.len() % props == 0 || numbers.len() % props >= 3,
            numbers.len() + props <= usize::MAX,
            tris.len() % 3 == 0,
            forall|p: Vec3| place.requires((p,)),
        ensures
            r@.vertices.len() == (numbers.len() + props - 1) / (props as int),
            forall|i: int|
                #![trigger r@.vertices[i]]
                0 <= i < r@.vertices.len() ==> place.ensures(
                    (Vec3 {
                        x: numbers[i * props],
                        y: numbers[i * props + 1],
                        z: numbers[i * props + 2],
                    },),
                    r@.vertices[i],
                ),
            r@.faces.len() == tris.len() / 3,
            forall|f: int|
                0 <= f < r@.faces.len() ==> #[trigger] r@.faces[f] == seq![
                    tris[3 * f],
                    tris[3 * f + 1],
                    tris[3 * f + 2],
                ],
    {
        let ghost gp = props as int;
        let mut vertices: Vec<Vec3> = Vec::new();
        let mut at: usize = 0;
        assert(0 * gp == 0) by (nonlinear_arith);
        while at < numbers.len()
            invariant
                props >= 3,
                gp == props,
                numbers.len() % props == 0 || numbers.len() % props >= 3,
                numbers.len() + props <= usize::MAX,
                forall|p: Vec3| place.requires((p,)),
                at == vertices.len() * gp,
                at < numbers.len() + props,
                forall|i: int|
                    #![trigger vertices[i]]
                    0 <= i < vertices.len() ==> place.ensures(
                        (Vec3 {
                            x: numbers[i * gp],
                            y: numbers[i * gp + 1],
                            z: numbers[i * gp + 2],
                        },),
                        vertices[i],
                    ),
            decreases numbers.len() + props - at,
        {
            let ghost c = vertices.len() as int;
            proof {
                let l = numbers.len() as int;
                assert(at + 3 <= l) by {
                    assert(l == (l / gp) * gp + l % gp && 0 <= l % gp < gp) by (nonlinear_arith)
                        requires
                            gp > 0,
                    ;
                    if c < l / gp {
                        assert((c + 1) * gp <= (l / gp) * gp) by (nonlinear_arith)
                            requires
                                c < l / gp,
                                gp > 0,
                        ;
                        assert((c + 1) * gp == c * gp + gp) by (nonlinear_arith);
                    } else if c > l / gp {
                        assert(c * gp >= (l / gp + 1) * gp) by (nonlinear_arith)
                            requires
                                c >= l / gp + 1,
                                gp > 0,
                        ;
                        assert((l / gp + 1) * gp == (l / gp) * gp + gp) by (nonlinear_arith);
                    }
                }
                assert((c + 1) * gp == c * gp + gp) by (nonlinear_arith);
            }
            let p: Vec3 = Vec3 { x: numbers[at], y: numbers[at + 1], z: numbers[at + 2] };
            vertices.push(place(p));
            at = at + props;
        }
        proof {
            let l = numbers.len() as int;
            let c = vertices.len() as int;
            assert(c == (l + gp - 1) / gp) by {
                assert((l + gp - 1) / gp == c) by (nonlinear_arith)
                    requires
                        gp >= 3,
                        l <= c * gp,
                        c * gp < l + gp,
                ;
            }
        }
        let mut faces: Vec<Face> = Vec::new();
        let mut f: usize = 0;
        let count: usize = tris.len() / 3;
        while f < count
            invariant
                f <= count,
                3 * count == tris.len(),
                faces.len() == f,
                forall|g: int|
                    0 <= g < f ==> (#[trigger] faces[g])@ == seq![
                        tris[3 * g],
                        tris[3 * g + 1],
                        tris[3 * g + 2],
                    ],
            decreases count - f,
        {
            faces.push(triangle(tris[3 * f], tris[3 * f + 1], tris[3 * f + 2]));
            f = f + 1;
        }
        Mesh { vertices, faces }
    }
}

/// A relief names its own vertices.
pub proof fn relief_keeps_range<P: Fn(usize, usize, usize, usize, Option<(u8, u8, u8)>) -> Vec3>(
    out: MeshModel,
    pixels: Seq<u8>,
    width: int,
    height: int,
    w: int,
    h: int,
    place: P,
)
    requires
        is_relief(out, pixels, width, height, w, h, place),
        w >= 2,
        h >= 2,
        h * w <= u32::MAX,
    ensures
        out.in_range(),
{
    assert forall|f: int| 0 <= f < out.faces.len() implies #[trigger] face_below(
        out.faces[f],
        out.vertices.len(),
    ) by {
        let x = f / 2;
        lemma_place_in_copies(x, w - 1, h - 1);
        let (v, u) = (x / (w - 1), x % (w - 1));
        lemma_copies(v, w, h, u);
        lemma_copies(v, w, h, u + 1);
        lemma_copies(v + 1, w, h, u);
        lemma_copies(v + 1, w, h, u + 1);
        if f % 2 == 0 {
            assert(out.faces[2 * (v * (w - 1) + u)] == cell_triangle(w, v, u, false));
        } else {
            assert(out.faces[2 * (v * (w - 1) + u) + 1] == cell_triangle(w, v, u, true));
        }
    }
}

/// A tube names its own vertices.
pub proof fn tube_keeps_range<P: Fn(usize, usize) -> Vec3>(
    out: MeshModel,
    rings: int,
    n: int,
    place: P,
)
    requires
        is_tube(out, rings, n, place),
        rings >= 2,
        n >= 3,
        rings * n <= u32::MAX,
    ensures
        out.in_range(),
{
    assert forall|f: int| 0 <= f < out.faces.len() implies #[trigger] face_below(
        out.faces[f],
        out.vertices.len(),
    ) by {
        lemma_place_in_copies(f, n, rings - 1);
        let (s, p) = (f / n, f % n);
        let q = succ(p, n);
        lemma_copies(s, n, rings, p);
        lemma_copies(s, n, rings, q);
        lemma_copies(s + 1, n, rings, p);
        lemma_copies(s + 1, n, rings, q);
        assert(out.faces[s * n + p] == tube_face(n, s, p));
    }
}

/// A lathe names its own vertices.
pub proof fn lathe_keeps_range<P: Fn(usize, usize, Real, Real) -> Vec3>(
    out: MeshModel,
    profile: Seq<(Real, Real)>,
    steps: int,
    place: P,
)
    requires
        is_lathe(out, profile, steps, place),
        steps >= 3,
        profile.len() >= 2,
        steps * profile.len() + 2 <= u32::MAX,
    ensures
        out.in_range(),
{
    let n = profile.len() as int;
    let sides = steps * (n - 1);
    let low = caps_low(profile);
    assert(0 * steps == 0 && 1 * steps == steps);
    assert forall|f: int| 0 <= f < out.faces.len() implies #[trigger] face_below(
        out.faces[f],
        out.vertices.len(),
    ) by {
        if f < sides {
            lemma_place_in_copies(f, n - 1, steps);
            let (s, p) = (f / (n - 1), f % (n - 1));
            let t = succ(s, steps);
            lemma_copies(s, n, steps, p);
            lemma_copies(s, n, steps, p + 1);
            lemma_copies(t, n, steps, p);
            lemma_copies(t, n, steps, p + 1);
            assert(out.faces[s * (n - 1) + p] == lathe_face(profile, steps, s, p));
        } else if f < sides + low * steps {
            let s = f - sides;
            let t = succ(s, steps);
            lemma_copies(s, n, steps, 0);
            lemma_copies(t, n, steps, 0);
            assert(out.faces[sides + s] == cap_triangle(n, steps, low, s, true));
        } else {
            let high = caps_high(profile);
            assert(high * steps == if high == 0 { 0 } else { steps }) by (nonlinear_arith)
                requires
                    high == 0 || high == 1,
            ;
            let s = f - sides - low * steps;
            let t = succ(s, steps);
            lemma_copies(s, n, steps, n - 1);
            lemma_copies(t, n, steps, n - 1);
            assert(out.faces[sides + low * steps + s] == cap_triangle(n, steps, low, s, false));
        }
    }
}

} // verus!
