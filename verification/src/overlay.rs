//! What is drawn over and around the objects of a scene: boxes, arrows, bones, and the fixed shapes
//! that objects are shown as.
use crate::number::Vec3;
use crate::object::Aabb;
use crate::pixels::{cell, lemma_cell, painted, weave, Pixel};
use vstd::prelude::*;

verus! {

/// An axis of the arrows that an object is moved by.
#[derive(Clone, Copy, Debug, PartialEq, Eq, Structural)]
pub enum GizmoAxis {
    X,
    Y,
    Z,
}

impl GizmoAxis {
    /// The step of one along the axis, as whole numbers.
    pub open spec fn direction(self) -> (int, int, int) {
        match self {
            GizmoAxis::X => (1, 0, 0),
            GizmoAxis::Y => (0, 1, 0),
            GizmoAxis::Z => (0, 0, 1),
        }
    }

    /// The step of one along the axis.
    pub fn unit(self) -> (r: (i8, i8, i8))
        ensures
            (r.0 as int, r.1 as int, r.2 as int) == self.direction(),
    {
        match self {
            GizmoAxis::X => (1, 0, 0),
            GizmoAxis::Y => (0, 1, 0),
            GizmoAxis::Z => (0, 0, 1),
        }
    }
}

/// The axes, in order.
pub open spec fn gizmo_axes() -> Seq<GizmoAxis> {
    seq![GizmoAxis::X, GizmoAxis::Y, GizmoAxis::Z]
}

/// A place on an arrow: where it begins, where it ends, the point of its head, or a corner of its
/// head: the first pair or the second, and which of the pair.
#[derive(Clone, Copy, Debug, PartialEq, Eq, Structural)]
pub enum ArrowPlace {
    Origin,
    Tip,
    Point,
    Corner { second: bool, far: bool },
}

/// The places that an arrow's lines join, two by two: the shaft, and for each pair of corners each
/// corner and the point.
pub open spec fn arrow_places() -> Seq<ArrowPlace> {
    seq![
        ArrowPlace::Origin,
        ArrowPlace::Tip,
        ArrowPlace::Corner { second: false, far: false },
        ArrowPlace::Point,
        ArrowPlace::Corner { second: false, far: true },
        ArrowPlace::Point,
        ArrowPlace::Corner { second: true, far: false },
        ArrowPlace::Point,
        ArrowPlace::Corner { second: true, far: true },
        ArrowPlace::Point,
    ]
}

fn arrow_place(k: usize) -> (r: ArrowPlace)
    requires
        k < 10,
    ensures
        r == arrow_places()[k as int],
{
    if k == 0 {
        ArrowPlace::Origin
    } else if k == 1 {
        ArrowPlace::Tip
    } else if k == 2 {
        ArrowPlace::Corner { second: false, far: false }
    } else if k == 4 {
        ArrowPlace::Corner { second: false, far: true }
    } else if k == 6 {
        ArrowPlace::Corner { second: true, far: false }
    } else if k == 8 {
        ArrowPlace::Corner { second: true, far: true }
    } else {
        ArrowPlace::Point
    }
}

/// The ends of the lines of the three arrows. `place` is where a place of an arrow is, which is
/// lit or not.
pub fn gizmo_axis_lines<V, P: Fn(GizmoAxis, ArrowPlace, bool) -> V>(
    highlighted: Option<GizmoAxis>,
    place: &P,
) -> (r: Vec<V>)
    requires
        forall|a: GizmoAxis, p: ArrowPlace, lit: bool| #[trigger] (*place).requires((a, p, lit)),
    ensures
        r.len() == 30,
        forall|a: int, k: int|
            0 <= a < 3 && 0 <= k < 10 ==> (*place).ensures(
                (
                    gizmo_axes()[a],
                    #[trigger] arrow_places()[k],
                    highlighted == Some(gizmo_axes()[a]),
                ),
                #[trigger] r@[10 * a + k],
            ),
{
    let mut out: Vec<V> = Vec::new();
    let mut a: usize = 0;
    while a < 3
        invariant
            a <= 3,
            out.len() == 10 * a,
            forall|a: GizmoAxis, p: ArrowPlace, lit: bool| #[trigger]
                (*place).requires((a, p, lit)),
            forall|b: int, k: int|
                0 <= b < a && 0 <= k < 10 ==> (*place).ensures(
                    (
                        gizmo_axes()[b],
                        #[trigger] arrow_places()[k],
                        highlighted == Some(gizmo_axes()[b]),
                    ),
                    #[trigger] out@[10 * b + k],
                ),
        decreases 3 - a,
    {
        let axis: GizmoAxis = if a == 0 {
            GizmoAxis::X
        } else if a == 1 {
            GizmoAxis::Y
        } else {
            GizmoAxis::Z
        };
        let lit: bool = match highlighted {
            Some(h) => h == axis,
            None => false,
        };
        let ghost before = out@;
        let mut k: usize = 0;
        while k < 10
            invariant
                k <= 10,
                a < 3,
                before.len() == 10 * a,
                out.len() == 10 * a + k,
                forall|a: GizmoAxis, p: ArrowPlace, lit: bool| #[trigger]
                    (*place).requires((a, p, lit)),
                forall|q: int| 0 <= q < before.len() ==> out@[q] == before[q],
                forall|q: int|
                    0 <= q < k ==> (*place).ensures(
                        (axis, #[trigger] arrow_places()[q], lit),
                        #[trigger] out@[10 * a + q],
                    ),
            decreases 10 - k,
        {
            let v: V = place(axis, arrow_place(k), lit);
            out.push(v);
            k = k + 1;
        }
        assert forall|b: int, k: int| 0 <= b < a + 1 && 0 <= k < 10 implies (*place).ensures(
            (
                gizmo_axes()[b],
                #[trigger] arrow_places()[k],
                highlighted == Some(gizmo_axes()[b]),
            ),
            #[trigger] out@[10 * b + k],
        ) by {
            if b < a {
                assert((*place).ensures(
                    (
                        gizmo_axes()[b],
                        arrow_places()[k],
                        highlighted == Some(gizmo_axes()[b]),
                    ),
                    before[10 * b + k],
                ));
            } else {
                assert(gizmo_axes()[b] == axis);
            }
        }
        a = a + 1;
    }
    out
}

/// The ends of the lines of a bone: its shaft, and at its head a cross of three lines.
pub open spec fn bone_lines<X: Fn(Vec3, Vec3, GizmoAxis, bool) -> Vec3>(
    head: Vec3,
    tail: Vec3,
    cross: &X,
    r: Seq<(Vec3, bool)>,
    at: int,
) -> bool {
    &&& r[at] == (head, false)
    &&& r[at + 1] == (tail, false)
    &&& forall|a: int|
        0 <= a < 3 ==> (*cross).ensures(
            (head, tail, #[trigger] gizmo_axes()[a], false),
            r[at + 2 + 2 * a].0,
        ) && r[at + 2 + 2 * a].1 && (*cross).ensures(
            (head, tail, gizmo_axes()[a], true),
            r[at + 3 + 2 * a].0,
        ) && r[at + 3 + 2 * a].1
}

/// The ends of the lines of some bones, each with whether it belongs to a joint. `cross` is where
/// a line of the cross at a bone's head ends, before the head or past it.
pub fn skeleton_lines<X: Fn(Vec3, Vec3, GizmoAxis, bool) -> Vec3>(
    segments: &Vec<(Vec3, Vec3)>,
    cross: &X,
) -> (r: Vec<(Vec3, bool)>)
    requires
        8 * segments.len() <= usize::MAX,
        forall|h: Vec3, t: Vec3, a: GizmoAxis, past: bool| #[trigger]
            (*cross).requires((h, t, a, past)),
    ensures
        r.len() == 8 * segments.len(),
        forall|i: int|
            0 <= i < segments.len() ==> bone_lines(
                (#[trigger] segments@[i]).0,
                segments@[i].1,
                cross,
                r@,
                8 * i,
            ),
{
    let mut out: Vec<(Vec3, bool)> = Vec::new();
    let mut i: usize = 0;
    while i < segments.len()
        invariant
            i <= segments.len(),
            8 * segments.len() <= usize::MAX,
            out.len() == 8 * i,
            forall|h: Vec3, t: Vec3, a: GizmoAxis, past: bool| #[trigger]
                (*cross).requires((h, t, a, past)),
            forall|k: int|
                0 <= k < i ==> bone_lines(
                    (#[trigger] segments@[k]).0,
                    segments@[k].1,
                    cross,
                    out@,
                    8 * k,
                ),
        decreases segments.len() - i,
    {
        let (head, tail): (Vec3, Vec3) = segments[i];
        let ghost before = out@;
        out.push((head, false));
        out.push((tail, false));
        let x0: Vec3 = cross(head, tail, GizmoAxis::X, false);
        out.push((x0, true));
        let x1: Vec3 = cross(head, tail, GizmoAxis::X, true);
        out.push((x1, true));
        let y0: Vec3 = cross(head, tail, GizmoAxis::Y, false);
        out.push((y0, true));
        let y1: Vec3 = cross(head, tail, GizmoAxis::Y, true);
        out.push((y1, true));
        let z0: Vec3 = cross(head, tail, GizmoAxis::Z, false);
        out.push((z0, true));
        let z1: Vec3 = cross(head, tail, GizmoAxis::Z, true);
        out.push((z1, true));
        assert(bone_lines(head, tail, cross, out@, 8 * i)) by {
            assert forall|a: int| 0 <= a < 3 implies (*cross).ensures(
                (head, tail, #[trigger] gizmo_axes()[a], false),
                out@[8 * i + 2 + 2 * a].0,
            ) && out@[8 * i + 2 + 2 * a].1 && (*cross).ensures(
                (head, tail, gizmo_axes()[a], true),
                out@[8 * i + 3 + 2 * a].0,
            ) && out@[8 * i + 3 + 2 * a].1 by {
                if a == 0 {
                    assert(gizmo_axes()[a] == GizmoAxis::X);
                } else if a == 1 {
                    assert(gizmo_axes()[a] == GizmoAxis::Y);
                } else {
                    assert(gizmo_axes()[a] == GizmoAxis::Z);
                }
            }
        }
        assert forall|k: int| 0 <= k < i + 1 implies bone_lines(
            (#[trigger] segments@[k]).0,
            segments@[k].1,
            cross,
            out@,
            8 * k,
        ) by {
            if k < i {
                assert(bone_lines(segments@[k].0, segments@[k].1, cross, before, 8 * k));
                assert forall|a: int| 0 <= a < 3 implies (*cross).ensures(
                    (segments@[k].0, segments@[k].1, #[trigger] gizmo_axes()[a], false),
                    out@[8 * k + 2 + 2 * a].0,
                ) && out@[8 * k + 2 + 2 * a].1 && (*cross).ensures(
                    (segments@[k].0, segments@[k].1, gizmo_axes()[a], true),
                    out@[8 * k + 3 + 2 * a].0,
                ) && out@[8 * k + 3 + 2 * a].1 by {
                    assert(out@[8 * k + 2 + 2 * a] == before[8 * k + 2 + 2 * a]);
                    assert(out@[8 * k + 3 + 2 * a] == before[8 * k + 3 + 2 * a]);
                }
            }
        }
        i = i + 1;
    }
    out
}

/// Corner `k` of a box: around its near side and then around its far side.
pub open spec fn box_corner(b: Aabb, k: int) -> Vec3 {
    let side = if k < 4 {
        k
    } else {
        k - 4
    };
    Vec3 {
        x: if side == 1 || side == 2 {
            b.max.x
        } else {
            b.min.x
        },
        y: if side == 2 || side == 3 {
            b.max.y
        } else {
            b.min.y
        },
        z: if k >= 4 {
            b.max.z
        } else {
            b.min.z
        },
    }
}

/// The two corners that line `i` of a box joins: around the near side, around the far side, and
/// from the one to the other.
pub open spec fn box_line(i: int) -> (int, int) {
    if i < 4 {
        (i, (i + 1) % 4)
    } else if i < 8 {
        (i, 4 + (i + 1) % 4)
    } else {
        (i - 8, i - 4)
    }
}

fn corner_of(b: Aabb, k: usize) -> (r: Vec3)
    requires
        k < 8,
    ensures
        r == box_corner(b, k as int),
{
    let side: usize = if k < 4 {
        k
    } else {
        k - 4
    };
    Vec3 {
        x: if side == 1 || side == 2 {
            b.max.x
        } else {
            b.min.x
        },
        y: if side == 2 || side == 3 {
            b.max.y
        } else {
            b.min.y
        },
        z: if k >= 4 {
            b.max.z
        } else {
            b.min.z
        },
    }
}

/// The ends of the twelve lines of a box, two by two.
pub fn aabb_line_vertices(b: Aabb) -> (r: Vec<Vec3>)
    ensures
        r.len() == 24,
        forall|i: int|
            0 <= i < 12 ==> r@[2 * i] == box_corner(b, (#[trigger] box_line(i)).0) && r@[2 * i + 1]
                == box_corner(b, box_line(i).1),
{
    let mut out: Vec<Vec3> = Vec::new();
    let mut i: usize = 0;
    while i < 12
        invariant
            i <= 12,
            out.len() == 2 * i,
            forall|k: int|
                0 <= k < i ==> out@[2 * k] == box_corner(b, (#[trigger] box_line(k)).0) && out@[2
                    * k + 1] == box_corner(b, box_line(k).1),
        decreases 12 - i,
    {
        let (p, q): (usize, usize) = if i < 4 {
            (i, (i + 1) % 4)
        } else if i < 8 {
            (i, 4 + (i + 1) % 4)
        } else {
            (i - 8, i - 4)
        };
        out.push(corner_of(b, p));
        out.push(corner_of(b, q));
        i = i + 1;
    }
    out
}

/// Each line of a box runs along an axis: its ends differ in one coordinate at most.
pub proof fn box_lines_follow_axes(b: Aabb, i: int)
    requires
        0 <= i < 12,
    ensures
        ({
            let p = box_corner(b, box_line(i).0);
            let q = box_corner(b, box_line(i).1);
            ||| p.y == q.y && p.z == q.z
            ||| p.x == q.x && p.z == q.z
            ||| p.x == q.x && p.y == q.y
        }),
{
}

/// How wide and high the checker is, in pixels.
pub const CHECKER_SIZE: usize = 64;

/// The pixel in column `x` of row `y` of the checker: fields of eight by eight take turns.
pub open spec fn checker_pixel(x: int, y: int) -> Pixel {
    if (x / 8 + y / 8) % 2 == 0 {
        Pixel { r: 0x28, g: 0x2c, b: 0x31, a: 0xff }
    } else {
        Pixel { r: 0x16, g: 0x18, b: 0x1b, a: 0xff }
    }
}

/// The pixels of the checker that an image without a picture shows.
pub fn checker_pixels() -> (r: Vec<u8>)
    ensures
        painted(r@, 64, 64, Seq::empty(), |x: int, y: int| checker_pixel(x, y)),
{
    let ghost f = |x: int, y: int| checker_pixel(x, y);
    let ghost ok = |x: int, y: int, p: Pixel| p == checker_pixel(x, y);
    let at = |x: usize, y: usize| -> (p: Pixel)
        ensures
            p == checker_pixel(x as int, y as int),
        {
            if ((x / 8) % 2 + (y / 8) % 2) % 2 == 0 {
                Pixel { r: 0x28, g: 0x2c, b: 0x31, a: 0xff }
            } else {
                Pixel { r: 0x16, g: 0x18, b: 0x1b, a: 0xff }
            }
        };
    let none: Vec<u8> = Vec::new();
    let r = weave(CHECKER_SIZE, CHECKER_SIZE, &none, at, Ghost(ok));
    assert(none@ =~= Seq::empty());
    assert forall|x: int, y: int| 0 <= x < 64 && 0 <= y < 64 implies crate::pixels::pixel(
        r@,
        #[trigger] cell(64, x, y),
    ) == f(x, y) by {
        assert(ok(x, y, crate::pixels::pixel(r@, cell(64, x, y))));
    }
    r
}

/// The corners of the two triangles of the field in column `x` of row `y` of a grid whose rows
/// have `stride` corners.
pub open spec fn grid_corner(stride: int, x: int, y: int, k: int) -> int {
    let a = cell(stride, x, y);
    if k == 0 || k == 3 {
        a
    } else if k == 1 {
        a + stride
    } else if k == 2 || k == 4 {
        a + stride + 1
    } else {
        a + 1
    }
}

/// The sphere as a grid of `longitudes` by `latitudes` fields: the corners, row by row from pole
/// to pole, and the triangles. `point` is the corner in a row and a column.
pub fn uv_sphere_vertices<V, P: Fn(u32, u32) -> V>(
    longitudes: u32,
    latitudes: u32,
    point: &P,
) -> (r: (Vec<V>, Vec<u16>))
    requires
        (longitudes + 1) * (latitudes + 1) <= 0x1_0000,
        6 * (longitudes * latitudes) <= usize::MAX,
        forall|lat: u32, lon: u32| #[trigger] (*point).requires((lat, lon)),
    ensures
        r.0.len() == (longitudes + 1) * (latitudes + 1),
        forall|x: int, y: int|
            0 <= x <= longitudes && 0 <= y <= latitudes ==> (*point).ensures(
                (y as u32, x as u32),
                r.0@[#[trigger] cell(longitudes + 1, x, y)],
            ),
        r.1.len() == 6 * (longitudes * latitudes),
        forall|x: int, y: int, k: int|
            0 <= x < longitudes && 0 <= y < latitudes && 0 <= k < 6 ==> r.1@[6 * cell(
                longitudes as int,
                x,
                y,
            ) + k] == #[trigger] grid_corner(longitudes + 1, x, y, k),
{
    let ghost w = longitudes + 1;
    let ghost h = latitudes + 1;
    assert(longitudes < 0x1_0000 && latitudes < 0x1_0000) by (nonlinear_arith)
        requires
            (longitudes + 1) * (latitudes + 1) <= 0x1_0000,
            longitudes >= 0,
            latitudes >= 0,
    ;
    let mut vertices: Vec<V> = Vec::new();
    let mut lat: u32 = 0;
    assert(cell(w, 0, 0) == 0);
    while lat <= latitudes
        invariant
            w == longitudes + 1,
            h == latitudes + 1,
            w * h <= 0x1_0000,
            lat <= h,
            latitudes < u32::MAX,
            longitudes < u32::MAX,
            vertices.len() == cell(w, 0, lat as int),
            forall|lat: u32, lon: u32| #[trigger] (*point).requires((lat, lon)),
            forall|x: int, y: int|
                0 <= x < w && 0 <= y < h && cell(w, x, y) < vertices.len() ==> (*point).ensures(
                    (y as u32, x as u32),
                    vertices@[#[trigger] cell(w, x, y)],
                ),
        decreases h - lat,
    {
        let mut lon: u32 = 0;
        while lon <= longitudes
            invariant
                w == longitudes + 1,
                h == latitudes + 1,
                w * h <= 0x1_0000,
                lat < h,
                lon <= w,
                longitudes < u32::MAX,
                vertices.len() == cell(w, lon as int, lat as int),
                forall|lat: u32, lon: u32| #[trigger] (*point).requires((lat, lon)),
                forall|x: int, y: int|
                    0 <= x < w && 0 <= y < h && cell(w, x, y) < vertices.len() ==> (*point).ensures(
                        (y as u32, x as u32),
                        vertices@[#[trigger] cell(w, x, y)],
                    ),
            decreases w - lon,
        {
            let v: V = point(lat, lon);
            let ghost before = vertices@;
            proof {
                lemma_cell(w, h, lon as int, lat as int);
            }
            vertices.push(v);
            assert forall|x: int, y: int|
                0 <= x < w && 0 <= y < h && cell(w, x, y) < vertices.len() implies (*point).ensures(
                (y as u32, x as u32),
                vertices@[#[trigger] cell(w, x, y)],
            ) by {
                lemma_cell(w, h, x, y);
            }
            lon = lon + 1;
        }
        assert((lat + 1) * w == lat * w + w) by (nonlinear_arith);
        lat = lat + 1;
    }
    assert(cell(w, 0, h) == w * h) by {
        assert(h * w == w * h) by (nonlinear_arith);
    }
    assert forall|x: int, y: int| 0 <= x <= longitudes && 0 <= y <= latitudes implies (
    *point).ensures((y as u32, x as u32), vertices@[#[trigger] cell(w, x, y)]) by {
        lemma_cell(w, h, x, y);
    }
    let indices = grid_indices(longitudes, latitudes);
    (vertices, indices)
}

/// The triangles of a grid of fields.
fn grid_indices(columns: u32, rows: u32) -> (r: Vec<u16>)
    requires
        (columns + 1) * (rows + 1) <= 0x1_0000,
        6 * (columns * rows) <= usize::MAX,
    ensures
        r.len() == 6 * (columns * rows),
        forall|x: int, y: int, k: int|
            0 <= x < columns && 0 <= y < rows && 0 <= k < 6 ==> r@[6 * cell(columns as int, x, y)
                + k] == #[trigger] grid_corner(columns + 1, x, y, k),
{
    let ghost w = columns as int;
    let ghost h = rows as int;
    assert(columns < 0x1_0000 && rows < 0x1_0000) by (nonlinear_arith)
        requires
            (columns + 1) * (rows + 1) <= 0x1_0000,
            columns >= 0,
            rows >= 0,
    ;
    let stride: u32 = columns + 1;
    let mut out: Vec<u16> = Vec::new();
    let mut y: u32 = 0;
    assert(cell(w, 0, 0) == 0);
    while y < rows
        invariant
            w == columns,
            h == rows,
            stride == columns + 1,
            columns < 0x1_0000,
            rows < 0x1_0000,
            (columns + 1) * (rows + 1) <= 0x1_0000,
            y <= rows,
            out.len() == 6 * cell(w, 0, y as int),
            forall|i: int, j: int, k: int|
                0 <= i < w && 0 <= j < h && 0 <= k < 6 && 6 * cell(w, i, j) + k < out.len()
                    ==> out@[6 * cell(w, i, j) + k] == #[trigger] grid_corner(w + 1, i, j, k),
        decreases rows - y,
    {
        let mut x: u32 = 0;
        while x < columns
            invariant
                w == columns,
                h == rows,
                stride == columns + 1,
                columns < 0x1_0000,
                rows < 0x1_0000,
                (columns + 1) * (rows + 1) <= 0x1_0000,
                y < rows,
                x <= columns,
                out.len() == 6 * cell(w, x as int, y as int),
                forall|i: int, j: int, k: int|
                    0 <= i < w && 0 <= j < h && 0 <= k < 6 && 6 * cell(w, i, j) + k < out.len()
                        ==> out@[6 * cell(w, i, j) + k] == #[trigger] grid_corner(w + 1, i, j, k),
            decreases columns - x,
        {
            proof {
                lemma_cell(w + 1, h + 1, x + 1, y + 1);
                lemma_cell(w + 1, h + 1, x as int, y as int);
                lemma_cell(w, h, x as int, y as int);
                assert((y + 1) * (w + 1) == y * (w + 1) + (w + 1)) by (nonlinear_arith);
            }
            let a: u32 = y * stride + x;
            let b: u32 = a + stride;
            let c: u32 = b + 1;
            let d: u32 = a + 1;
            let ghost before = out@;
            out.push(a as u16);
            out.push(b as u16);
            out.push(c as u16);
            out.push(a as u16);
            out.push(c as u16);
            out.push(d as u16);
            assert forall|i: int, j: int, k: int|
                0 <= i < w && 0 <= j < h && 0 <= k < 6 && 6 * cell(w, i, j) + k < out.len() implies
            out@[6 * cell(w, i, j) + k] == #[trigger] grid_corner(w + 1, i, j, k) by {
                lemma_cell(w, h, i, j);
                if cell(w, i, j) == cell(w, x as int, y as int) {
                    assert(i == x && j == y);
                } else {
                    assert(6 * cell(w, i, j) + k < before.len());
                }
            }
            x = x + 1;
        }
        assert((y + 1) * w == y * w + w) by (nonlinear_arith);
        y = y + 1;
    }
    proof {
        assert(cell(w, 0, h) == w * h) by {
            assert(h * w == w * h) by (nonlinear_arith);
        }
        assert forall|i: int, j: int, k: int| 0 <= i < w && 0 <= j < h && 0 <= k < 6 implies out@[6
            * cell(w, i, j) + k] == #[trigger] grid_corner(w + 1, i, j, k) by {
            lemma_cell(w, h, i, j);
        }
    }
    out
}

/// Every corner of a sphere's triangles is one of its corners.
pub proof fn sphere_corners_are_its_own(w: int, h: int, x: int, y: int, k: int)
    requires
        0 <= x < w,
        0 <= y < h,
        0 <= k < 6,
    ensures
        0 <= grid_corner(w + 1, x, y, k) < (w + 1) * (h + 1),
{
    lemma_cell(w + 1, h + 1, x, y);
    lemma_cell(w + 1, h + 1, x + 1, y + 1);
    assert((y + 1) * (w + 1) == y * (w + 1) + (w + 1)) by (nonlinear_arith);
}

/// Corner `k` of the two triangles of a square with corners from `base` on.
pub open spec fn square_corner(base: int, k: int) -> int {
    if k == 0 || k == 3 {
        base
    } else if k == 1 {
        base + 1
    } else if k == 2 || k == 4 {
        base + 2
    } else {
        base + 3
    }
}

/// The triangles of `n` squares, the corners of which follow each other.
pub fn square_indices(n: usize) -> (r: Vec<u16>)
    requires
        4 * n <= 0x1_0000,
    ensures
        r.len() == 6 * n,
        forall|i: int, k: int|
            0 <= i < n && 0 <= k < 6 ==> r@[6 * i + k] == #[trigger] square_corner(4 * i, k),
{
    let mut out: Vec<u16> = Vec::new();
    let mut i: usize = 0;
    while i < n
        invariant
            i <= n,
            4 * n <= 0x1_0000,
            out.len() == 6 * i,
            forall|j: int, k: int|
                0 <= j < i && 0 <= k < 6 ==> out@[6 * j + k] == #[trigger] square_corner(4 * j, k),
        decreases n - i,
    {
        let base: u32 = 4 * i as u32;
        out.push(base as u16);
        out.push((base + 1) as u16);
        out.push((base + 2) as u16);
        out.push(base as u16);
        out.push((base + 2) as u16);
        out.push((base + 3) as u16);
        i = i + 1;
    }
    out
}

} // verus!
