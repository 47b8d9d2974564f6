//! Where selections lie: the rectangles around them, moving their masks, and the cells that
//! they confine painting to.
use crate::number::{Real, ONE_BITS, ZERO_BITS};
use crate::pixels::{cell, lemma_cell, zero_bytes};
use crate::retouch::{Area, Edges};
use crate::selection::SelectionShape;
use vstd::prelude::*;

verus! {

/// Whether the cell in column `x` of row `y` of a mask is selected, if only in part.
pub open spec fn marked(data: Seq<u8>, w: int, h: int, x: int, y: int) -> bool {
    0 <= x < w && 0 <= y < h && data[cell(w, x, y)] > 0
}

/// A rectangle of cells, from its first column and row up to those past its last.
#[derive(Clone, Copy, Debug, PartialEq, Eq, Structural)]
pub struct MaskBox {
    pub x0: usize,
    pub y0: usize,
    pub x1: usize,
    pub y1: usize,
}

impl MaskBox {
    /// Whether the rectangle has column `x` of row `y`.
    pub open spec fn has(self, x: int, y: int) -> bool {
        self.x0 <= x < self.x1 && self.y0 <= y < self.y1
    }
}

/// Whether a rectangle has every selected cell that comes before cell `n`.
pub open spec fn surrounds(b: MaskBox, data: Seq<u8>, w: int, h: int, n: int) -> bool {
    forall|x: int, y: int|
        #![trigger marked(data, w, h, x, y)]
        marked(data, w, h, x, y) && cell(w, x, y) < n ==> b.has(x, y)
}

/// Whether something in column `x` of a mask is selected.
pub open spec fn column_marked(data: Seq<u8>, w: int, h: int, x: int) -> bool {
    exists|y: int| #[trigger] marked(data, w, h, x, y)
}

/// Whether something in row `y` of a mask is selected.
pub open spec fn row_marked(data: Seq<u8>, w: int, h: int, y: int) -> bool {
    exists|x: int| #[trigger] marked(data, w, h, x, y)
}

/// Whether each side of a rectangle has a selected cell at it.
pub open spec fn tight(b: MaskBox, data: Seq<u8>, w: int, h: int) -> bool {
    &&& column_marked(data, w, h, b.x0 as int)
    &&& column_marked(data, w, h, b.x1 - 1)
    &&& row_marked(data, w, h, b.y0 as int)
    &&& row_marked(data, w, h, b.y1 - 1)
}

/// The smallest rectangle around the selected cells of a mask, none where nothing is selected.
pub fn mask_bounds(w: usize, h: usize, data: &[u8]) -> (r: Option<MaskBox>)
    requires
        w * h <= data.len(),
        w < usize::MAX,
        h < usize::MAX,
    ensures
        match r {
            Some(b) => surrounds(b, data@, w as int, h as int, w * h) && tight(
                b,
                data@,
                w as int,
                h as int,
            ) && b.x1 <= w && b.y1 <= h,
            None => forall|x: int, y: int| !#[trigger] marked(data@, w as int, h as int, x, y),
        },
{
    let mut best: Option<MaskBox> = None;
    let mut y: usize = 0;
    while y < h
        invariant
            y <= h,
            w * h <= data.len(),
            w < usize::MAX,
            h < usize::MAX,
            match best {
                Some(b) => surrounds(b, data@, w as int, h as int, cell(w as int, 0, y as int))
                    && tight(b, data@, w as int, h as int) && b.x1 <= w && b.y1 <= h,
                None => forall|i: int, j: int|
                    cell(w as int, i, j) < cell(w as int, 0, y as int) ==> !#[trigger] marked(
                        data@,
                        w as int,
                        h as int,
                        i,
                        j,
                    ),
            },
        decreases h - y,
    {
        let mut x: usize = 0;
        while x < w
            invariant
                x <= w,
                y < h,
                w * h <= data.len(),
                w < usize::MAX,
                h < usize::MAX,
                match best {
                    Some(b) => surrounds(
                        b,
                        data@,
                        w as int,
                        h as int,
                        cell(w as int, x as int, y as int),
                    ) && tight(b, data@, w as int, h as int) && b.x1 <= w && b.y1 <= h,
                    None => forall|i: int, j: int|
                        cell(w as int, i, j) < cell(w as int, x as int, y as int)
                            ==> !#[trigger] marked(data@, w as int, h as int, i, j),
                },
            decreases w - x,
        {
            proof {
                lemma_cell(w as int, h as int, x as int, y as int);
                assert(0 <= y * w) by (nonlinear_arith)
                    requires
                        0 <= y,
                        0 <= w,
                ;
                assert forall|i: int, j: int| #[trigger]
                    marked(data@, w as int, h as int, i, j) && cell(w as int, i, j) == cell(
                        w as int,
                        x as int,
                        y as int,
                    ) implies i == x && j == y by {
                    lemma_cell(w as int, h as int, i, j);
                }
            }
            if data[y * w + x] > 0 {
                assert(marked(data@, w as int, h as int, x as int, y as int));
                let ghost before = best;
                let b: MaskBox = match best {
                    Some(b) => MaskBox {
                        x0: if x < b.x0 {
                            x
                        } else {
                            b.x0
                        },
                        y0: if y < b.y0 {
                            y
                        } else {
                            b.y0
                        },
                        x1: if x + 1 > b.x1 {
                            x + 1
                        } else {
                            b.x1
                        },
                        y1: if y + 1 > b.y1 {
                            y + 1
                        } else {
                            b.y1
                        },
                    },
                    None => MaskBox { x0: x, y0: y, x1: x + 1, y1: y + 1 },
                };
                assert(column_marked(data@, w as int, h as int, x as int));
                assert(row_marked(data@, w as int, h as int, y as int));
                assert(tight(b, data@, w as int, h as int));
                assert forall|i: int, j: int|
                    #![trigger marked(data@, w as int, h as int, i, j)]
                    marked(data@, w as int, h as int, i, j) && cell(w as int, i, j) < cell(
                        w as int,
                        x as int,
                        y as int,
                    ) + 1 implies b.has(i, j) by {
                    if cell(w as int, i, j) < cell(w as int, x as int, y as int) {
                        assert(before is Some);
                        assert((before->0).has(i, j));
                    }
                }
                best = Some(b);
            }
            x = x + 1;
        }
        assert((y + 1) * w == y * w + w) by (nonlinear_arith);
        y = y + 1;
    }
    proof {
        assert(cell(w as int, 0, h as int) == w * h) by {
            assert(h * w == w * h) by (nonlinear_arith);
        }
        assert forall|x: int, y: int| #[trigger]
            marked(data@, w as int, h as int, x, y) implies cell(w as int, x, y) < w * h by {
            lemma_cell(w as int, h as int, x, y);
        }
    }
    best
}

/// Zero.
pub open spec fn zero() -> Real {
    Real { bits: ZERO_BITS }
}

/// One.
pub open spec fn one() -> Real {
    Real { bits: ONE_BITS }
}

/// The edges of the rectangle around the first `n` points, within the picture or not.
pub open spec fn around(points: Seq<(Real, Real)>, n: int) -> Edges
    decreases n,
{
    if n <= 0 {
        Edges { x0: one(), y0: one(), x1: zero(), y1: zero() }
    } else {
        let e = around(points, n - 1);
        let p = points[n - 1];
        Edges {
            x0: e.x0.lesser(p.0),
            y0: e.y0.lesser(p.1),
            x1: e.x1.greater(p.0),
            y1: e.y1.greater(p.1),
        }
    }
}

/// Edges kept within the picture.
pub open spec fn within(e: Edges) -> Edges {
    Edges {
        x0: e.x0.greater(zero()),
        y0: e.y0.greater(zero()),
        x1: e.x1.lesser(one()),
        y1: e.y1.lesser(one()),
    }
}

/// Whether edges can be those of the rectangle around a shape.
pub open spec fn shape_edges<
    E: Fn(Real, Real, Real, Real) -> Edges,
    S: Fn(usize, u32) -> Real,
>(shape: &SelectionShape, ellipse: &E, share: &S, e: Edges) -> bool {
    match shape {
        SelectionShape::Ellipse { cx, cy, rx, ry } => (*ellipse).ensures((*cx, *cy, *rx, *ry), e),
        SelectionShape::Polygon(points) => e == within(around(points@, points@.len() as int)),
        SelectionShape::Mask { width, height, data } => {
            let w = *width as int;
            let h = *height as int;
            ||| (forall|x: int, y: int| !#[trigger] marked(data@, w, h, x, y)) && e == (Edges {
                x0: zero(),
                y0: zero(),
                x1: zero(),
                y1: zero(),
            })
            ||| exists|b: MaskBox|
                {
                    &&& #[trigger] surrounds(b, data@, w, h, w * h)
                    &&& tight(b, data@, w, h)
                    &&& (*share).ensures((b.x0, *width), e.x0)
                    &&& (*share).ensures((b.y0, *height), e.y0)
                    &&& (*share).ensures((b.x1, *width), e.x1)
                    &&& (*share).ensures((b.y1, *height), e.y1)
                }
        },
    }
}

/// The rectangle around a shape. `ellipse` gives it for an ellipse by its centre and radii;
/// `share` is a number of cells as a share of a size.
pub fn selection_shape_bounds<E: Fn(Real, Real, Real, Real) -> Edges, S: Fn(usize, u32) -> Real>(
    shape: &SelectionShape,
    ellipse: &E,
    share: &S,
) -> (r: Edges)
    requires
        shape matches SelectionShape::Mask { width, height, data } ==> *width * *height
            <= data@.len() && *width < usize::MAX && *height < usize::MAX,
        forall|a: Real, b: Real, c: Real, d: Real| #[trigger] (*ellipse).requires((a, b, c, d)),
        forall|n: usize, size: u32| #[trigger] (*share).requires((n, size)),
    ensures
        shape_edges(shape, ellipse, share, r),
{
    match shape {
        SelectionShape::Ellipse { cx, cy, rx, ry } => ellipse(*cx, *cy, *rx, *ry),
        SelectionShape::Polygon(points) => {
            let zero: Real = Real { bits: ZERO_BITS };
            let one: Real = Real { bits: ONE_BITS };
            let mut e: Edges = Edges { x0: one, y0: one, x1: zero, y1: zero };
            let mut i: usize = 0;
            while i < points.len()
                invariant
                    i <= points.len(),
                    e == around(points@, i as int),
                decreases points.len() - i,
            {
                let p: (Real, Real) = points[i];
                e = Edges {
                    x0: e.x0.min(p.0),
                    y0: e.y0.min(p.1),
                    x1: e.x1.max(p.0),
                    y1: e.y1.max(p.1),
                };
                i = i + 1;
            }
            Edges { x0: e.x0.max(zero), y0: e.y0.max(zero), x1: e.x1.min(one), y1: e.y1.min(one) }
        },
        SelectionShape::Mask { width, height, data } => {
            match mask_bounds(*width as usize, *height as usize, data.as_slice()) {
                None => {
                    let zero: Real = Real { bits: ZERO_BITS };
                    Edges { x0: zero, y0: zero, x1: zero, y1: zero }
                },
                Some(b) => Edges {
                    x0: share(b.x0, *width),
                    y0: share(b.y0, *height),
                    x1: share(b.x1, *width),
                    y1: share(b.y1, *height),
                },
            }
        },
    }
}

/// A mask moved by `dx` columns and `dy` rows. What leaves it is dropped, and what comes in is
/// not selected. Bytes after those of its cells become zero.
pub open spec fn mask_moved(m: Seq<u8>, r: Seq<u8>, w: int, h: int, dx: int, dy: int) -> bool {
    &&& r.len() == m.len()
    &&& forall|x: int, y: int|
        0 <= x < w && 0 <= y < h ==> r[#[trigger] cell(w, x, y)] == (if 0 <= x - dx < w && 0 <= y
            - dy < h {
            m[cell(w, x - dx, y - dy)]
        } else {
            0u8
        })
    &&& forall|i: int| w * h <= i < m.len() ==> r[i] == 0
}

/// A mask moved by `dx` columns and `dy` rows.
pub fn shift_mask(data: &[u8], w: usize, h: usize, dx: i32, dy: i32) -> (r: Vec<u8>)
    requires
        w * h <= data.len(),
        w <= i32::MAX,
        h <= i32::MAX,
    ensures
        mask_moved(data@, r@, w as int, h as int, dx as int, dy as int),
{
    let mut r: Vec<u8> = zero_bytes(data.len());
    let mut y: usize = 0;
    while y < h
        invariant
            y <= h,
            w * h <= data.len(),
            w <= i32::MAX,
            h <= i32::MAX,
            r.len() == data.len(),
            forall|i: int, j: int|
                0 <= i < w && 0 <= j < y ==> r@[#[trigger] cell(w as int, i, j)] == (if 0 <= i - dx
                    < w && 0 <= j - dy < h {
                    data@[cell(w as int, i - dx, j - dy)]
                } else {
                    0u8
                }),
            forall|i: int| w * h <= i < data.len() ==> r@[i] == 0,
        decreases h - y,
    {
        let mut x: usize = 0;
        while x < w
            invariant
                x <= w,
                y < h,
                w * h <= data.len(),
                w <= i32::MAX,
                h <= i32::MAX,
                r.len() == data.len(),
                forall|i: int, j: int|
                    0 <= i < w && 0 <= j < h && (j < y || j == y && i < x) ==> r@[#[trigger] cell(
                        w as int,
                        i,
                        j,
                    )] == (if 0 <= i - dx < w && 0 <= j - dy < h {
                        data@[cell(w as int, i - dx, j - dy)]
                    } else {
                        0u8
                    }),
                forall|i: int| w * h <= i < data.len() ==> r@[i] == 0,
            decreases w - x,
        {
            let sx: i64 = x as i64 - dx as i64;
            let sy: i64 = y as i64 - dy as i64;
            let v: u8 = if 0 <= sx && sx < w as i64 && 0 <= sy && sy < h as i64 {
                data[mask_place(w, h, sx as usize, sy as usize, data.len())]
            } else {
                0
            };
            let p: usize = mask_place(w, h, x, y, data.len());
            r.set(p, v);
            proof {
                assert forall|i: int, j: int|
                    0 <= i < w && 0 <= j < h && #[trigger] cell(w as int, i, j) == p implies i == x
                    && j == y by {
                    lemma_cell(w as int, h as int, i, j);
                    lemma_cell(w as int, h as int, x as int, y as int);
                }
                assert forall|i: int, j: int|
                    0 <= i < w && 0 <= j < h implies 0 <= #[trigger] cell(w as int, i, j) < w * h by {
                    lemma_cell(w as int, h as int, i, j);
                }
            }
            x = x + 1;
        }
        y = y + 1;
    }
    r
}

fn mask_place(w: usize, h: usize, x: usize, y: usize, len: usize) -> (r: usize)
    requires
        x < w,
        y < h,
        w * h <= len,
    ensures
        r == cell(w as int, x as int, y as int),
        r < w * h,
{
    proof {
        lemma_cell(w as int, h as int, x as int, y as int);
        assert(0 <= y * w) by (nonlinear_arith)
            requires
                0 <= y,
                0 <= w,
        ;
    }
    y * w + x
}

/// How far from `start` up to `end` it is, and at least one.
pub open spec fn reach(start: int, end: int) -> int {
    if end - start > 1 {
        end - start
    } else {
        1
    }
}

/// The cells that a selection confines painting to, none without one, and none where the
/// selection is shut. `floor` is the cell that an edge at a share of a size is in, `ceil` the
/// first past it.
pub open spec fn scissored<F: Fn(Real, u32) -> u32, C: Fn(Real, u32) -> u32>(
    selection: Option<Edges>,
    width: u32,
    height: u32,
    floor: &F,
    ceil: &C,
    r: Option<(u32, u32, u32, u32)>,
) -> bool {
    if selection is Some && !(selection->0).shut() {
        let e = selection->0;
        r matches Some((x, y, w, h)) && (exists|x1: u32, y1: u32|
            {
                &&& (*floor).ensures((e.x0, width), x)
                &&& (*floor).ensures((e.y0, height), y)
                &&& #[trigger] (*ceil).ensures((e.x1, width), x1)
                &&& #[trigger] (*ceil).ensures((e.y1, height), y1)
                &&& w == reach(x as int, x1 as int)
                &&& h == reach(y as int, y1 as int)
            })
    } else {
        r is None
    }
}

fn reach_of(start: u32, end: u32) -> (r: u32)
    ensures
        r == reach(start as int, end as int),
{
    if end > start && end - start > 1 {
        end - start
    } else {
        1
    }
}

/// The cells that a selection confines painting to: column and row, width and height.
pub fn selection_scissor<F: Fn(Real, u32) -> u32, C: Fn(Real, u32) -> u32>(
    selection: Option<Edges>,
    width: u32,
    height: u32,
    floor: &F,
    ceil: &C,
) -> (r: Option<(u32, u32, u32, u32)>)
    requires
        forall|e: Real, n: u32| #[trigger] (*floor).requires((e, n)),
        forall|e: Real, n: u32| #[trigger] (*ceil).requires((e, n)),
    ensures
        scissored(selection, width, height, floor, ceil, r),
{
    if let Some(e) = selection {
        if !e.is_shut() {
            let x: u32 = floor(e.x0, width);
            let y: u32 = floor(e.y0, height);
            let x1: u32 = ceil(e.x1, width);
            let y1: u32 = ceil(e.y1, height);
            return Some((x, y, reach_of(x, x1), reach_of(y, y1)));
        }
    }
    None
}

/// The cells of a picture that a selection has, none without one, and none where the selection
/// is shut. They begin in the picture, and there is at least one.
pub open spec fn selected_area<F: Fn(Real, usize) -> usize, C: Fn(Real, usize) -> usize>(
    selection: Option<Edges>,
    width: usize,
    height: usize,
    floor: &F,
    ceil: &C,
    r: Option<Area>,
) -> bool {
    if selection is Some && !(selection->0).shut() {
        let e = selection->0;
        r matches Some(a) && (exists|x: usize, y: usize, x1: usize, y1: usize|
            {
                &&& #[trigger] (*floor).ensures((e.x0, width), x)
                &&& #[trigger] (*floor).ensures((e.y0, height), y)
                &&& #[trigger] (*ceil).ensures((e.x1, width), x1)
                &&& #[trigger] (*ceil).ensures((e.y1, height), y1)
                &&& a.x == begin(x as int, width as int)
                &&& a.y == begin(y as int, height as int)
                &&& a.w == reach(a.x as int, x1 as int)
                &&& a.h == reach(a.y as int, y1 as int)
            })
    } else {
        r is None
    }
}

/// A cell of a picture of `size` cells along an axis: `at`, or the last.
pub open spec fn begin(at: int, size: int) -> int {
    if at < size {
        at
    } else if size > 0 {
        size - 1
    } else {
        0
    }
}

fn begin_of(at: usize, size: usize) -> (r: usize)
    ensures
        r == begin(at as int, size as int),
{
    if at < size {
        at
    } else if size > 0 {
        size - 1
    } else {
        0
    }
}

fn reach_usize(start: usize, end: usize) -> (r: usize)
    ensures
        r == reach(start as int, end as int),
{
    if end > start && end - start > 1 {
        end - start
    } else {
        1
    }
}

/// The cells of a picture that a selection has.
pub fn selection_area<F: Fn(Real, usize) -> usize, C: Fn(Real, usize) -> usize>(
    selection: Option<Edges>,
    width: usize,
    height: usize,
    floor: &F,
    ceil: &C,
) -> (r: Option<Area>)
    requires
        forall|e: Real, n: usize| #[trigger] (*floor).requires((e, n)),
        forall|e: Real, n: usize| #[trigger] (*ceil).requires((e, n)),
    ensures
        selected_area(selection, width, height, floor, ceil, r),
{
    if let Some(e) = selection {
        if !e.is_shut() {
            let fx: usize = floor(e.x0, width);
            let fy: usize = floor(e.y0, height);
            let x1: usize = ceil(e.x1, width);
            let y1: usize = ceil(e.y1, height);
            let x: usize = begin_of(fx, width);
            let y: usize = begin_of(fy, height);
            return Some(Area { x, y, w: reach_usize(x, x1), h: reach_usize(y, y1) });
        }
    }
    None
}

} // verus!
