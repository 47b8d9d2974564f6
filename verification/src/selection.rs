//! Selections that are not rectangles: ellipses, polygons and masks.
//!
//! A shape becomes a mask of one byte per cell, 0 where nothing of the cell is selected and 255
//! where all of it is. Where lines cross, and how much of a cell an ellipse covers, is the
//! caller's arithmetic.
use crate::feather::copied;
use crate::number::Real;
use crate::pixels::{cell, lemma_cell, zero_bytes, zeros};
use vstd::prelude::*;

verus! {

/// The shape of a selection, in shares of the width and height of the picture.
#[derive(Debug)]
pub enum SelectionShape {
    /// An ellipse by its centre and its two radii.
    Ellipse { cx: Real, cy: Real, rx: Real, ry: Real },
    /// A closed polygon. The last point joins the first.
    Polygon(Vec<(Real, Real)>),
    /// A mask for a picture of a certain size.
    Mask { width: u32, height: u32, data: Vec<u8> },
}

/// Numbers that do not fall from one to the next.
pub open spec fn rising(s: Seq<Real>) -> bool {
    forall|i: int, j: int| 0 <= i <= j < s.len() ==> !(#[trigger] s[j]).less(#[trigger] s[i])
}

/// Whether all are numbers.
pub open spec fn all_numbers(s: Seq<Real>) -> bool {
    forall|i: int| 0 <= i < s.len() ==> !(#[trigger] s[i]).nan()
}

/// Puts numbers in order.
pub fn sort_numbers(xs: &Vec<Real>) -> (r: Vec<Real>)
    requires
        all_numbers(xs@),
    ensures
        rising(r@),
        r@.to_multiset() == xs@.to_multiset(),
{
    let mut out: Vec<Real> = Vec::new();
    assert(out@ =~= xs@.take(0));
    let mut i: usize = 0;
    while i < xs.len()
        invariant
            i <= xs.len(),
            all_numbers(xs@),
            rising(out@),
            all_numbers(out@),
            out@.to_multiset() == xs@.take(i as int).to_multiset(),
        decreases xs.len() - i,
    {
        let x: Real = xs[i];
        let mut k: usize = out.len();
        while k > 0 && x.lt(out[k - 1])
            invariant
                k <= out.len(),
                forall|j: int| k <= j < out.len() ==> x.less(#[trigger] out[j]),
            decreases k,
        {
            k = k - 1;
        }
        let ghost before = out@;
        out.insert(k, x);
        proof {
            assert(out@ =~= before.insert(k as int, x));
            vstd::seq_lib::to_multiset_insert(before, k as int, x);
            vstd::seq_lib::to_multiset_build(xs@.take(i as int), x);
            assert(xs@.take(i + 1) =~= xs@.take(i as int).push(x));
            assert forall|a: int, b: int| 0 <= a <= b < out@.len() implies !(
            #[trigger] out@[b]).less(#[trigger] out@[a]) by {
                if a == k && b > k {
                    assert(out@[b] == before[b - 1]);
                } else if b == k && a < k {
                    assert(out@[a] == before[a]);
                    assert(!x.less(before[k - 1]));
                    assert(!before[k - 1].less(before[a]));
                }
            }
            assert forall|a: int| 0 <= a < out@.len() implies !(#[trigger] out@[a]).nan() by {
                if a < k {
                    assert(out@[a] == before[a]);
                } else if a > k {
                    assert(out@[a] == before[a - 1]);
                }
            }
        }
        i = i + 1;
    }
    assert(xs@.take(xs.len() as int) =~= xs@);
    out
}

/// What was found, in order.
pub open spec fn found(outs: Seq<Option<Real>>) -> Seq<Real>
    decreases outs.len(),
{
    if outs.len() == 0 {
        Seq::empty()
    } else {
        match outs.last() {
            Some(x) => found(outs.drop_last()).push(x),
            None => found(outs.drop_last()),
        }
    }
}

/// Where the sides of a polygon can cross the row `y`.
pub open spec fn crossings<C: Fn(usize, (Real, Real), (Real, Real)) -> Option<Real>>(
    points: Seq<(Real, Real)>,
    y: int,
    cross: &C,
    outs: Seq<Option<Real>>,
) -> bool {
    &&& outs.len() == points.len()
    &&& forall|i: int|
        0 <= i < points.len() ==> (*cross).ensures(
            (
                y as usize,
                points[i],
                points[if i + 1 < points.len() {
                    i + 1
                } else {
                    0
                }],
            ),
            #[trigger] outs[i],
        )
}

/// The cells that the crossings `xs`, in order, bound: from the first up to the second, from
/// the third up to the fourth, and so on.
pub open spec fn bounded<L: Fn(Real) -> usize, R: Fn(Real) -> usize>(
    xs: Seq<Real>,
    left: &L,
    right: &R,
    spans: Seq<(usize, usize)>,
) -> bool {
    &&& spans.len() == xs.len() / 2
    &&& forall|j: int|
        0 <= j < spans.len() ==> (*left).ensures((xs[2 * j],), (#[trigger] spans[j]).0)
            && (*right).ensures((xs[2 * j + 1],), spans[j].1)
}

/// The runs of cells of row `y` that can be inside a polygon, by its crossings in order.
pub open spec fn row_spans<
    C: Fn(usize, (Real, Real), (Real, Real)) -> Option<Real>,
    L: Fn(Real) -> usize,
    R: Fn(Real) -> usize,
>(
    points: Seq<(Real, Real)>,
    y: int,
    cross: &C,
    left: &L,
    right: &R,
    spans: Seq<(usize, usize)>,
) -> bool {
    exists|outs: Seq<Option<Real>>, xs: Seq<Real>|
        {
            &&& #[trigger] crossings(points, y, cross, outs)
            &&& rising(xs)
            &&& xs.to_multiset() == found(outs).to_multiset()
            &&& #[trigger] bounded(xs, left, right, spans)
        }
}

/// Whether a run has column `x`.
pub open spec fn spanned(spans: Seq<(usize, usize)>, x: int) -> bool {
    exists|j: int| 0 <= j < spans.len() && (#[trigger] spans[j]).0 <= x < spans[j].1
}

/// Whether row `y` of a mask can be that of a polygon.
pub open spec fn polygon_row<
    C: Fn(usize, (Real, Real), (Real, Real)) -> Option<Real>,
    L: Fn(Real) -> usize,
    R: Fn(Real) -> usize,
>(
    points: Seq<(Real, Real)>,
    w: int,
    y: int,
    cross: &C,
    left: &L,
    right: &R,
    mask: Seq<u8>,
) -> bool {
    exists|spans: Seq<(usize, usize)>|
        #[trigger] row_spans(points, y, cross, left, right, spans) && row_is(mask, w, y, spans)
}

/// Whether a row of a mask has the columns of some runs, and no others.
pub open spec fn row_is(mask: Seq<u8>, w: int, y: int, spans: Seq<(usize, usize)>) -> bool {
    forall|x: int|
        0 <= x < w ==> mask[#[trigger] cell(w, x, y)] == (if spanned(spans, x) {
            255u8
        } else {
            0u8
        })
}

/// The column, or row, of `own` that column `k` of a picture `size` wide reads.
pub open spec fn resampled(k: int, own: int, size: int) -> int {
    let last = if own > 0 {
        own - 1
    } else {
        0
    };
    let at = k * own / size;
    if at < last {
        at
    } else {
        last
    }
}

/// The byte of a mask of `mw` by `mh` cells that the cell in column `x` of row `y` of a picture
/// of `w` by `h` cells reads.
pub open spec fn mask_source(mw: int, mh: int, w: int, h: int, x: int, y: int) -> int {
    resampled(y, if mh > 0 { mh } else { 1 }, h) * mw + resampled(x, mw, w)
}

/// Whether the bytes that a mask is read at are there.
pub open spec fn mask_readable(mw: int, mh: int, len: int, w: int, h: int) -> bool {
    mw == w && mh == h || forall|x: int, y: int|
        0 <= x < w && 0 <= y < h ==> #[trigger] mask_source(mw, mh, w, h, x, y) < len
}

/// Whether a mask can be that of a shape.
pub open spec fn shape_mask<
    E: Fn(usize, usize, Real, Real, Real, Real) -> u8,
    C: Fn(usize, (Real, Real), (Real, Real)) -> Option<Real>,
    L: Fn(Real) -> usize,
    R: Fn(Real) -> usize,
>(
    shape: &SelectionShape,
    w: int,
    h: int,
    cover: &E,
    cross: &C,
    left: &L,
    right: &R,
    mask: Seq<u8>,
) -> bool {
    match shape {
        SelectionShape::Ellipse { cx, cy, rx, ry } => {
            &&& mask.len() == w * h
            &&& forall|x: int, y: int|
                0 <= x < w && 0 <= y < h ==> (*cover).ensures(
                    (x as usize, y as usize, *cx, *cy, *rx, *ry),
                    mask[#[trigger] cell(w, x, y)],
                )
        },
        SelectionShape::Polygon(points) => if points@.len() < 3 {
            mask == zeros(w * h)
        } else {
            &&& mask.len() == w * h
            &&& forall|y: int|
                0 <= y < h ==> #[trigger] polygon_row(points@, w, y, cross, left, right, mask)
        },
        SelectionShape::Mask { width, height, data } => if *width == w && *height == h {
            mask == data@
        } else {
            &&& mask.len() == w * h
            &&& forall|x: int, y: int|
                0 <= x < w && 0 <= y < h ==> mask[#[trigger] cell(w, x, y)] == data@[mask_source(
                    *width as int,
                    *height as int,
                    w,
                    h,
                    x,
                    y,
                )]
        },
    }
}

/// The runs of cells of row `y` that are inside a polygon.
fn row_spans_of<
    C: Fn(usize, (Real, Real), (Real, Real)) -> Option<Real>,
    L: Fn(Real) -> usize,
    R: Fn(Real) -> usize,
>(points: &Vec<(Real, Real)>, y: usize, cross: &C, left: &L, right: &R) -> (r: Vec<(usize, usize)>)
    requires
        crosses_at_numbers(cross),
        forall|x: Real| #[trigger] (*left).requires((x,)),
        forall|x: Real| #[trigger] (*right).requires((x,)),
    ensures
        row_spans(points@, y as int, cross, left, right, r@),
{
    let n: usize = points.len();
    let mut xs: Vec<Real> = Vec::new();
    let ghost mut outs: Seq<Option<Real>> = Seq::empty();
    let mut i: usize = 0;
    while i < n
        invariant
            n == points.len(),
            i <= n,
            crosses_at_numbers(cross),
            outs.len() == i,
            xs@ == found(outs),
            all_numbers(xs@),
            forall|k: int|
                0 <= k < i ==> (*cross).ensures(
                    (
                        y,
                        points@[k],
                        points@[if k + 1 < points@.len() {
                            k + 1
                        } else {
                            0
                        }],
                    ),
                    #[trigger] outs[k],
                ),
        decreases n - i,
    {
        let j: usize = if i + 1 < n {
            i + 1
        } else {
            0
        };
        let o: Option<Real> = cross(y, points[i], points[j]);
        let ghost before = outs;
        proof {
            outs = outs.push(o);
            assert(outs.drop_last() =~= before);
        }
        if let Some(x) = o {
            xs.push(x);
        }
        i = i + 1;
    }
    let sorted: Vec<Real> = sort_numbers(&xs);
    let half: usize = sorted.len() / 2;
    let mut spans: Vec<(usize, usize)> = Vec::new();
    let mut j: usize = 0;
    while j < half
        invariant
            half == sorted.len() / 2,
            j <= half,
            spans.len() == j,
            forall|x: Real| #[trigger] (*left).requires((x,)),
            forall|x: Real| #[trigger] (*right).requires((x,)),
            forall|k: int|
                0 <= k < j ==> (*left).ensures((sorted@[2 * k],), (#[trigger] spans@[k]).0)
                    && (*right).ensures((sorted@[2 * k + 1],), spans@[k].1),
        decreases half - j,
    {
        let a: usize = left(sorted[2 * j]);
        let b: usize = right(sorted[2 * j + 1]);
        spans.push((a, b));
        j = j + 1;
    }
    assert(crossings(points@, y as int, cross, outs));
    assert(bounded(sorted@, left, right, spans@));
    spans
}

/// Whether crossings are always at numbers.
pub open spec fn crosses_at_numbers<C: Fn(usize, (Real, Real), (Real, Real)) -> Option<Real>>(
    cross: &C,
) -> bool {
    &&& forall|y: usize, a: (Real, Real), b: (Real, Real)| #[trigger] (*cross).requires((y, a, b))
    &&& forall|y: usize, a: (Real, Real), b: (Real, Real), x: Real| #[trigger]
        (*cross).ensures((y, a, b), Some(x)) ==> !x.nan()
}

/// Whether a run has column `x`.
fn is_spanned(spans: &Vec<(usize, usize)>, x: usize) -> (r: bool)
    ensures
        r == spanned(spans@, x as int),
{
    let mut j: usize = 0;
    while j < spans.len()
        invariant
            j <= spans.len(),
            forall|k: int| 0 <= k < j ==> !((#[trigger] spans@[k]).0 <= x < spans@[k].1),
        decreases spans.len() - j,
    {
        if spans[j].0 <= x && x < spans[j].1 {
            assert(spans@[j as int].0 <= x < spans@[j as int].1);
            return true;
        }
        j = j + 1;
    }
    false
}

fn resampled_at(k: usize, own: usize, size: usize) -> (r: usize)
    requires
        k < size,
    ensures
        r == resampled(k as int, own as int, size as int),
{
    let last: usize = if own > 0 {
        own - 1
    } else {
        0
    };
    assert(0 <= k * own <= 0xffff_ffff_ffff_ffff * 0xffff_ffff_ffff_ffff) by (nonlinear_arith)
        requires
            0 <= k <= 0xffff_ffff_ffff_ffff,
            0 <= own <= 0xffff_ffff_ffff_ffff,
    ;
    let at: u128 = k as u128 * own as u128 / size as u128;
    if at < last as u128 {
        at as usize
    } else {
        last
    }
}

/// One row of a mask, cell by cell.
pub(crate) fn push_row<F: Fn(usize) -> u8>(mask: &mut Vec<u8>, w: usize, h: usize, y: usize, f: F)
    requires
        old(mask).len() == cell(w as int, 0, y as int),
        y < h,
        w * h <= usize::MAX,
        forall|x: usize| x < w ==> #[trigger] f.requires((x,)),
    ensures
        final(mask).len() == cell(w as int, 0, y + 1),
        forall|i: int| 0 <= i < old(mask).len() ==> final(mask)@[i] == old(mask)@[i],
        forall|x: int|
            0 <= x < w ==> f.ensures(
                (x as usize,),
                final(mask)@[#[trigger] cell(w as int, x, y as int)],
            ),
{
    let mut x: usize = 0;
    while x < w
        invariant
            x <= w,
            y < h,
            w * h <= usize::MAX,
            old(mask).len() == cell(w as int, 0, y as int),
            mask.len() == cell(w as int, x as int, y as int),
            forall|x: usize| x < w ==> #[trigger] f.requires((x,)),
            forall|i: int| 0 <= i < old(mask).len() ==> mask@[i] == old(mask)@[i],
            forall|k: int|
                0 <= k < x ==> f.ensures(
                    (k as usize,),
                    mask@[#[trigger] cell(w as int, k, y as int)],
                ),
        decreases w - x,
    {
        let v: u8 = f(x);
        let ghost before = mask@;
        mask.push(v);
        assert forall|k: int| 0 <= k < x + 1 implies f.ensures(
            (k as usize,),
            mask@[#[trigger] cell(w as int, k, y as int)],
        ) by {
            lemma_cell(w as int, h as int, k, y as int);
        }
        x = x + 1;
    }
    assert((y + 1) * w == y * w + w) by (nonlinear_arith);
}

/// The mask of a shape in a picture of `width` by `height` cells. `cover` is how much of the
/// cell in a column of a row an ellipse with a centre and radii covers; `cross` is where a side
/// crosses a row; `left` and `right` are the first column at or past a crossing on the left of
/// what is inside, and the first past one on its right.
pub fn rasterize_selection_mask<
    E: Fn(usize, usize, Real, Real, Real, Real) -> u8,
    C: Fn(usize, (Real, Real), (Real, Real)) -> Option<Real>,
    L: Fn(Real) -> usize,
    R: Fn(Real) -> usize,
>(
    width: usize,
    height: usize,
    shape: &SelectionShape,
    cover: &E,
    cross: &C,
    left: &L,
    right: &R,
) -> (r: Vec<u8>)
    requires
        width * height <= usize::MAX,
        shape matches SelectionShape::Mask { width: mw, height: mh, data } ==> mask_readable(
            *mw as int,
            *mh as int,
            data@.len() as int,
            width as int,
            height as int,
        ),
        forall|x: usize, y: usize, a: Real, b: Real, c: Real, d: Real| #[trigger]
            (*cover).requires((x, y, a, b, c, d)),
        crosses_at_numbers(cross),
        forall|x: Real| #[trigger] (*left).requires((x,)),
        forall|x: Real| #[trigger] (*right).requires((x,)),
    ensures
        shape_mask(shape, width as int, height as int, cover, cross, left, right, r@),
{
    let w: usize = width;
    let h: usize = height;
    assert(cell(w as int, 0, 0) == 0);
    let mut mask: Vec<u8> = Vec::new();
    match shape {
        SelectionShape::Ellipse { cx, cy, rx, ry } => {
            let mut y: usize = 0;
            while y < h
                invariant
                    y <= h,
                    w * h <= usize::MAX,
                    mask.len() == cell(w as int, 0, y as int),
                    forall|x: usize, y: usize, a: Real, b: Real, c: Real, d: Real| #[trigger]
                        (*cover).requires((x, y, a, b, c, d)),
                    forall|a: int, b: int|
                        0 <= a < w && 0 <= b < y ==> (*cover).ensures(
                            (a as usize, b as usize, *cx, *cy, *rx, *ry),
                            mask@[#[trigger] cell(w as int, a, b)],
                        ),
                decreases h - y,
            {
                let f = |x: usize| -> (v: u8)
                    requires
                        forall|x: usize, y: usize, a: Real, b: Real, c: Real, d: Real| #[trigger]
                            (*cover).requires((x, y, a, b, c, d)),
                    ensures
                        (*cover).ensures((x, y, *cx, *cy, *rx, *ry), v),
                    { cover(x, y, *cx, *cy, *rx, *ry) };
                let ghost before = mask@;
                push_row(&mut mask, w, h, y, f);
                assert forall|a: int, b: int| 0 <= a < w && 0 <= b < y + 1 implies (
                *cover).ensures(
                    (a as usize, b as usize, *cx, *cy, *rx, *ry),
                    mask@[#[trigger] cell(w as int, a, b)],
                ) by {
                    if b < y {
                        lemma_cell(w as int, y as int, a, b);
                        assert(w * y == cell(w as int, 0, y as int)) by (nonlinear_arith);
                        assert(mask@[cell(w as int, a, b)] == before[cell(w as int, a, b)]);
                    } else {
                        assert(f.ensures((a as usize,), mask@[cell(w as int, a, y as int)]));
                    }
                }
                y = y + 1;
            }
        },
        SelectionShape::Polygon(points) => {
            if points.len() < 3 {
                return zero_bytes(w * h);
            }
            let mut y: usize = 0;
            while y < h
                invariant
                    y <= h,
                    w * h <= usize::MAX,
                    mask.len() == cell(w as int, 0, y as int),
                    crosses_at_numbers(cross),
                    forall|x: Real| #[trigger] (*left).requires((x,)),
                    forall|x: Real| #[trigger] (*right).requires((x,)),
                    forall|b: int|
                        0 <= b < y ==> #[trigger] polygon_row(
                            points@,
                            w as int,
                            b,
                            cross,
                            left,
                            right,
                            mask@,
                        ),
                decreases h - y,
            {
                let spans = row_spans_of(points, y, cross, left, right);
                let f = |x: usize| -> (v: u8)
                    ensures
                        v == (if spanned(spans@, x as int) {
                            255u8
                        } else {
                            0u8
                        }),
                    {
                        if is_spanned(&spans, x) {
                            255
                        } else {
                            0
                        }
                    };
                let ghost before = mask@;
                push_row(&mut mask, w, h, y, f);
                assert forall|b: int| 0 <= b < y + 1 implies #[trigger] polygon_row(
                    points@,
                    w as int,
                    b,
                    cross,
                    left,
                    right,
                    mask@,
                ) by {
                    if b < y {
                        assert(polygon_row(points@, w as int, b, cross, left, right, before));
                        let s = choose|s: Seq<(usize, usize)>|
                            #[trigger] row_spans(points@, b, cross, left, right, s) && row_is(
                                before,
                                w as int,
                                b,
                                s,
                            );
                        assert forall|x: int| 0 <= x < w implies mask@[#[trigger] cell(
                            w as int,
                            x,
                            b,
                        )] == (if spanned(s, x) {
                            255u8
                        } else {
                            0u8
                        }) by {
                            lemma_cell(w as int, y as int, x, b);
                            assert(w * y == cell(w as int, 0, y as int)) by (nonlinear_arith);
                            assert(mask@[cell(w as int, x, b)] == before[cell(w as int, x, b)]);
                        }
                        assert(row_is(mask@, w as int, b, s));
                    } else {
                        assert forall|x: int| 0 <= x < w implies mask@[#[trigger] cell(
                            w as int,
                            x,
                            b,
                        )] == (if spanned(spans@, x) {
                            255u8
                        } else {
                            0u8
                        }) by {
                            assert(f.ensures((x as usize,), mask@[cell(w as int, x, y as int)]));
                        }
                        assert(row_is(mask@, w as int, b, spans@));
                    }
                }
                y = y + 1;
            }
        },
        SelectionShape::Mask { width: mw, height: mh, data } => {
            if *mw as usize == w && *mh as usize == h {
                return copied(data.as_slice());
            }
            let own_w: usize = *mw as usize;
            let own_h: usize = if *mh > 0 {
                *mh as usize
            } else {
                1
            };
            let mut y: usize = 0;
            while y < h
                invariant
                    y <= h,
                    w * h <= usize::MAX,
                    mask.len() == cell(w as int, 0, y as int),
                    own_w == *mw,
                    own_h == (if *mh > 0 {
                        *mh as int
                    } else {
                        1
                    }),
                    forall|x: int, y: int|
                        0 <= x < w && 0 <= y < h ==> #[trigger] mask_source(
                            *mw as int,
                            *mh as int,
                            w as int,
                            h as int,
                            x,
                            y,
                        ) < data.len(),
                    forall|a: int, b: int|
                        0 <= a < w && 0 <= b < y ==> mask@[#[trigger] cell(w as int, a, b)]
                            == data@[mask_source(
                            *mw as int,
                            *mh as int,
                            w as int,
                            h as int,
                            a,
                            b,
                        )],
                decreases h - y,
            {
                let sy: usize = resampled_at(y, own_h, h);
                let f = |x: usize| -> (v: u8)
                    requires
                        x < w,
                        y < h,
                        own_w == *mw,
                        sy == resampled(
                            y as int,
                            if *mh > 0 {
                                *mh as int
                            } else {
                                1
                            },
                            h as int,
                        ),
                        mask_source(
                            *mw as int,
                            *mh as int,
                            w as int,
                            h as int,
                            x as int,
                            y as int,
                        ) < data.len(),
                    ensures
                        v == data@[mask_source(
                            *mw as int,
                            *mh as int,
                            w as int,
                            h as int,
                            x as int,
                            y as int,
                        )],
                    {
                        let sx: usize = resampled_at(x, own_w, w);
                        assert(0 <= sy * own_w) by (nonlinear_arith)
                            requires
                                0 <= sy,
                                0 <= own_w,
                        ;
                        data[sy * own_w + sx]
                    };
                let ghost before = mask@;
                push_row(&mut mask, w, h, y, f);
                assert forall|a: int, b: int| 0 <= a < w && 0 <= b < y + 1 implies mask@[
                    #[trigger] cell(w as int, a, b)
                ] == data@[mask_source(
                    *mw as int,
                    *mh as int,
                    w as int,
                    h as int,
                    a,
                    b,
                )] by {
                    if b < y {
                        lemma_cell(w as int, y as int, a, b);
                        assert(w * y == cell(w as int, 0, y as int)) by (nonlinear_arith);
                        assert(mask@[cell(w as int, a, b)] == before[cell(w as int, a, b)]);
                    } else {
                        assert(f.ensures((a as usize,), mask@[cell(w as int, a, y as int)]));
                    }
                }
                y = y + 1;
            }
        },
    }
    assert(cell(w as int, 0, h as int) == w * h) by {
        assert(h * w == w * h) by (nonlinear_arith);
    }
    mask
}

} // verus!
