//! What turning, cutting, moving and filling pictures promise, told byte by byte.
use crate::moving::{layer_moved, moved_area, shape_moved};
use crate::number::Real;
use crate::pixels::{
    cell, cut_pixel, cut_size, cut_start, lemma_cell, moved_pixel, painted, pixel, quarter_pixel,
    turned_pixel, woven, zeros, LayerTransform, Pixel,
};
use crate::retouch::{
    after_fill, after_move, after_warp, held_to_mask, reached, rest, rest_after_warp, Area, Edges,
};
use crate::selection::{
    bounded, crossings, found, mask_source, polygon_row, rising, row_spans, spanned, SelectionShape,
};
use crate::selection_bounds::{
    around, column_marked, marked, mask_moved, row_marked, scissored, selected_area, shape_edges,
    surrounds, tight, within, MaskBox,
};
use vstd::prelude::*;

verus! {

/// Whether the cell in column `x` of row `y` of a picture `w` wide has the four bytes that the one
/// in column `i` of row `j` of another has, which is `v` wide.
pub open spec fn same_cell(
    r: Seq<u8>,
    w: int,
    x: int,
    y: int,
    s: Seq<u8>,
    v: int,
    i: int,
    j: int,
) -> bool {
    &&& r[4 * (y * w + x)] == s[4 * (j * v + i)]
    &&& r[4 * (y * w + x) + 1] == s[4 * (j * v + i) + 1]
    &&& r[4 * (y * w + x) + 2] == s[4 * (j * v + i) + 2]
    &&& r[4 * (y * w + x) + 3] == s[4 * (j * v + i) + 3]
}

/// Whether the cell in column `x` of row `y` of a picture `w` wide is clear.
pub open spec fn clear_cell(r: Seq<u8>, w: int, x: int, y: int) -> bool {
    &&& r[4 * (y * w + x)] == 0
    &&& r[4 * (y * w + x) + 1] == 0
    &&& r[4 * (y * w + x) + 2] == 0
    &&& r[4 * (y * w + x) + 3] == 0
}

/// Whether the cell in column `x` of row `y` of a picture of `w` by `h` cells is in it.
pub open spec fn inside(w: int, h: int, x: int, y: int) -> bool {
    0 <= x < w && 0 <= y < h
}

/// A cell goes across a layer that is flipped sideways, down one that is flipped over, and both ways
/// in one that is turned by a half.
pub proof fn cells_go_across(
    src: Seq<u8>,
    r: Seq<u8>,
    op: LayerTransform,
    w: int,
    h: int,
    tail: Seq<u8>,
    x: int,
    y: int,
)
    requires
        painted(r, w, h, tail, turned_pixel(src, op, w, h)),
        inside(w, h, x, y),
    ensures
        op == LayerTransform::FlipH ==> same_cell(r, w, w - 1 - x, y, src, w, x, y),
        op == LayerTransform::FlipV ==> same_cell(r, w, x, h - 1 - y, src, w, x, y),
        op == LayerTransform::Rotate180 ==> same_cell(
            r,
            w,
            w - 1 - x,
            h - 1 - y,
            src,
            w,
            x,
            y,
        ),
{
    let f = turned_pixel(src, op, w, h);
    assert(pixel(r, cell(w, w - 1 - x, y)) == f(w - 1 - x, y));
    assert(pixel(r, cell(w, x, h - 1 - y)) == f(x, h - 1 - y));
    assert(pixel(r, cell(w, w - 1 - x, h - 1 - y)) == f(w - 1 - x, h - 1 - y));
}

/// Turned clockwise, the left column of a picture becomes its top row, from right to left; turned
/// against the clock, its top row becomes the left column, from the bottom up. The turned picture is
/// as wide as it was high.
pub proof fn cells_go_around(
    src: Seq<u8>,
    r: Seq<u8>,
    cw: bool,
    w: int,
    h: int,
    tail: Seq<u8>,
    x: int,
    y: int,
)
    requires
        painted(r, h, w, tail, quarter_pixel(src, cw, w, h)),
        inside(w, h, x, y),
    ensures
        cw ==> same_cell(r, h, h - 1 - y, x, src, w, x, y),
        !cw ==> same_cell(r, h, y, w - 1 - x, src, w, x, y),
{
    let f = quarter_pixel(src, cw, w, h);
    if cw {
        assert(pixel(r, cell(h, h - 1 - y, x)) == f(h - 1 - y, x));
    } else {
        assert(pixel(r, cell(h, y, w - 1 - x)) == f(y, w - 1 - x));
    }
}

/// What is cut out of a picture has its cells, from where the cut begins, as far as it goes: no
/// further than it was asked for, and no further than the picture.
pub proof fn cuts_keep_their_cells(
    src: Seq<u8>,
    r: Seq<u8>,
    w: int,
    h: int,
    x0: int,
    y0: int,
    want_w: int,
    want_h: int,
    x: int,
    y: int,
)
    requires
        0 <= x0 < w,
        0 <= y0 < h,
        1 <= want_w,
        1 <= want_h,
        painted(
            r,
            cut_size(w, x0, want_w),
            cut_size(h, y0, want_h),
            Seq::empty(),
            cut_pixel(src, w, cut_start(w, x0), cut_start(h, y0)),
        ),
    ensures
        ({
            let cut_w = if want_w < w - x0 { want_w } else { w - x0 };
            let cut_h = if want_h < h - y0 { want_h } else { h - y0 };
            &&& r.len() == 4 * (cut_w * cut_h)
            &&& inside(cut_w, cut_h, x, y) ==> same_cell(r, cut_w, x, y, src, w, x0 + x, y0 + y)
        }),
{
    let cut_w = if want_w < w - x0 { want_w } else { w - x0 };
    let cut_h = if want_h < h - y0 { want_h } else { h - y0 };
    let f = cut_pixel(src, w, x0, y0);
    if inside(cut_w, cut_h, x, y) {
        assert(pixel(r, cell(cut_w, x, y)) == f(x, y));
    }
}

/// A moved layer has each of its cells as far along as it was moved, as far as that is still in the
/// picture, and is clear wherever no cell comes to.
pub proof fn moved_cells_arrive(
    src: Seq<u8>,
    r: Seq<u8>,
    w: int,
    h: int,
    tail: Seq<u8>,
    dx: int,
    dy: int,
    x: int,
    y: int,
)
    requires
        painted(r, w, h, tail, moved_pixel(src, w, h, dx, dy)),
        inside(w, h, x, y),
    ensures
        inside(w, h, x + dx, y + dy) ==> same_cell(r, w, x + dx, y + dy, src, w, x, y),
        !inside(w, h, x - dx, y - dy) ==> clear_cell(r, w, x, y),
{
    let f = moved_pixel(src, w, h, dx, dy);
    if inside(w, h, x + dx, y + dy) {
        assert(pixel(r, cell(w, x + dx, y + dy)) == f(x + dx, y + dy));
    }
    if !inside(w, h, x - dx, y - dy) {
        assert(pixel(r, cell(w, x, y)) == f(x, y));
    }
}

/// Whether column `x` of row `y` lies in a rectangle.
pub open spec fn in_area(a: Area, x: int, y: int) -> bool {
    a.x <= x < a.x + a.w && a.y <= y < a.y + a.h
}

/// How much of a cell a mask has: all of it where there is no mask.
pub open spec fn share_of(mask: Option<Seq<u8>>, w: int, x: int, y: int) -> u8 {
    match mask {
        Some(m) => m[y * w + x],
        None => 255,
    }
}

/// When a selection is moved, a cell that is selected whole and opaque arrives as it was. A selected
/// cell to which nothing comes is left clear. A cell that is not selected, and to which nothing
/// selected comes, stays as it was.
pub proof fn selected_cells_move<B: Fn(Pixel, Pixel, u8) -> Pixel>(
    src: Seq<u8>,
    r: Seq<u8>,
    w: int,
    h: int,
    area: Area,
    mask: Option<Seq<u8>>,
    dx: int,
    dy: int,
    blend: &B,
    x: int,
    y: int,
)
    requires
        woven(r, w, h, rest(src, w, h), after_move(src, w, h, area, mask, dx, dy, blend)),
        inside(w, h, x, y),
    ensures
        in_area(area, x, y) && share_of(mask, w, x, y) == 255 && src[4 * (y * w + x) + 3] == 255
            && inside(w, h, x + dx, y + dy) ==> same_cell(r, w, x + dx, y + dy, src, w, x, y),
        ({
            let (i, j) = (x - dx, y - dy);
            let comes = inside(w, h, i, j) && in_area(area, i, j) && share_of(mask, w, i, j) > 0
                && src[4 * (j * w + i) + 3] > 0;
            let goes = in_area(area, x, y) && share_of(mask, w, x, y) > 0;
            &&& !comes && goes ==> clear_cell(r, w, x, y)
            &&& !comes && !goes ==> same_cell(r, w, x, y, src, w, x, y)
        }),
{
    let ok = after_move(src, w, h, area, mask, dx, dy, blend);
    assert(ok(x, y, pixel(r, cell(w, x, y))));
    if inside(w, h, x + dx, y + dy) {
        assert(ok(x + dx, y + dy, pixel(r, cell(w, x + dx, y + dy))));
    }
}

/// When what is selected is warped, a cell outside of the window, and one that nothing comes to, keeps
/// its color. It keeps all of itself where it is not selected. Where a cell that is selected whole and
/// opaque comes to, it is as that one was. A warp of the whole picture leaves nothing behind.
pub proof fn warped_cells_come_from_their_source<
    S: Fn(usize, usize) -> Option<(usize, usize)>,
    F: Fn(u8, u8) -> u8,
    B: Fn(Pixel, Pixel, u8) -> Pixel,
>(
    src: Seq<u8>,
    r: Seq<u8>,
    w: int,
    h: int,
    region: Option<Area>,
    window: Area,
    mask: Option<Seq<u8>>,
    source: &S,
    fade: &F,
    blend: &B,
    x: int,
    y: int,
    i: usize,
    j: usize,
)
    requires
        w <= usize::MAX,
        h <= usize::MAX,
        woven(
            r,
            w,
            h,
            rest_after_warp(src, w, h, region),
            after_warp(src, w, h, region, window, mask, source, fade, blend),
        ),
        inside(w, h, x, y),
    ensures
        ({
            let lies_in = region matches Some(a) ==> in_area(a, i as int, j as int);
            let sent = forall|s: Option<(usize, usize)>| #[trigger]
                (*source).ensures((x as usize, y as usize), s) ==> s == Some((i, j));
            let unsent = forall|s: Option<(usize, usize)>| #[trigger]
                (*source).ensures((x as usize, y as usize), s) ==> s is None;
            let selected = region matches Some(a) ==> in_area(a, x, y) && share_of(mask, w, x, y)
                > 0;
            &&& in_area(window, x, y) && sent && inside(w, h, i as int, j as int) && lies_in
                && share_of(mask, w, i as int, j as int) == 255 && src[4 * (j * w + i) + 3] == 255
                ==> same_cell(r, w, x, y, src, w, i as int, j as int)
            &&& (!in_area(window, x, y) || unsent) && !selected ==> same_cell(
                r,
                w,
                x,
                y,
                src,
                w,
                x,
                y,
            )
            &&& (!in_area(window, x, y) || unsent) && region is None ==> clear_cell(r, w, x, y)
            &&& (!in_area(window, x, y) || unsent) && region is Some && selected ==> {
                let at = 4 * (y * w + x);
                &&& r[at] == src[at] && r[at + 1] == src[at + 1] && r[at + 2] == src[at + 2]
                &&& (*fade).ensures((src[at + 3], share_of(mask, w, x, y)), r[at + 3])
            }
        }),
{
    let ok = after_warp(src, w, h, region, window, mask, source, fade, blend);
    assert(ok(x, y, pixel(r, cell(w, x, y))));
}

/// A fill changes no cell outside of what it reaches, and where its shade gives nothing for a cell
/// it stays as well. Where the shade always gives the same color the cell gets it.
pub proof fn fills_stay_in_reach<S: Fn(usize, usize, u8, Pixel) -> Option<Pixel>>(
    src: Seq<u8>,
    r: Seq<u8>,
    w: int,
    h: int,
    area: Area,
    mask: Option<Seq<u8>>,
    shade: &S,
    x: int,
    y: int,
    color: Pixel,
)
    requires
        w <= usize::MAX,
        h <= usize::MAX,
        woven(r, w, h, rest(src, w, h), after_fill(src, w, h, area, mask, shade)),
        inside(w, h, x, y),
    ensures
        ({
            let at = 4 * (y * w + x);
            let own = Pixel { r: src[at], g: src[at + 1], b: src[at + 2], a: src[at + 3] };
            let args = (x as usize, y as usize, share_of(mask, w, x, y), own);
            let nothing = forall|p: Option<Pixel>| #[trigger] (*shade).ensures(args, p) ==> p is None;
            let always = forall|p: Option<Pixel>| #[trigger]
                (*shade).ensures(args, p) ==> p == Some(color);
            &&& !in_area(area, x, y) || nothing ==> same_cell(r, w, x, y, src, w, x, y)
            &&& in_area(area, x, y) && always ==> r[at] == color.r && r[at + 1] == color.g && r[at
                + 2] == color.b && r[at + 3] == color.a
        }),
{
    let ok = after_fill(src, w, h, area, mask, shade);
    assert(ok(x, y, pixel(r, cell(w, x, y))));
}

/// A fill reaches what is between the edges of a selection that is wider and higher than nothing, and
/// else everything.
pub proof fn fills_reach_the_selection<
    L: Fn(Real, usize) -> usize,
    H: Fn(Real, usize) -> usize,
>(selection: Option<Edges>, w: usize, h: usize, first: &L, past: &H, r: Area)
    requires
        reached(selection, w, h, first, past, r),
    ensures
        selection is None ==> r == (Area { x: 0, y: 0, w, h }),
        selection matches Some(e) ==> {
            let open = e.x0.less(e.x1) && e.y0.less(e.y1);
            &&& !open ==> r == (Area { x: 0, y: 0, w, h })
            &&& open ==> (*first).ensures((e.x0, w), r.x) && (*first).ensures((e.y0, h), r.y)
            &&& open ==> exists|x1: usize, y1: usize|
                {
                    &&& #[trigger] (*past).ensures((e.x1, w), x1)
                    &&& #[trigger] (*past).ensures((e.y1, h), y1)
                    &&& forall|x: int, y: int|
                        r.x <= x && r.y <= y ==> (#[trigger] in_area(r, x, y) <==> x < x1 && y < y1)
                }
        },
{
    if let Some(e) = selection {
        if e.wide() {
            let (x1, y1) = choose|x1: usize, y1: usize|
                {
                    &&& (*first).ensures((e.x0, w), r.x)
                    &&& (*first).ensures((e.y0, h), r.y)
                    &&& #[trigger] (*past).ensures((e.x1, w), x1)
                    &&& #[trigger] (*past).ensures((e.y1, h), y1)
                    &&& r.w == crate::retouch::run(r.x as int, x1 as int)
                    &&& r.h == crate::retouch::run(r.y as int, y1 as int)
                };
            assert forall|x: int, y: int| r.x <= x && r.y <= y implies (#[trigger] in_area(r, x, y)
                <==> x < x1 && y < y1) by {}
        }
    }
}

/// Of a stroke that is held to a mask nothing stays where the mask has nothing, and all of it where
/// the mask has all.
pub proof fn masks_keep_strokes_inside<M: Fn(Pixel, Pixel, u8) -> Pixel>(
    before: Seq<u8>,
    after: Seq<u8>,
    r: Seq<u8>,
    w: int,
    h: int,
    mask: Seq<u8>,
    mix: &M,
    x: int,
    y: int,
)
    requires
        woven(r, w, h, rest(after, w, h), held_to_mask(before, after, w, mask, mix)),
        inside(w, h, x, y),
    ensures
        mask[y * w + x] == 0 ==> same_cell(r, w, x, y, before, w, x, y),
        mask[y * w + x] == 255 ==> same_cell(r, w, x, y, after, w, x, y),
{
    let ok = held_to_mask(before, after, w, mask, mix);
    assert(ok(x, y, pixel(r, cell(w, x, y))));
}

/// A moved area lies as far along, as much of it as is still in the picture.
pub proof fn moved_areas_stay_in_the_picture(
    a: Area,
    w: int,
    h: int,
    dx: int,
    dy: int,
    x: int,
    y: int,
)
    requires
        0 <= w,
        0 <= h,
        inside(w, h, x, y),
    ensures
        ({
            let (x0, y0, x1, y1) = moved_area(a, w, h, dx, dy);
            &&& 0 <= x0 <= w && 0 <= x1 <= w && 0 <= y0 <= h && 0 <= y1 <= h
            &&& (x0 <= x < x1 && y0 <= y < y1) <==> in_area(a, x - dx, y - dy)
        }),
{
}

/// A mask that is moved selects each cell as far along as it was moved, and nothing where nothing
/// comes to.
pub proof fn moved_masks_select_further_on(
    m: Seq<u8>,
    r: Seq<u8>,
    w: int,
    h: int,
    dx: int,
    dy: int,
    x: int,
    y: int,
)
    requires
        mask_moved(m, r, w, h, dx, dy),
        inside(w, h, x, y),
    ensures
        inside(w, h, x + dx, y + dy) ==> r[(y + dy) * w + (x + dx)] == m[y * w + x],
        !inside(w, h, x - dx, y - dy) ==> r[y * w + x] == 0,
{
    if inside(w, h, x + dx, y + dy) {
        assert(r[cell(w, x + dx, y + dy)] == m[cell(w, x, y)]);
    }
    if !inside(w, h, x - dx, y - dy) {
        assert(r[cell(w, x, y)] == 0);
    }
}

/// Whether `xs` are the places where the sides of a polygon cross row `y`, in order from left to
/// right. Its last point is joined to its first.
pub open spec fn crosses_row<C: Fn(usize, (Real, Real), (Real, Real)) -> Option<Real>>(
    points: Seq<(Real, Real)>,
    y: int,
    cross: &C,
    outs: Seq<Option<Real>>,
    xs: Seq<Real>,
) -> bool {
    &&& outs.len() == points.len()
    &&& forall|i: int|
        0 <= i < points.len() - 1 ==> (*cross).ensures(
            (y as usize, points[i], points[i + 1]),
            #[trigger] outs[i],
        )
    &&& (*cross).ensures((y as usize, points[points.len() - 1], points[0]), outs[points.len() - 1])
    &&& forall|i: int, j: int| 0 <= i <= j < xs.len() ==> !(#[trigger] xs[j]).less(#[trigger] xs[i])
    &&& forall|v: Real| #[trigger]
        xs.contains(v) <==> exists|i: int| 0 <= i < outs.len() && #[trigger] outs[i] == Some(v)
}

proof fn lemma_found(outs: Seq<Option<Real>>, v: Real)
    ensures
        found(outs).contains(v) <==> exists|i: int| 0 <= i < outs.len() && #[trigger] outs[i] == Some(
            v,
        ),
    decreases outs.len(),
{
    if outs.len() > 0 {
        let front = outs.drop_last();
        let last = outs.len() - 1;
        lemma_found(front, v);
        let less = found(front);
        let all = found(outs);
        if less.contains(v) {
            let i = less.index_of(v);
            assert(all[i] == v);
            let k = choose|k: int| 0 <= k < front.len() && #[trigger] front[k] == Some(v);
            assert(outs[k] == Some(v));
        }
        if outs[last] == Some(v) {
            assert(all[all.len() - 1] == v);
        }
        if all.contains(v) {
            let i = all.index_of(v);
            if i < less.len() {
                assert(less[i] == v);
            } else {
                assert(outs[last] == Some(v));
            }
        }
        if exists|i: int| 0 <= i < outs.len() && #[trigger] outs[i] == Some(v) {
            let i = choose|i: int| 0 <= i < outs.len() && #[trigger] outs[i] == Some(v);
            if i < last {
                assert(front[i] == Some(v));
            }
        }
    }
}

/// A row of the mask of a polygon is selected between the first and the second place where sides
/// cross it, between the third and the fourth, and so on, and nowhere else.
pub proof fn polygons_are_filled_between_crossings<
    C: Fn(usize, (Real, Real), (Real, Real)) -> Option<Real>,
    L: Fn(Real) -> usize,
    R: Fn(Real) -> usize,
>(
    points: Seq<(Real, Real)>,
    w: int,
    y: int,
    cross: &C,
    left: &L,
    right: &R,
    mask: Seq<u8>,
)
    requires
        points.len() >= 3,
        polygon_row(points, w, y, cross, left, right, mask),
    ensures
        exists|outs: Seq<Option<Real>>, xs: Seq<Real>, spans: Seq<(usize, usize)>|
            {
                &&& #[trigger] crosses_row(points, y, cross, outs, xs)
                &&& #[trigger] pairs_up(xs, left, right, spans)
                &&& forall|x: int|
                    0 <= x < w ==> (#[trigger] mask[y * w + x] == 255u8 || mask[y * w + x] == 0u8)
                        && (mask[y * w + x] == 255u8 <==> exists|k: int|
                        0 <= k < spans.len() && (#[trigger] spans[k]).0 <= x < spans[k].1)
            },
{
    let spans = choose|spans: Seq<(usize, usize)>|
        #[trigger] row_spans(points, y, cross, left, right, spans) && crate::selection::row_is(
            mask,
            w,
            y,
            spans,
        );
    let (outs, xs) = choose|outs: Seq<Option<Real>>, xs: Seq<Real>|
        {
            &&& #[trigger] crossings(points, y, cross, outs)
            &&& rising(xs)
            &&& xs.to_multiset() == found(outs).to_multiset()
            &&& #[trigger] bounded(xs, left, right, spans)
        };
    assert forall|v: Real| #[trigger] xs.contains(v) <==> exists|i: int|
        0 <= i < outs.len() && #[trigger] outs[i] == Some(v) by {
        lemma_found(outs, v);
        vstd::seq_lib::to_multiset_contains(xs, v);
        vstd::seq_lib::to_multiset_contains(found(outs), v);
    }
    assert forall|i: int| 0 <= i < points.len() - 1 implies (*cross).ensures(
        (y as usize, points[i], points[i + 1]),
        #[trigger] outs[i],
    ) by {}
    let last = points.len() - 1;
    assert((*cross).ensures((y as usize, points[last], points[0]), outs[last]));
    assert(crosses_row(points, y, cross, outs, xs));
    assert(pairs_up(xs, left, right, spans));
    assert forall|x: int| 0 <= x < w implies (#[trigger] mask[y * w + x] == 255u8 || mask[y * w + x]
        == 0u8) && (mask[y * w + x] == 255u8 <==> exists|k: int|
        0 <= k < spans.len() && (#[trigger] spans[k]).0 <= x < spans[k].1) by {
        assert(mask[cell(w, x, y)] == (if spanned(spans, x) {
            255u8
        } else {
            0u8
        }));
    }
}

/// Whether runs of cells go from one place to the next, two by two.
pub open spec fn pairs_up<L: Fn(Real) -> usize, R: Fn(Real) -> usize>(
    xs: Seq<Real>,
    left: &L,
    right: &R,
    spans: Seq<(usize, usize)>,
) -> bool {
    &&& 2 * spans.len() <= xs.len() <= 2 * spans.len() + 1
    &&& forall|k: int|
        0 <= k < spans.len() ==> (*left).ensures((xs[k + k],), (#[trigger] spans[k]).0)
            && (*right).ensures((xs[k + k + 1],), spans[k].1)
}

/// A mask in a picture of another size is read at even steps: each cell reads the one that begins no
/// later than it does, as the sizes go. In a picture of its own size each cell reads itself.
pub proof fn masks_are_read_at_even_steps(
    mw: int,
    mh: int,
    w: int,
    h: int,
    x: int,
    y: int,
    i: int,
    j: int,
)
    requires
        0 < mw,
        0 < mh,
        inside(w, h, x, y),
        i * w <= x * mw < (i + 1) * w,
        j * h <= y * mh < (j + 1) * h,
    ensures
        inside(mw, mh, i, j),
        mask_source(mw, mh, w, h, x, y) == j * mw + i,
        w == mw ==> i == x,
        h == mh ==> j == y,
{
    crate::shape_laws::lemma_even_step(mw, w, x, i);
    crate::shape_laws::lemma_even_step(mh, h, y, j);
}

/// No point of a polygon lies outside of the edges around it, as far as they are in the picture, and
/// each edge lies at the side of the picture or at a point.
pub proof fn edges_lie_around_their_points(points: Seq<(Real, Real)>, n: int, k: int)
    requires
        0 <= k < n <= points.len(),
        forall|i: int| 0 <= i < n ==> !(#[trigger] points[i]).0.nan() && !points[i].1.nan(),
    ensures
        ({
            let e = within(around(points, n));
            let (lo, hi) = (Real { bits: 0 }, Real { bits: 0x3f80_0000 });
            let (x, y) = points[k];
            &&& !x.less(lo) && !hi.less(x) ==> !x.less(e.x0) && !e.x1.less(x)
            &&& !y.less(lo) && !hi.less(y) ==> !y.less(e.y0) && !e.y1.less(y)
            &&& !e.x0.less(lo) && !e.y0.less(lo) && !hi.less(e.x1) && !hi.less(e.y1)
        }),
{
    lemma_around(points, n, k);
}

proof fn lemma_around(points: Seq<(Real, Real)>, n: int, k: int)
    requires
        0 <= n <= points.len(),
        k < n,
        forall|i: int| 0 <= i < n ==> !(#[trigger] points[i]).0.nan() && !points[i].1.nan(),
    ensures
        ({
            let e = around(points, n);
            &&& !e.x0.nan() && !e.y0.nan() && !e.x1.nan() && !e.y1.nan()
            &&& 0 <= k ==> {
                &&& !points[k].0.less(e.x0) && !e.x1.less(points[k].0)
                &&& !points[k].1.less(e.y0) && !e.y1.less(points[k].1)
            }
        }),
    decreases n,
{
    if n > 0 {
        assert(!points[n - 1].0.nan());
        lemma_around(points, n - 1, if k < n - 1 { k } else { -1 });
    }
}

/// Painting is confined by a selection unless it is shut: from the cell that its near edges are in up
/// to the first past its far ones, and to one cell at least.
pub proof fn scissors_hold_the_selection<F: Fn(Real, u32) -> u32, C: Fn(Real, u32) -> u32>(
    selection: Option<Edges>,
    width: u32,
    height: u32,
    floor: &F,
    ceil: &C,
    r: Option<(u32, u32, u32, u32)>,
)
    requires
        scissored(selection, width, height, floor, ceil, r),
    ensures
        selection is None ==> r is None,
        selection matches Some(e) ==> (r is None <==> (e.x1.at_most(e.x0) || e.y1.at_most(e.y0))),
        r matches Some((x, y, w, h)) ==> {
            let e = selection->0;
            &&& (*floor).ensures((e.x0, width), x) && (*floor).ensures((e.y0, height), y)
            &&& w >= 1 && h >= 1
            &&& exists|x1: u32, y1: u32|
                {
                    &&& #[trigger] (*ceil).ensures((e.x1, width), x1)
                    &&& #[trigger] (*ceil).ensures((e.y1, height), y1)
                    &&& x1 > x ==> x + w == x1
                    &&& y1 > y ==> y + h == y1
                    &&& x1 <= x ==> w == 1
                    &&& y1 <= y ==> h == 1
                }
        },
{
}

/// The cells of a selection begin in the picture: where its near edges are, or at the last cell. They
/// go up to the first past its far edges, and there is at least one each way.
pub proof fn selected_areas_hold_the_selection<
    F: Fn(Real, usize) -> usize,
    C: Fn(Real, usize) -> usize,
>(
    selection: Option<Edges>,
    width: usize,
    height: usize,
    floor: &F,
    ceil: &C,
    r: Option<Area>,
)
    requires
        0 < width,
        0 < height,
        selected_area(selection, width, height, floor, ceil, r),
    ensures
        selection is None ==> r is None,
        selection matches Some(e) ==> (r is None <==> (e.x1.at_most(e.x0) || e.y1.at_most(e.y0))),
        r matches Some(a) ==> {
            let e = selection->0;
            &&& a.x < width && a.y < height && a.w >= 1 && a.h >= 1
            &&& exists|x: usize, y: usize, x1: usize, y1: usize|
                {
                    &&& #[trigger] (*floor).ensures((e.x0, width), x)
                    &&& #[trigger] (*floor).ensures((e.y0, height), y)
                    &&& #[trigger] (*ceil).ensures((e.x1, width), x1)
                    &&& #[trigger] (*ceil).ensures((e.y1, height), y1)
                    &&& x < width ==> a.x == x
                    &&& x >= width ==> a.x == width - 1
                    &&& y < height ==> a.y == y
                    &&& y >= height ==> a.y == height - 1
                    &&& x1 > a.x ==> a.x + a.w == x1
                    &&& y1 > a.y ==> a.y + a.h == y1
                }
        },
{
}

/// Whether some cell of a column of a mask is selected.
pub open spec fn selects_in_column(data: Seq<u8>, w: int, h: int, x: int) -> bool {
    exists|y: int| 0 <= y < h && 0 <= x < w && data[#[trigger] cell(w, x, y)] > 0
}

/// Whether some cell of a row of a mask is selected.
pub open spec fn selects_in_row(data: Seq<u8>, w: int, h: int, y: int) -> bool {
    exists|x: int| 0 <= x < w && 0 <= y < h && data[#[trigger] cell(w, x, y)] > 0
}

/// Whether the cells from column `x0` to `x1` of the rows from `y0` to `y1`, the last not counted,
/// are the fewest that hold the selection of a mask.
pub open spec fn is_frame(
    data: Seq<u8>,
    w: int,
    h: int,
    x0: usize,
    y0: usize,
    x1: usize,
    y1: usize,
) -> bool {
    &&& forall|x: int, y: int|
        0 <= x < w && 0 <= y < h && data[#[trigger] cell(w, x, y)] > 0 ==> x0 <= x < x1 && y0 <= y
            < y1
    &&& selects_in_column(data, w, h, x0 as int)
    &&& selects_in_column(data, w, h, x1 - 1)
    &&& selects_in_row(data, w, h, y0 as int)
    &&& selects_in_row(data, w, h, y1 - 1)
}

/// The edges of a selection by a mask are those of the fewest columns and rows that hold it, as
/// shares of the mask's own width and height; and where nothing is selected, nothing.
pub proof fn masks_are_framed<E: Fn(Real, Real, Real, Real) -> Edges, S: Fn(usize, u32) -> Real>(
    shape: &SelectionShape,
    ellipse: &E,
    share: &S,
    e: Edges,
)
    requires
        shape_edges(shape, ellipse, share, e),
    ensures
        shape matches SelectionShape::Mask { width, height, data } ==> ({
            let (w, h) = (*width as int, *height as int);
            ||| e.x0.bits == 0 && e.y0.bits == 0 && e.x1.bits == 0 && e.y1.bits == 0 && (forall|
                x: int,
                y: int,
            |
                0 <= x < w && 0 <= y < h ==> data@[#[trigger] cell(w, x, y)] == 0)
            ||| exists|x0: usize, y0: usize, x1: usize, y1: usize|
                #[trigger] is_frame(data@, w, h, x0, y0, x1, y1) && (*share).ensures(
                    (x0, *width),
                    e.x0,
                ) && (*share).ensures((y0, *height), e.y0) && (*share).ensures(
                    (x1, *width),
                    e.x1,
                ) && (*share).ensures((y1, *height), e.y1)
        }),
{
    if let SelectionShape::Mask { width, height, data } = shape {
        let (w, h) = (*width as int, *height as int);
        let d = data@;
        assert forall|x: int, y: int| 0 <= x < w && 0 <= y < h implies (data@[#[trigger] cell(
            w,
            x,
            y,
        )] > 0) == marked(d, w, h, x, y) by {}
        if exists|x: int, y: int| #[trigger] marked(d, w, h, x, y) {
            let b = choose|b: MaskBox|
                {
                    &&& #[trigger] surrounds(b, d, w, h, w * h)
                    &&& tight(b, d, w, h)
                    &&& (*share).ensures((b.x0, *width), e.x0)
                    &&& (*share).ensures((b.y0, *height), e.y0)
                    &&& (*share).ensures((b.x1, *width), e.x1)
                    &&& (*share).ensures((b.y1, *height), e.y1)
                };
            assert forall|x: int, y: int|
                0 <= x < w && 0 <= y < h && d[#[trigger] cell(w, x, y)] > 0 implies b.x0 <= x < b.x1
                && b.y0 <= y < b.y1 by {
                lemma_cell(w, h, x, y);
                assert(marked(d, w, h, x, y));
            }
            lemma_marked_column(d, w, h, b.x0 as int);
            lemma_marked_column(d, w, h, b.x1 - 1);
            lemma_marked_row(d, w, h, b.y0 as int);
            lemma_marked_row(d, w, h, b.y1 - 1);
            assert(is_frame(d, w, h, b.x0, b.y0, b.x1, b.y1));
        }
    }
}

proof fn lemma_marked_column(d: Seq<u8>, w: int, h: int, x: int)
    requires
        column_marked(d, w, h, x),
    ensures
        selects_in_column(d, w, h, x),
{
    let y = choose|y: int| #[trigger] marked(d, w, h, x, y);
    assert(d[cell(w, x, y)] > 0);
}

proof fn lemma_marked_row(d: Seq<u8>, w: int, h: int, y: int)
    requires
        row_marked(d, w, h, y),
    ensures
        selects_in_row(d, w, h, y),
{
    let x = choose|x: int| #[trigger] marked(d, w, h, x, y);
    assert(d[cell(w, x, y)] > 0);
}

/// Moving a selection keeps its kind and its size. An ellipse keeps its radii, and its middle goes
/// across and down; of a polygon each corner does; and a mask is moved by whole cells.
pub proof fn moved_shapes_keep_their_size<X: Fn(Real) -> Real, Y: Fn(Real) -> Real>(
    before: SelectionShape,
    after: SelectionShape,
    dx: int,
    dy: int,
    across: &X,
    down: &Y,
    i: int,
)
    requires
        shape_moved(before, after, dx, dy, across, down),
    ensures
        before matches SelectionShape::Ellipse { cx, cy, rx, ry } ==> (after matches SelectionShape::Ellipse {
            cx: mx,
            cy: my,
            rx: sx,
            ry: sy,
        } && sx == rx && sy == ry && (*across).ensures((cx,), mx) && (*down).ensures((cy,), my)),
        before matches SelectionShape::Polygon(a) ==> (after matches SelectionShape::Polygon(b)
            && b@.len() == a@.len() && (0 <= i < a@.len() ==> (*across).ensures(
            (a@[i].0,),
            b@[i].0,
        ) && (*down).ensures((a@[i].1,), b@[i].1))),
        before matches SelectionShape::Mask { width, height, data } ==> (after matches SelectionShape::Mask {
            width: mw,
            height: mh,
            data: moved,
        } && mw == width && mh == height && moved@.len() == data@.len()),
{
}

/// A cut is as large as it was asked for, but no larger than the picture has room for, and one cell
/// at least.
pub proof fn cuts_fit_the_picture(size: int, at: int, want: int)
    requires
        0 <= size,
        0 <= at,
    ensures
        cut_size(size, at, want) >= 1,
        1 <= want && at + want <= size ==> cut_size(size, at, want) == want && cut_start(size, at)
            == at,
        at < size && want > size - at ==> cut_size(size, at, want) == size - at,
        cut_start(size, at) <= size,
        cut_size(size, at, want) > 1 ==> cut_start(size, at) + cut_size(size, at, want) <= size,
{
}

/// A cell that a mask selects in part is mixed from what it was and what it would be, by as much as
/// it is selected.
pub proof fn part_selected_cells_are_mixed<M: Fn(Pixel, Pixel, u8) -> Pixel>(
    before: Seq<u8>,
    after: Seq<u8>,
    r: Seq<u8>,
    w: int,
    h: int,
    tail: Seq<u8>,
    mask: Seq<u8>,
    mix: &M,
    x: int,
    y: int,
)
    requires
        woven(r, w, h, tail, held_to_mask(before, after, w, mask, mix)),
        0 <= x < w,
        0 <= y < h,
        0 < mask[y * w + x] < 255,
    ensures
        ({
            let i = y * w + x;
            (*mix).ensures(
                (
                    Pixel {
                        r: before[4 * i],
                        g: before[4 * i + 1],
                        b: before[4 * i + 2],
                        a: before[4 * i + 3],
                    },
                    Pixel {
                        r: after[4 * i],
                        g: after[4 * i + 1],
                        b: after[4 * i + 2],
                        a: after[4 * i + 3],
                    },
                    mask[i],
                ),
                Pixel { r: r[4 * i], g: r[4 * i + 1], b: r[4 * i + 2], a: r[4 * i + 3] },
            )
        }),
{
    assert(cell(w, x, y) == y * w + x);
}

/// A layer without a selection moves whole: each cell that stays in the picture comes to lie `dx`
/// columns and `dy` rows further on, and where nothing comes nothing is left.
pub proof fn unselected_layers_move_whole<B: Fn(Pixel, Pixel, u8) -> Pixel>(
    src: Seq<u8>,
    w: int,
    h: int,
    dx: int,
    dy: int,
    mask: Option<Seq<u8>>,
    blend: &B,
    r: Seq<u8>,
    x: int,
    y: int,
)
    requires
        layer_moved(src, w, h, None, dx, dy, mask, blend, r),
        inside(w, h, x, y),
    ensures
        inside(w, h, x + dx, y + dy) ==> same_cell(r, w, x + dx, y + dy, src, w, x, y),
        !inside(w, h, x - dx, y - dy) ==> clear_cell(r, w, x, y),
{
    moved_cells_arrive(src, r, w, h, zeros(src.len() - 4 * (w * h)), dx, dy, x, y);
}

/// Of a layer with a selection only what is selected moves, and what the selection neither holds nor
/// comes to stays.
pub proof fn selected_parts_move<B: Fn(Pixel, Pixel, u8) -> Pixel>(
    src: Seq<u8>,
    w: int,
    h: int,
    area: Area,
    dx: int,
    dy: int,
    mask: Option<Seq<u8>>,
    blend: &B,
    r: Seq<u8>,
    x: int,
    y: int,
)
    requires
        layer_moved(src, w, h, Some(area), dx, dy, mask, blend, r),
        inside(w, h, x, y),
        !(area.x <= x < area.x + area.w && area.y <= y < area.y + area.h),
        !(area.x <= x - dx < area.x + area.w && area.y <= y - dy < area.y + area.h),
    ensures
        same_cell(r, w, x, y, src, w, x, y),
{
    let ok = after_move(src, w, h, area, mask, dx, dy, blend);
    assert(ok(x, y, pixel(r, cell(w, x, y))));
}

} // verus!
