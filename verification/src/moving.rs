//! The tools that act on what is selected of a layer: moving it with its selection, cropping to
//! it, and the mask that confines them.
use crate::feather::{feather_mask, feathered};
use crate::number::Real;
use crate::pixels::{cut_size, moved_pixel, painted, shift_pixels, woven, zeros, Pixel};
use crate::retouch::{after_move, mask_fits, masked, move_selection_pixels, rest, Area};
use crate::selection::{
    crosses_at_numbers, mask_readable, rasterize_selection_mask, shape_mask, SelectionShape,
};
use crate::selection_bounds::{mask_moved, shift_mask};
use vstd::prelude::*;

verus! {

/// Whether a mask can be that of a selection in a picture of a size: that of its shape with its
/// edge softened.
pub open spec fn softened<
    E: Fn(usize, usize, Real, Real, Real, Real) -> u8,
    C: Fn(usize, (Real, Real), (Real, Real)) -> Option<Real>,
    L: Fn(Real) -> usize,
    R: Fn(Real) -> usize,
>(
    shape: &SelectionShape,
    w: int,
    h: int,
    feather: int,
    cover: &E,
    cross: &C,
    left: &L,
    right: &R,
    mask: Seq<u8>,
) -> bool {
    exists|hard: Seq<u8>| #[trigger]
        shape_mask(shape, w, h, cover, cross, left, right, hard) && mask == feathered(
            hard,
            w,
            h,
            feather,
        )
}

/// Whether a mask of a shape has a byte for each cell that it says it has.
pub open spec fn shape_filled(shape: &SelectionShape) -> bool {
    shape matches SelectionShape::Mask { width, height, data } ==> *width * *height <= data@.len()
}

/// The mask of a selection that is not a rectangle, with its edge softened by `feather` cells; none
/// where there is no such selection.
pub fn current_selection_mask<
    E: Fn(usize, usize, Real, Real, Real, Real) -> u8,
    C: Fn(usize, (Real, Real), (Real, Real)) -> Option<Real>,
    L: Fn(Real) -> usize,
    R: Fn(Real) -> usize,
>(
    shape: Option<&SelectionShape>,
    w: usize,
    h: usize,
    feather: usize,
    cover: &E,
    cross: &C,
    left: &L,
    right: &R,
) -> (r: Option<Vec<u8>>)
    requires
        w * h <= usize::MAX,
        w > 0 && h > 0 ==> feather <= 0x7fff_ffff,
        shape matches Some(s) ==> shape_filled(s) && (
        s matches SelectionShape::Mask { width: mw, height: mh, data } ==> mask_readable(
            *mw as int,
            *mh as int,
            data@.len() as int,
            w as int,
            h as int,
        )),
        forall|x: usize, y: usize, a: Real, b: Real, c: Real, d: Real| #[trigger]
            (*cover).requires((x, y, a, b, c, d)),
        crosses_at_numbers(cross),
        forall|x: Real| #[trigger] (*left).requires((x,)),
        forall|x: Real| #[trigger] (*right).requires((x,)),
    ensures
        match r {
            Some(mask) => shape is Some && softened(
                shape->0,
                w as int,
                h as int,
                feather as int,
                cover,
                cross,
                left,
                right,
                mask@,
            ),
            None => shape is None,
        },
{
    match shape {
        None => None,
        Some(s) => {
            let hard = rasterize_selection_mask(w, h, s, cover, cross, left, right);
            assert(w * h <= hard@.len()) by {
                if let SelectionShape::Polygon(points) = s {
                    if points@.len() < 3 {
                        assert(zeros(w * h).len() == w * h) by {
                            assert(0 <= w * h) by (nonlinear_arith)
                                requires
                                    0 <= w,
                                    0 <= h,
                            ;
                        }
                    }
                }
            }
            let mask = feather_mask(hard.as_slice(), w, h, feather);
            Some(mask)
        },
    }
}

/// A place along an axis moved by `d`, held to a picture of `size` cells.
pub open spec fn slid(at: int, d: int, size: int) -> int {
    if at + d < 0 {
        0
    } else if at + d > size {
        size
    } else {
        at + d
    }
}

fn slide(at: usize, d: i32, size: usize) -> (r: usize)
    requires
        size <= i32::MAX,
    ensures
        r == slid(at as int, d as int, size as int),
{
    if d >= 0 {
        if at >= size || size - at < d as usize {
            size
        } else {
            at + d as usize
        }
    } else {
        let back: u64 = (-(d as i64)) as u64;
        if (at as u64) < back {
            0
        } else {
            let n: u64 = at as u64 - back;
            if n > size as u64 {
                size
            } else {
                n as usize
            }
        }
    }
}

/// Where the cells of an area come to when it is moved: the first column and row, and those past
/// the last, held to the picture.
pub open spec fn moved_area(a: Area, w: int, h: int, dx: int, dy: int) -> (int, int, int, int) {
    (
        slid(a.x as int, dx, w),
        slid(a.y as int, dy, h),
        slid(a.x + a.w, dx, w),
        slid(a.y + a.h, dy, h),
    )
}

/// Whether a layer can become another by being moved: what is selected of it, and without a
/// selection, all of it.
pub open spec fn layer_moved<B: Fn(Pixel, Pixel, u8) -> Pixel>(
    src: Seq<u8>,
    w: int,
    h: int,
    selection: Option<Area>,
    dx: int,
    dy: int,
    mask: Option<Seq<u8>>,
    blend: &B,
    r: Seq<u8>,
) -> bool {
    match selection {
        Some(area) => woven(
            r,
            w,
            h,
            rest(src, w, h),
            after_move(src, w, h, area, mask, dx, dy, blend),
        ),
        None => painted(r, w, h, zeros(src.len() - 4 * (w * h)), moved_pixel(src, w, h, dx, dy)),
    }
}

/// Moves what is selected of a layer, or all of it, and says where the selected cells then are, as
/// first column and row and those past the last.
pub fn move_active_layer<B: Fn(Pixel, Pixel, u8) -> Pixel>(
    src: &[u8],
    w: usize,
    h: usize,
    selection: Option<Area>,
    dx: i32,
    dy: i32,
    mask: Option<&[u8]>,
    blend: &B,
) -> (r: (Vec<u8>, Option<(usize, usize, usize, usize)>))
    requires
        4 * (w * h) <= src.len(),
        w <= i32::MAX,
        h <= i32::MAX,
        mask_fits(masked(mask), w * h),
        selection matches Some(a) ==> a.x + a.w <= usize::MAX && a.y + a.h <= usize::MAX,
        forall|u: Pixel, o: Pixel, c: u8| #[trigger] (*blend).requires((u, o, c)),
    ensures
        layer_moved(
            src@,
            w as int,
            h as int,
            selection,
            dx as int,
            dy as int,
            masked(mask),
            blend,
            r.0@,
        ),
        match r.1 {
            Some(b) => selection is Some && (b.0 as int, b.1 as int, b.2 as int, b.3 as int)
                == moved_area(selection->0, w as int, h as int, dx as int, dy as int),
            None => selection is None,
        },
{
    match selection {
        Some(area) => {
            let moved = move_selection_pixels(
                src,
                w,
                h,
                area.x,
                area.y,
                area.w,
                area.h,
                dx,
                dy,
                mask,
                blend,
            );
            let b: (usize, usize, usize, usize) = (
                slide(area.x, dx, w),
                slide(area.y, dy, h),
                slide(area.x + area.w, dx, w),
                slide(area.y + area.h, dy, h),
            );
            (moved, Some(b))
        },
        None => (shift_pixels(src, w, h, dx, dy), None),
    }
}

/// Whether a shape can become another by being moved with what it selects.
pub open spec fn shape_moved<X: Fn(Real) -> Real, Y: Fn(Real) -> Real>(
    before: SelectionShape,
    after: SelectionShape,
    dx: int,
    dy: int,
    across: &X,
    down: &Y,
) -> bool {
    match (before, after) {
        (
            SelectionShape::Ellipse { cx, cy, rx, ry },
            SelectionShape::Ellipse { cx: nx, cy: ny, rx: nrx, ry: nry },
        ) => (*across).ensures((cx,), nx) && (*down).ensures((cy,), ny) && nrx == rx && nry == ry,
        (SelectionShape::Polygon(a), SelectionShape::Polygon(b)) => {
            &&& b@.len() == a@.len()
            &&& forall|i: int|
                0 <= i < a@.len() ==> (*across).ensures((a@[i].0,), (#[trigger] b@[i]).0) && (
                *down).ensures((a@[i].1,), b@[i].1)
        },
        (
            SelectionShape::Mask { width, height, data },
            SelectionShape::Mask { width: nw, height: nh, data: moved },
        ) => nw == width && nh == height && mask_moved(
            data@,
            moved@,
            width as int,
            height as int,
            dx,
            dy,
        ),
        _ => false,
    }
}

/// Moves a shape with what it selects. `across` and `down` move a place along the width and along
/// the height by as much; a mask is moved by cells.
pub fn move_shape<X: Fn(Real) -> Real, Y: Fn(Real) -> Real>(
    shape: SelectionShape,
    dx: i32,
    dy: i32,
    across: &X,
    down: &Y,
) -> (r: SelectionShape)
    requires
        shape_filled(&shape),
        shape matches SelectionShape::Mask { width, height, data } ==> width <= i32::MAX && height
            <= i32::MAX,
        forall|x: Real| #[trigger] (*across).requires((x,)),
        forall|y: Real| #[trigger] (*down).requires((y,)),
    ensures
        shape_moved(shape, r, dx as int, dy as int, across, down),
{
    match shape {
        SelectionShape::Ellipse { cx, cy, rx, ry } => SelectionShape::Ellipse {
            cx: across(cx),
            cy: down(cy),
            rx,
            ry,
        },
        SelectionShape::Polygon(points) => {
            let mut out: Vec<(Real, Real)> = Vec::new();
            let mut i: usize = 0;
            while i < points.len()
                invariant
                    i <= points.len(),
                    out.len() == i,
                    forall|x: Real| #[trigger] (*across).requires((x,)),
                    forall|y: Real| #[trigger] (*down).requires((y,)),
                    forall|k: int|
                        0 <= k < i ==> (*across).ensures((points@[k].0,), (#[trigger] out@[k]).0)
                            && (*down).ensures((points@[k].1,), out@[k].1),
                decreases points.len() - i,
            {
                let x: Real = across(points[i].0);
                let y: Real = down(points[i].1);
                out.push((x, y));
                i = i + 1;
            }
            SelectionShape::Polygon(out)
        },
        SelectionShape::Mask { width, height, data } => {
            let moved = shift_mask(data.as_slice(), width as usize, height as usize, dx, dy);
            SelectionShape::Mask { width, height, data: moved }
        },
    }
}

/// The size of a picture of which an area is cut out.
pub fn crop_size(a: Area, w: usize, h: usize) -> (r: (usize, usize))
    ensures
        r.0 == cut_size(w as int, a.x as int, a.w as int),
        r.1 == cut_size(h as int, a.y as int, a.h as int),
{
    let room_w: usize = if a.x < w {
        w - a.x
    } else {
        0
    };
    let room_h: usize = if a.y < h {
        h - a.y
    } else {
        0
    };
    let cw: usize = if a.w < room_w {
        a.w
    } else {
        room_w
    };
    let ch: usize = if a.h < room_h {
        a.h
    } else {
        room_h
    };
    (
        if cw < 1 {
            1
        } else {
            cw
        },
        if ch < 1 {
            1
        } else {
            ch
        },
    )
}

} // verus!
