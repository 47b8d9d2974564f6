//! Changing a part of a picture: moving what is selected, warping it, filling it.
//!
//! How two pixels are laid over each other, and where a warp takes a cell from, is the
//! caller's arithmetic; which cells are read, cleared, blended and kept is settled here.
use crate::number::Real;
use crate::pixels::{cell, clear, lemma_cell, pixel, pixel_at, weave, woven, Pixel};
use vstd::prelude::*;

verus! {

/// A rectangle of cells: the column and row it begins at, its width and its height.
#[derive(Clone, Copy, Debug, PartialEq, Eq, Structural)]
pub struct Area {
    pub x: usize,
    pub y: usize,
    pub w: usize,
    pub h: usize,
}

impl Area {
    /// Whether column `x` of row `y` of a picture of `w` by `h` cells is in the rectangle.
    pub open spec fn holds(self, w: int, h: int, x: int, y: int) -> bool {
        &&& 0 <= x < w
        &&& 0 <= y < h
        &&& self.x <= x < self.x + self.w
        &&& self.y <= y < self.y + self.h
    }

    /// Whether column `x` of row `y` of a picture of `w` by `h` cells is in the rectangle.
    pub fn has(self, w: usize, h: usize, x: usize, y: usize) -> (r: bool)
        ensures
            r == self.holds(w as int, h as int, x as int, y as int),
    {
        x < w && y < h && self.x <= x && x - self.x < self.w && self.y <= y && y - self.y < self.h
    }
}

/// A mask, one byte per cell: 0 is not selected, 255 is selected whole.
pub open spec fn masked(mask: Option<&[u8]>) -> Option<Seq<u8>> {
    match mask {
        Some(m) => Some(m@),
        None => None,
    }
}

/// How much of a cell is selected. Without a mask every cell is, whole.
pub open spec fn cover(mask: Option<Seq<u8>>, i: int) -> u8 {
    match mask {
        Some(m) => m[i],
        None => 255,
    }
}

/// Whether a mask has a byte for each of `n` cells.
pub open spec fn mask_fits(mask: Option<Seq<u8>>, n: int) -> bool {
    mask matches Some(m) ==> n <= m.len()
}

fn cover_at(mask: Option<&[u8]>, i: usize) -> (r: u8)
    requires
        mask_fits(masked(mask), i + 1),
    ensures
        r == cover(masked(mask), i as int),
{
    match mask {
        Some(m) => m[i],
        None => 255,
    }
}

/// The bytes of a picture after those of its cells.
pub open spec fn rest(src: Seq<u8>, w: int, h: int) -> Seq<u8> {
    src.skip(4 * (w * h))
}

fn rest_of(src: &[u8], w: usize, h: usize) -> (r: Vec<u8>)
    requires
        4 * (w * h) <= src.len(),
    ensures
        r@ == rest(src@, w as int, h as int),
{
    let start: usize = 4 * (w * h);
    let mut v: Vec<u8> = Vec::new();
    let mut k: usize = start;
    while k < src.len()
        invariant
            start == 4 * (w * h),
            start <= k <= src.len(),
            v@ == rest(src@, w as int, h as int).take(k - start),
        decreases src.len() - k,
    {
        v.push(src[k]);
        k = k + 1;
        assert(v@ =~= rest(src@, w as int, h as int).take(k - start));
    }
    assert(v@ =~= rest(src@, w as int, h as int));
    v
}

/// Whether a cell is selected and comes to column `x + dx` of row `y + dy` in a move: it lies in
/// the area, is not clear, and the mask has some of it.
pub open spec fn carried(
    src: Seq<u8>,
    w: int,
    h: int,
    area: Area,
    mask: Option<Seq<u8>>,
    x: int,
    y: int,
) -> bool {
    area.holds(w, h, x, y) && pixel(src, cell(w, x, y)).a > 0 && cover(mask, cell(w, x, y)) > 0
}

/// What is left in a cell when what is selected is cut out.
pub open spec fn left_behind(
    src: Seq<u8>,
    w: int,
    h: int,
    area: Area,
    mask: Option<Seq<u8>>,
    x: int,
    y: int,
) -> Pixel {
    if area.holds(w, h, x, y) && cover(mask, cell(w, x, y)) > 0 {
        clear()
    } else {
        pixel(src, cell(w, x, y))
    }
}

/// Whether `p` is a pixel laid over another: an opaque one that covers all of it takes its place,
/// and else it is what `blend` makes of the two.
pub open spec fn laid<B: Fn(Pixel, Pixel, u8) -> Pixel>(
    blend: &B,
    under: Pixel,
    over: Pixel,
    cover: u8,
    p: Pixel,
) -> bool {
    if over.a == 255 && cover == 255 {
        p == over
    } else {
        (*blend).ensures((under, over, cover), p)
    }
}

fn lay<B: Fn(Pixel, Pixel, u8) -> Pixel>(blend: &B, under: Pixel, over: Pixel, cover: u8) -> (p:
    Pixel)
    requires
        forall|u: Pixel, o: Pixel, c: u8| #[trigger] (*blend).requires((u, o, c)),
    ensures
        laid(blend, under, over, cover, p),
{
    if over.a == 255 && cover == 255 {
        over
    } else {
        blend(under, over, cover)
    }
}

/// What a cell can be after a move: what was left in it, or what comes to it laid over that.
pub open spec fn after_move<B: Fn(Pixel, Pixel, u8) -> Pixel>(
    src: Seq<u8>,
    w: int,
    h: int,
    area: Area,
    mask: Option<Seq<u8>>,
    dx: int,
    dy: int,
    blend: &B,
) -> spec_fn(int, int, Pixel) -> bool {
    |x: int, y: int, p: Pixel|
        {
            let under = left_behind(src, w, h, area, mask, x, y);
            if carried(src, w, h, area, mask, x - dx, y - dy) {
                laid(
                    blend,
                    under,
                    pixel(src, cell(w, x - dx, y - dy)),
                    cover(mask, cell(w, x - dx, y - dy)),
                    p,
                )
            } else {
                p == under
            }
        }
}

/// A picture in which what is selected, the cells of an area as far as the mask has them, is
/// cut out and laid over the rest `dx` columns and `dy` rows further. What would leave the
/// picture is dropped. `blend` lays its second pixel, covering as much as its third argument
/// says, over its first; an opaque one that covers all of a cell takes it.
pub fn move_selection_pixels<B: Fn(Pixel, Pixel, u8) -> Pixel>(
    src: &[u8],
    width: usize,
    height: usize,
    sel_x0: usize,
    sel_y0: usize,
    sel_w: usize,
    sel_h: usize,
    dx: i32,
    dy: i32,
    mask: Option<&[u8]>,
    blend: &B,
) -> (r: Vec<u8>)
    requires
        4 * (width * height) <= src.len(),
        width <= i32::MAX,
        height <= i32::MAX,
        mask_fits(masked(mask), width * height),
        forall|u: Pixel, o: Pixel, c: u8| #[trigger] blend.requires((u, o, c)),
    ensures
        woven(
            r@,
            width as int,
            height as int,
            rest(src@, width as int, height as int),
            after_move(
                src@,
                width as int,
                height as int,
                Area { x: sel_x0, y: sel_y0, w: sel_w, h: sel_h },
                masked(mask),
                dx as int,
                dy as int,
                blend,
            ),
        ),
{
    let area: Area = Area { x: sel_x0, y: sel_y0, w: sel_w, h: sel_h };
    let ghost ok = after_move(
        src@,
        width as int,
        height as int,
        area,
        masked(mask),
        dx as int,
        dy as int,
        blend,
    );
    let at = |x: usize, y: usize| -> (p: Pixel)
        requires
            x < width,
            y < height,
            4 * (width * height) <= src.len(),
            width <= i32::MAX,
            height <= i32::MAX,
            mask_fits(masked(mask), width * height),
            forall|u: Pixel, o: Pixel, c: u8| #[trigger] blend.requires((u, o, c)),
        ensures
            after_move(
                src@,
                width as int,
                height as int,
                area,
                masked(mask),
                dx as int,
                dy as int,
                blend,
            )(x as int, y as int, p),
        {
            proof {
                lemma_cell(width as int, height as int, x as int, y as int);
            }
            let here: usize = place(width, height, x, y);
            let under: Pixel = if area.has(width, height, x, y) && cover_at(mask, here) > 0 {
                Pixel { r: 0, g: 0, b: 0, a: 0 }
            } else {
                pixel_at(src, here)
            };
            let sx: i64 = x as i64 - dx as i64;
            let sy: i64 = y as i64 - dy as i64;
            if 0 <= sx && sx < width as i64 && 0 <= sy && sy < height as i64 && area.has(
                width,
                height,
                sx as usize,
                sy as usize,
            ) {
                proof {
                    lemma_cell(width as int, height as int, sx as int, sy as int);
                }
                let from: usize = place(width, height, sx as usize, sy as usize);
                let over: Pixel = pixel_at(src, from);
                let c: u8 = cover_at(mask, from);
                if over.a > 0 && c > 0 {
                    return lay(blend, under, over, c);
                }
            }
            under
        };
    let tail = rest_of(src, width, height);
    weave(width, height, &tail, at, Ghost(ok))
}

/// The cell in column `x` of row `y`.
fn place(w: usize, h: usize, x: usize, y: usize) -> (r: usize)
    requires
        x < w,
        y < h,
        w * h <= usize::MAX,
    ensures
        r == cell(w as int, x as int, y as int),
{
    proof {
        lemma_cell(w as int, h as int, x as int, y as int);
    }
    assert(0 <= y * w) by (nonlinear_arith)
        requires
            0 <= y,
            0 <= w,
    ;
    y * w + x
}

/// A cell that is neither selected nor comes to lie under what is selected stays as it was.
pub proof fn moving_leaves_the_rest<B: Fn(Pixel, Pixel, u8) -> Pixel>(
    src: Seq<u8>,
    r: Seq<u8>,
    w: int,
    h: int,
    area: Area,
    mask: Option<Seq<u8>>,
    dx: int,
    dy: int,
    blend: &B,
    x: int,
    y: int,
)
    requires
        0 <= x < w,
        0 <= y < h,
        woven(r, w, h, rest(src, w, h), after_move(src, w, h, area, mask, dx, dy, blend)),
        !(area.holds(w, h, x, y) && cover(mask, cell(w, x, y)) > 0),
        !carried(src, w, h, area, mask, x - dx, y - dy),
    ensures
        pixel(r, cell(w, x, y)) == pixel(src, cell(w, x, y)),
{
    let ok = after_move(src, w, h, area, mask, dx, dy, blend);
    assert(ok(x, y, pixel(r, cell(w, x, y))));
}

/// Where a selected cell was, nothing is left unless something selected comes to it.
pub proof fn moving_leaves_a_hole<B: Fn(Pixel, Pixel, u8) -> Pixel>(
    src: Seq<u8>,
    r: Seq<u8>,
    w: int,
    h: int,
    area: Area,
    mask: Option<Seq<u8>>,
    dx: int,
    dy: int,
    blend: &B,
    x: int,
    y: int,
)
    requires
        area.holds(w, h, x, y),
        cover(mask, cell(w, x, y)) > 0,
        woven(r, w, h, rest(src, w, h), after_move(src, w, h, area, mask, dx, dy, blend)),
        !carried(src, w, h, area, mask, x - dx, y - dy),
    ensures
        pixel(r, cell(w, x, y)) == clear(),
{
    let ok = after_move(src, w, h, area, mask, dx, dy, blend);
    assert(ok(x, y, pixel(r, cell(w, x, y))));
}

/// What a cell can be before a warp is laid over it. A warp of the whole picture starts from
/// nothing; a warp of an area takes from its cells as much as the mask has of them.
pub open spec fn faded<F: Fn(u8, u8) -> u8>(
    src: Seq<u8>,
    w: int,
    h: int,
    region: Option<Area>,
    mask: Option<Seq<u8>>,
    fade: &F,
    x: int,
    y: int,
    p: Pixel,
) -> bool {
    let own = pixel(src, cell(w, x, y));
    match region {
        None => p == clear(),
        Some(area) => if area.holds(w, h, x, y) && cover(mask, cell(w, x, y)) > 0 {
            p == (Pixel { a: p.a, ..own }) && (*fade).ensures(
                (own.a, cover(mask, cell(w, x, y))),
                p.a,
            )
        } else {
            p == own
        },
    }
}

/// The area that a warp takes cells from.
pub open spec fn warped_area(w: int, h: int, region: Option<Area>) -> Area {
    match region {
        Some(area) => area,
        None => Area { x: 0, y: 0, w: w as usize, h: h as usize },
    }
}

/// What a cell can be when a warp takes it from `s` and `under` is there before.
pub open spec fn laid_over<B: Fn(Pixel, Pixel, u8) -> Pixel>(
    src: Seq<u8>,
    w: int,
    h: int,
    area: Area,
    mask: Option<Seq<u8>>,
    blend: &B,
    s: Option<(usize, usize)>,
    under: Pixel,
    p: Pixel,
) -> bool {
    match s {
        Some((sx, sy)) => if carried(src, w, h, area, mask, sx as int, sy as int) {
            laid(
                blend,
                under,
                pixel(src, cell(w, sx as int, sy as int)),
                cover(mask, cell(w, sx as int, sy as int)),
                p,
            )
        } else {
            p == under
        },
        None => p == under,
    }
}

/// What a cell can be after a warp: within the window, what the warp takes it from laid over
/// what was left there.
pub open spec fn after_warp<
    S: Fn(usize, usize) -> Option<(usize, usize)>,
    F: Fn(u8, u8) -> u8,
    B: Fn(Pixel, Pixel, u8) -> Pixel,
>(
    src: Seq<u8>,
    w: int,
    h: int,
    region: Option<Area>,
    window: Area,
    mask: Option<Seq<u8>>,
    source: &S,
    fade: &F,
    blend: &B,
) -> spec_fn(int, int, Pixel) -> bool {
    |x: int, y: int, p: Pixel|
        exists|under: Pixel, s: Option<(usize, usize)>|
            {
                &&& #[trigger] faded(src, w, h, region, mask, fade, x, y, under)
                &&& if window.holds(w, h, x, y) {
                    (*source).ensures((x as usize, y as usize), s)
                } else {
                    s is None
                }
                &&& #[trigger] laid_over(
                    src,
                    w,
                    h,
                    warped_area(w, h, region),
                    mask,
                    blend,
                    s,
                    under,
                    p,
                )
            }
}

/// A picture in which an area, or the whole of it, is warped. For each cell of the window
/// `source` says which cell comes to it, if any; a cell from outside the area does not come.
/// `fade` is what stays of an alpha when as much of its cell is taken, and `blend` lays its
/// second pixel, covering as much as its third argument says, over its first; an opaque one that
/// covers all of a cell takes it.
pub fn apply_free_transform<
    S: Fn(usize, usize) -> Option<(usize, usize)>,
    F: Fn(u8, u8) -> u8,
    B: Fn(Pixel, Pixel, u8) -> Pixel,
>(
    src: &[u8],
    width: usize,
    height: usize,
    region: Option<Area>,
    window: Area,
    mask: Option<&[u8]>,
    source: &S,
    fade: &F,
    blend: &B,
) -> (r: Vec<u8>)
    requires
        4 * (width * height) <= src.len(),
        mask_fits(masked(mask), width * height),
        forall|x: usize, y: usize| #[trigger] (*source).requires((x, y)),
        forall|a: u8, c: u8| #[trigger] (*fade).requires((a, c)),
        forall|u: Pixel, o: Pixel, c: u8| #[trigger] (*blend).requires((u, o, c)),
    ensures
        woven(
            r@,
            width as int,
            height as int,
            rest_after_warp(src@, width as int, height as int, region),
            after_warp(
                src@,
                width as int,
                height as int,
                region,
                window,
                masked(mask),
                source,
                fade,
                blend,
            ),
        ),
{
    let ghost ok = after_warp(
        src@,
        width as int,
        height as int,
        region,
        window,
        masked(mask),
        source,
        fade,
        blend,
    );
    let area: Area = match region {
        Some(area) => area,
        None => Area { x: 0, y: 0, w: width, h: height },
    };
    let at = |x: usize, y: usize| -> (p: Pixel)
        requires
            x < width,
            y < height,
            area == warped_area(width as int, height as int, region),
            4 * (width * height) <= src.len(),
            mask_fits(masked(mask), width * height),
            forall|x: usize, y: usize| #[trigger] (*source).requires((x, y)),
            forall|a: u8, c: u8| #[trigger] (*fade).requires((a, c)),
            forall|u: Pixel, o: Pixel, c: u8| #[trigger] (*blend).requires((u, o, c)),
        ensures
            after_warp(
                src@,
                width as int,
                height as int,
                region,
                window,
                masked(mask),
                source,
                fade,
                blend,
            )(x as int, y as int, p),
        {
            proof {
                lemma_cell(width as int, height as int, x as int, y as int);
            }
            let here: usize = place(width, height, x, y);
            let under: Pixel = match region {
                None => Pixel { r: 0, g: 0, b: 0, a: 0 },
                Some(area) => {
                    let own: Pixel = pixel_at(src, here);
                    let c: u8 = cover_at(mask, here);
                    if area.has(width, height, x, y) && c > 0 {
                        Pixel { r: own.r, g: own.g, b: own.b, a: fade(own.a, c) }
                    } else {
                        own
                    }
                },
            };
            let s: Option<(usize, usize)> = if window.has(width, height, x, y) {
                source(x, y)
            } else {
                None
            };
            let p: Pixel = match s {
                Some((sx, sy)) => if area.has(width, height, sx, sy) {
                    proof {
                        lemma_cell(width as int, height as int, sx as int, sy as int);
                    }
                    let from: usize = place(width, height, sx, sy);
                    let over: Pixel = pixel_at(src, from);
                    let c: u8 = cover_at(mask, from);
                    if over.a > 0 && c > 0 {
                        lay(blend, under, over, c)
                    } else {
                        under
                    }
                } else {
                    under
                },
                None => under,
            };
            assert(faded(
                src@,
                width as int,
                height as int,
                region,
                masked(mask),
                fade,
                x as int,
                y as int,
                under,
            ));
            assert(laid_over(
                src@,
                width as int,
                height as int,
                area,
                masked(mask),
                blend,
                s,
                under,
                p,
            ));
            p
        };
    let tail: Vec<u8> = match region {
        Some(_) => rest_of(src, width, height),
        None => crate::pixels::zero_bytes(src.len() - 4 * (width * height)),
    };
    weave(width, height, &tail, at, Ghost(ok))
}

/// The bytes after those of the cells in a warped picture: kept when an area is warped, zero
/// when the whole picture is.
pub open spec fn rest_after_warp(src: Seq<u8>, w: int, h: int, region: Option<Area>) -> Seq<u8> {
    match region {
        Some(_) => rest(src, w, h),
        None => crate::pixels::zeros(src.len() - 4 * (w * h)),
    }
}

/// A rectangle in a picture by the shares of its width and height that its edges are at:
/// left, top, right, bottom.
#[derive(Clone, Copy, Debug, PartialEq, Eq, Structural)]
pub struct Edges {
    pub x0: Real,
    pub y0: Real,
    pub x1: Real,
    pub y1: Real,
}

impl Edges {
    /// Whether there is something between the edges.
    pub open spec fn wide(self) -> bool {
        self.x0.less(self.x1) && self.y0.less(self.y1)
    }

    /// Whether there is something between the edges.
    pub fn is_wide(self) -> (r: bool)
        ensures
            r == self.wide(),
    {
        self.x0.lt(self.x1) && self.y0.lt(self.y1)
    }

    /// Whether an edge is at most the one across from it. Edges that are no numbers are not.
    pub open spec fn shut(self) -> bool {
        self.x1.at_most(self.x0) || self.y1.at_most(self.y0)
    }

    /// Whether an edge is at most the one across from it.
    pub fn is_shut(self) -> (r: bool)
        ensures
            r == self.shut(),
    {
        self.x1.le(self.x0) || self.y1.le(self.y0)
    }
}

/// What a fill reaches along one axis: from `start` to `end`.
pub open spec fn run(start: int, end: int) -> int {
    if start < end {
        end - start
    } else {
        0
    }
}

/// The cells that a fill reaches: those a selection touches, and without one, all. `first` is
/// the cell that an edge at a share of a size is in, `past` the first that is past it.
pub open spec fn reached<L: Fn(Real, usize) -> usize, H: Fn(Real, usize) -> usize>(
    selection: Option<Edges>,
    w: usize,
    h: usize,
    first: &L,
    past: &H,
    r: Area,
) -> bool {
    match selection {
        Some(e) => if e.wide() {
            exists|x1: usize, y1: usize|
                {
                    &&& (*first).ensures((e.x0, w), r.x)
                    &&& (*first).ensures((e.y0, h), r.y)
                    &&& #[trigger] (*past).ensures((e.x1, w), x1)
                    &&& #[trigger] (*past).ensures((e.y1, h), y1)
                    &&& r.w == run(r.x as int, x1 as int)
                    &&& r.h == run(r.y as int, y1 as int)
                }
        } else {
            r == Area { x: 0, y: 0, w, h }
        },
        None => r == Area { x: 0, y: 0, w, h },
    }
}

fn run_of(start: usize, end: usize) -> (r: usize)
    ensures
        r == run(start as int, end as int),
{
    if start < end {
        end - start
    } else {
        0
    }
}

/// The cells that a fill reaches.
pub fn fill_area<L: Fn(Real, usize) -> usize, H: Fn(Real, usize) -> usize>(
    selection: Option<Edges>,
    width: usize,
    height: usize,
    first: &L,
    past: &H,
) -> (r: Area)
    requires
        forall|e: Real, n: usize| #[trigger] (*first).requires((e, n)),
        forall|e: Real, n: usize| #[trigger] (*past).requires((e, n)),
    ensures
        reached(selection, width, height, first, past, r),
{
    if let Some(e) = selection {
        if e.is_wide() {
            let x: usize = first(e.x0, width);
            let y: usize = first(e.y0, height);
            let x1: usize = past(e.x1, width);
            let y1: usize = past(e.y1, height);
            return Area { x, y, w: run_of(x, x1), h: run_of(y, y1) };
        }
    }
    Area { x: 0, y: 0, w: width, h: height }
}

/// What a cell can be after a fill of an area.
pub open spec fn after_fill<S: Fn(usize, usize, u8, Pixel) -> Option<Pixel>>(
    src: Seq<u8>,
    w: int,
    h: int,
    area: Area,
    mask: Option<Seq<u8>>,
    shade: &S,
) -> spec_fn(int, int, Pixel) -> bool {
    |x: int, y: int, p: Pixel|
        {
            let own = pixel(src, cell(w, x, y));
            if area.holds(w, h, x, y) {
                shaded(x, y, cover(mask, cell(w, x, y)), own, shade, p)
            } else {
                p == own
            }
        }
}

/// What a filled cell can be: what `shade` gives, and where it gives nothing, what it was.
pub open spec fn shaded<S: Fn(usize, usize, u8, Pixel) -> Option<Pixel>>(
    x: int,
    y: int,
    c: u8,
    own: Pixel,
    shade: &S,
    p: Pixel,
) -> bool {
    ||| (*shade).ensures((x as usize, y as usize, c, own), Some(p))
    ||| (*shade).ensures((x as usize, y as usize, c, own), None) && p == own
}

/// Fills the cells of a picture that a selection reaches. `shade` is what a cell in a column
/// of a row becomes of which the mask has so much, or nothing where it stays as it is.
pub fn apply_gradient_fill<
    L: Fn(Real, usize) -> usize,
    H: Fn(Real, usize) -> usize,
    S: Fn(usize, usize, u8, Pixel) -> Option<Pixel>,
>(
    pixels: &mut Vec<u8>,
    width: usize,
    height: usize,
    selection: Option<Edges>,
    mask: Option<&[u8]>,
    first: &L,
    past: &H,
    shade: &S,
)
    requires
        4 * (width * height) <= old(pixels).len(),
        mask_fits(masked(mask), width * height),
        forall|e: Real, n: usize| #[trigger] (*first).requires((e, n)),
        forall|e: Real, n: usize| #[trigger] (*past).requires((e, n)),
        forall|x: usize, y: usize, c: u8, p: Pixel| #[trigger] (*shade).requires((x, y, c, p)),
    ensures
        exists|area: Area|
            #[trigger] reached(selection, width, height, first, past, area) && woven(
                final(pixels)@,
                width as int,
                height as int,
                rest(old(pixels)@, width as int, height as int),
                after_fill(
                    old(pixels)@,
                    width as int,
                    height as int,
                    area,
                    masked(mask),
                    shade,
                ),
            ),
{
    let area: Area = fill_area(selection, width, height, first, past);
    let src: &[u8] = pixels.as_slice();
    let ghost ok = after_fill(src@, width as int, height as int, area, masked(mask), shade);
    let at = |x: usize, y: usize| -> (p: Pixel)
        requires
            x < width,
            y < height,
            4 * (width * height) <= src.len(),
            mask_fits(masked(mask), width * height),
            forall|x: usize, y: usize, c: u8, p: Pixel| #[trigger]
                (*shade).requires((x, y, c, p)),
        ensures
            after_fill(src@, width as int, height as int, area, masked(mask), shade)(
                x as int,
                y as int,
                p,
            ),
        {
            proof {
                lemma_cell(width as int, height as int, x as int, y as int);
            }
            let here: usize = place(width, height, x, y);
            let own: Pixel = pixel_at(src, here);
            if area.has(width, height, x, y) {
                match shade(x, y, cover_at(mask, here), own) {
                    Some(p) => p,
                    None => own,
                }
            } else {
                own
            }
        };
    let tail: Vec<u8> = rest_of(src, width, height);
    let r = weave(width, height, &tail, at, Ghost(ok));
    *pixels = r;
}

/// What a cell can be after a stroke was held to a mask: what it was where the mask has nothing of
/// it, what the stroke made of it where the mask has all of it, and what `mix` makes of both else.
pub open spec fn held_to_mask<M: Fn(Pixel, Pixel, u8) -> Pixel>(
    before: Seq<u8>,
    after: Seq<u8>,
    w: int,
    mask: Seq<u8>,
    mix: &M,
) -> spec_fn(int, int, Pixel) -> bool {
    |x: int, y: int, p: Pixel|
        {
            let i = cell(w, x, y);
            if mask[i] == 0 {
                p == pixel(before, i)
            } else if mask[i] == 255 {
                p == pixel(after, i)
            } else {
                (*mix).ensures((pixel(before, i), pixel(after, i), mask[i]), p)
            }
        }
}

/// A stroke held to a mask: what stays of it when it is over. `before` and `after` are the picture
/// before the stroke and with all of it; `mix` is what a cell becomes of which the mask has a part.
pub fn end_stroke_masked<M: Fn(Pixel, Pixel, u8) -> Pixel>(
    before: &[u8],
    after: &[u8],
    width: usize,
    height: usize,
    mask: &[u8],
    mix: &M,
) -> (r: Vec<u8>)
    requires
        4 * (width * height) <= before.len(),
        4 * (width * height) <= after.len(),
        width * height <= mask.len(),
        forall|a: Pixel, b: Pixel, c: u8| #[trigger] (*mix).requires((a, b, c)),
    ensures
        woven(
            r@,
            width as int,
            height as int,
            rest(after@, width as int, height as int),
            held_to_mask(before@, after@, width as int, mask@, mix),
        ),
{
    let ghost ok = held_to_mask(before@, after@, width as int, mask@, mix);
    let at = |x: usize, y: usize| -> (p: Pixel)
        requires
            x < width,
            y < height,
            4 * (width * height) <= before.len(),
            4 * (width * height) <= after.len(),
            width * height <= mask.len(),
            forall|a: Pixel, b: Pixel, c: u8| #[trigger] (*mix).requires((a, b, c)),
        ensures
            held_to_mask(before@, after@, width as int, mask@, mix)(x as int, y as int, p),
        {
            proof {
                lemma_cell(width as int, height as int, x as int, y as int);
            }
            let here: usize = place(width, height, x, y);
            let cover: u8 = mask[here];
            if cover == 0 {
                pixel_at(before, here)
            } else if cover == 255 {
                pixel_at(after, here)
            } else {
                mix(pixel_at(before, here), pixel_at(after, here), cover)
            }
        };
    let tail: Vec<u8> = rest_of(after, width, height);
    weave(width, height, &tail, at, Ghost(ok))
}

/// A stroke leaves alone what the mask has nothing of.
pub proof fn masked_strokes_stay_inside<M: Fn(Pixel, Pixel, u8) -> Pixel>(
    before: Seq<u8>,
    after: Seq<u8>,
    r: Seq<u8>,
    w: int,
    h: int,
    mask: Seq<u8>,
    mix: &M,
    x: int,
    y: int,
)
    requires
        woven(r, w, h, rest(after, w, h), held_to_mask(before, after, w, mask, mix)),
        0 <= x < w,
        0 <= y < h,
        mask[cell(w, x, y)] == 0,
    ensures
        pixel(r, cell(w, x, y)) == pixel(before, cell(w, x, y)),
{
}

} // verus!
