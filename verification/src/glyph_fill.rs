//! Glyphs as masks: which cells the lines of an outline enclose, and how much of each.
//!
//! Each cell is looked at along four lines. A place on a line is inside where an odd number of
//! the outline's crossings with the line lie left of it and one lies right of it.
use crate::glyph::{GlyphOutline, GlyphPoint};
use crate::number::Real;
use crate::outline::{flatten_outline, flattened, places};
use crate::pixels::{cell, lemma_cell};
use crate::selection::{found, push_row, rising};
use vstd::prelude::*;

verus! {

/// How many lines a cell is looked at along.
pub const SAMPLES: u8 = 4;

/// A rectangle, from its least coordinates to its greatest.
#[derive(Clone, Copy, Debug, PartialEq, Eq, Structural)]
pub struct LineBox {
    pub x0: i64,
    pub y0: i64,
    pub x1: i64,
    pub y1: i64,
}

/// The sides of a closed line: from each point to the next, and from the last to the first.
pub open spec fn sides_of_line(line: Seq<(int, int)>) -> Seq<((int, int), (int, int))> {
    if line.len() < 2 {
        Seq::empty()
    } else {
        Seq::new(
            line.len(),
            |k: int|
                (
                    line[k],
                    line[if k + 1 < line.len() {
                        k + 1
                    } else {
                        0
                    }],
                ),
        )
    }
}

/// The sides of the first `n` lines.
pub open spec fn sides(lines: Seq<Seq<(int, int)>>, n: int) -> Seq<((int, int), (int, int))>
    decreases n,
{
    if n <= 0 {
        Seq::empty()
    } else {
        sides(lines, n - 1) + sides_of_line(lines[n - 1])
    }
}

/// The lines as places without bounds.
pub open spec fn line_places(lines: Seq<Vec<(i64, i64)>>) -> Seq<Seq<(int, int)>> {
    Seq::new(lines.len(), |k: int| places(lines[k]@))
}

/// Sides as places without bounds.
pub open spec fn side_places(s: Seq<((i64, i64), (i64, i64))>) -> Seq<((int, int), (int, int))> {
    Seq::new(
        s.len(),
        |k: int|
            (
                (s[k].0.0 as int, s[k].0.1 as int),
                (s[k].1.0 as int, s[k].1.1 as int),
            ),
    )
}

/// The sides of some lines.
fn sides_of(lines: &Vec<Vec<(i64, i64)>>) -> (r: Vec<((i64, i64), (i64, i64))>)
    ensures
        side_places(r@) == sides(line_places(lines@), lines.len() as int),
{
    let ghost all = line_places(lines@);
    let mut out: Vec<((i64, i64), (i64, i64))> = Vec::new();
    let mut n: usize = 0;
    assert(side_places(out@) =~= Seq::empty());
    while n < lines.len()
        invariant
            n <= lines.len(),
            all == line_places(lines@),
            side_places(out@) == sides(all, n as int),
        decreases lines.len() - n,
    {
        let line: &Vec<(i64, i64)> = &lines[n];
        let ghost before = out@;
        let ghost model = places(line@);
        assert(all[n as int] == model);
        if line.len() >= 2 {
            let mut k: usize = 0;
            assert(side_places(out@) =~= side_places(before) + sides_of_line(model).take(0));
            while k < line.len()
                invariant
                    k <= line.len(),
                    line.len() >= 2,
                    model == places(line@),
                    side_places(out@) == side_places(before) + sides_of_line(model).take(k as int),
                decreases line.len() - k,
            {
                let next: usize = if k + 1 < line.len() {
                    k + 1
                } else {
                    0
                };
                let ghost had = out@;
                out.push((line[k], line[next]));
                assert(side_places(out@) =~= side_places(had).push(sides_of_line(model)[k as int]));
                k = k + 1;
                assert(side_places(out@) =~= side_places(before) + sides_of_line(model).take(
                    k as int,
                ));
            }
            assert(sides_of_line(model).take(line.len() as int) =~= sides_of_line(model));
        } else {
            assert(side_places(out@) =~= side_places(before) + sides_of_line(model));
        }
        n = n + 1;
    }
    out
}

/// How many of some crossings are at a place or left of it.
pub open spec fn left_of(xs: Seq<Real>, x: Real) -> int
    decreases xs.len(),
{
    if xs.len() == 0 {
        0
    } else {
        left_of(xs.drop_last(), x) + if xs.last().less(x) || xs.last().same_number(x) {
            1int
        } else {
            0
        }
    }
}

/// Whether a place lies inside, by the crossings on its line.
pub open spec fn inside(xs: Seq<Real>, x: Real) -> bool {
    left_of(xs, x) % 2 == 1 && left_of(xs, x) < xs.len()
}

/// Whether a place lies inside, by the crossings on its line.
pub fn is_inside(xs: &Vec<Real>, x: Real) -> (r: bool)
    ensures
        r == inside(xs@, x),
{
    let mut count: usize = 0;
    let mut i: usize = 0;
    while i < xs.len()
        invariant
            i <= xs.len(),
            count <= i,
            count == left_of(xs@.take(i as int), x),
        decreases xs.len() - i,
    {
        assert(xs@.take(i + 1).drop_last() =~= xs@.take(i as int));
        if xs[i].le(x) {
            count = count + 1;
        }
        i = i + 1;
    }
    assert(xs@.take(xs.len() as int) =~= xs@);
    count % 2 == 1 && count < xs.len()
}

/// Whether `xs` can be the crossings of the sides with line `s` of row `y`.
pub open spec fn crossed<C: Fn(LineBox, usize, u8, (i64, i64), (i64, i64)) -> Option<Real>>(
    side: Seq<((int, int), (int, int))>,
    around: LineBox,
    y: int,
    s: int,
    cross: &C,
    xs: Seq<Real>,
) -> bool {
    exists|outs: Seq<Option<Real>>| #[trigger]
        answered(side, around, y, s, cross, outs) && xs == found(outs)
}

/// Whether `outs` can be what is answered of each side: where it crosses line `s` of row `y`.
pub open spec fn answered<C: Fn(LineBox, usize, u8, (i64, i64), (i64, i64)) -> Option<Real>>(
    side: Seq<((int, int), (int, int))>,
    around: LineBox,
    y: int,
    s: int,
    cross: &C,
    outs: Seq<Option<Real>>,
) -> bool {
    &&& outs.len() == side.len()
    &&& forall|i: int|
        0 <= i < side.len() ==> (*cross).ensures(
            (
                around,
                y as usize,
                s as u8,
                (side[i].0.0 as i64, side[i].0.1 as i64),
                (side[i].1.0 as i64, side[i].1.1 as i64),
            ),
            #[trigger] outs[i],
        )
}

/// The crossings of the sides with line `s` of row `y`.
fn crossings_of<C: Fn(LineBox, usize, u8, (i64, i64), (i64, i64)) -> Option<Real>>(
    side: &Vec<((i64, i64), (i64, i64))>,
    around: LineBox,
    y: usize,
    s: u8,
    cross: &C,
) -> (r: Vec<Real>)
    requires
        forall|f: LineBox, y: usize, s: u8, a: (i64, i64), b: (i64, i64)| #[trigger]
            (*cross).requires((f, y, s, a, b)),
    ensures
        crossed(side_places(side@), around, y as int, s as int, cross, r@),
{
    let mut xs: Vec<Real> = Vec::new();
    let ghost mut outs: Seq<Option<Real>> = Seq::empty();
    let mut i: usize = 0;
    while i < side.len()
        invariant
            i <= side.len(),
            forall|f: LineBox, y: usize, s: u8, a: (i64, i64), b: (i64, i64)| #[trigger]
                (*cross).requires((f, y, s, a, b)),
            outs.len() == i,
            xs@ == found(outs),
            forall|k: int|
                0 <= k < i ==> (*cross).ensures(
                    (around, y, s, side@[k].0, side@[k].1),
                    #[trigger] outs[k],
                ),
        decreases side.len() - i,
    {
        let o: Option<Real> = cross(around, y, s, side[i].0, side[i].1);
        let ghost before = outs;
        proof {
            outs = outs.push(o);
            assert(outs.drop_last() =~= before);
        }
        if let Some(x) = o {
            xs.push(x);
        }
        i = i + 1;
    }
    assert(answered(side_places(side@), around, y as int, s as int, cross, outs));
    xs
}

/// How many of the first `n` lines have a place inside.
pub open spec fn hits(lines: Seq<Seq<Real>>, x: Real, n: int) -> int
    decreases n,
{
    if n <= 0 {
        0
    } else {
        hits(lines, x, n - 1) + if inside(lines[n - 1], x) {
            1int
        } else {
            0
        }
    }
}

/// How much of a cell is inside: of 255, as many fourths as it has hits.
pub open spec fn coverage(hits: int) -> int {
    hits * 255 / 4
}

/// Whether row `y` of a mask can be that of a glyph with some sides.
pub open spec fn glyph_row<
    C: Fn(LineBox, usize, u8, (i64, i64), (i64, i64)) -> Option<Real>,
    T: Fn(LineBox, usize) -> Real,
>(
    side: Seq<((int, int), (int, int))>,
    around: LineBox,
    w: int,
    y: int,
    cross: &C,
    target: &T,
    mask: Seq<u8>,
) -> bool {
    exists|lines: Seq<Seq<Real>>| #[trigger]
        row_lines(side, around, y, cross, lines) && row_covered(around, w, y, target, lines, mask)
}

/// Whether `lines` can be the crossings of the sides with the four lines of row `y`.
pub open spec fn row_lines<C: Fn(LineBox, usize, u8, (i64, i64), (i64, i64)) -> Option<Real>>(
    side: Seq<((int, int), (int, int))>,
    around: LineBox,
    y: int,
    cross: &C,
    lines: Seq<Seq<Real>>,
) -> bool {
    &&& lines.len() == SAMPLES
    &&& forall|s: int|
        0 <= s < SAMPLES ==> crossed(side, around, y, s, cross, #[trigger] lines[s])
}

/// Whether each cell of row `y` of a mask has what its place along the four lines gives it.
pub open spec fn row_covered<T: Fn(LineBox, usize) -> Real>(
    around: LineBox,
    w: int,
    y: int,
    target: &T,
    lines: Seq<Seq<Real>>,
    mask: Seq<u8>,
) -> bool {
    forall|x: int|
        0 <= x < w ==> covered(around, x, target, lines, mask[#[trigger] cell(w, x, y)])
}

/// Whether `v` can be how much of the cell in column `x` is inside.
pub open spec fn covered<T: Fn(LineBox, usize) -> Real>(
    around: LineBox,
    x: int,
    target: &T,
    lines: Seq<Seq<Real>>,
    v: u8,
) -> bool {
    exists|at: Real| #[trigger]
        (*target).ensures((around, x as usize), at) && v == coverage(hits(lines, at, SAMPLES as int))
}

/// Whether a mask of `w` by `h` cells can be that of a glyph with some lines.
pub open spec fn glyph_mask<
    C: Fn(LineBox, usize, u8, (i64, i64), (i64, i64)) -> Option<Real>,
    T: Fn(LineBox, usize) -> Real,
>(around: LineBox, lines: Seq<Seq<(int, int)>>, w: int, h: int, cross: &C, target: &T, mask: Seq<u8>) -> bool {
    &&& mask.len() == w * h
    &&& forall|y: int|
        0 <= y < h ==> #[trigger] glyph_row(
            sides(lines, lines.len() as int),
            around,
            w,
            y,
            cross,
            target,
            mask,
        )
}

/// The crossings of some sides with the lines of a row, as sequences.
pub open spec fn crossing_lists(v: Seq<Vec<Real>>) -> Seq<Seq<Real>> {
    Seq::new(v.len(), |s: int| v[s]@)
}

/// How much of a cell is inside.
fn coverage_of(lines: &Vec<Vec<Real>>, x: Real) -> (r: u8)
    requires
        lines.len() == SAMPLES,
    ensures
        r == coverage(hits(crossing_lists(lines@), x, SAMPLES as int)),
{
    let mut n: u32 = 0;
    let mut s: usize = 0;
    while s < lines.len()
        invariant
            lines.len() == SAMPLES,
            s <= lines.len(),
            n <= s,
            n == hits(crossing_lists(lines@), x, s as int),
        decreases lines.len() - s,
    {
        if is_inside(&lines[s], x) {
            n = n + 1;
        }
        s = s + 1;
    }
    (n * 255 / 4) as u8
}

/// How much of the cell in column `x` is inside.
fn cell_coverage<T: Fn(LineBox, usize) -> Real>(around: LineBox, lines: &Vec<Vec<Real>>, x: usize, target: &T) -> (r: u8)
    requires
        lines.len() == SAMPLES,
        (*target).requires((around, x)),
    ensures
        covered(around, x as int, target, crossing_lists(lines@), r),
{
    let at: Real = target(around, x);
    assert((*target).ensures((around, x as int as usize), at));
    coverage_of(lines, at)
}

/// The mask of some lines in `width` by `height` cells, where `around` is the rectangle around
/// them. `cross` is where a side crosses one of the four lines of a row, `target` the place of a
/// column.
pub fn rasterize_lines<
    C: Fn(LineBox, usize, u8, (i64, i64), (i64, i64)) -> Option<Real>,
    T: Fn(LineBox, usize) -> Real,
>(
    around: LineBox,
    lines: &Vec<Vec<(i64, i64)>>,
    width: usize,
    height: usize,
    cross: &C,
    target: &T,
) -> (r: Vec<u8>)
    requires
        width * height <= usize::MAX,
        forall|f: LineBox, y: usize, s: u8, a: (i64, i64), b: (i64, i64)| #[trigger]
            (*cross).requires((f, y, s, a, b)),
        forall|f: LineBox, x: usize| #[trigger] (*target).requires((f, x)),
    ensures
        glyph_mask(around, line_places(lines@), width as int, height as int, cross, target, r@),
{
    let w: usize = width;
    let side = sides_of(lines);
    let ghost all = sides(line_places(lines@), lines.len() as int);
    let mut mask: Vec<u8> = Vec::new();
    let mut y: usize = 0;
    assert(cell(w as int, 0, 0) == 0);
    while y < height
        invariant
            y <= height,
            w * height <= usize::MAX,
            all == side_places(side@),
            mask.len() == cell(w as int, 0, y as int),
            forall|f: LineBox, y: usize, s: u8, a: (i64, i64), b: (i64, i64)| #[trigger]
                (*cross).requires((f, y, s, a, b)),
            forall|f: LineBox, x: usize| #[trigger] (*target).requires((f, x)),
            forall|b: int|
                0 <= b < y ==> #[trigger] glyph_row(all, around, w as int, b, cross, target, mask@),
        decreases height - y,
    {
        let mut found: Vec<Vec<Real>> = Vec::new();
        let mut s: u8 = 0;
        while s < SAMPLES
            invariant
                s <= SAMPLES,
                all == side_places(side@),
                found.len() == s,
                forall|f: LineBox, y: usize, s: u8, a: (i64, i64), b: (i64, i64)| #[trigger]
                    (*cross).requires((f, y, s, a, b)),
                forall|k: int|
                    0 <= k < s ==> crossed(all, around, y as int, k, cross, (#[trigger] found@[k])@),
            decreases SAMPLES - s,
        {
            let xs = crossings_of(&side, around, y, s, cross);
            found.push(xs);
            s = s + 1;
        }
        let ghost lists = crossing_lists(found@);
        assert(row_lines(all, around, y as int, cross, lists)) by {
            assert forall|s: int| 0 <= s < SAMPLES implies crossed(
                all,
                around,
                y as int,
                s,
                cross,
                #[trigger] lists[s],
            ) by {
                assert(lists[s] == found@[s]@);
            }
        }
        let f = |x: usize| -> (v: u8)
            requires
                found.len() == SAMPLES,
                forall|f: LineBox, x: usize| #[trigger] (*target).requires((f, x)),
            ensures
                covered(around, x as int, target, crossing_lists(found@), v),
            { cell_coverage(around, &found, x, target) };
        let ghost before = mask@;
        push_row(&mut mask, w, height, y, f);
        assert forall|b: int| 0 <= b < y + 1 implies #[trigger] glyph_row(
            all,
            around,
            w as int,
            b,
            cross,
            target,
            mask@,
        ) by {
            if b < y {
                assert(glyph_row(all, around, w as int, b, cross, target, before));
                let l = choose|l: Seq<Seq<Real>>| #[trigger]
                    row_lines(all, around, b, cross, l) && row_covered(around, w as int, b, target, l, before);
                assert forall|x: int| 0 <= x < w implies covered(
                    around,
                    x,
                    target,
                    l,
                    mask@[#[trigger] cell(w as int, x, b)],
                ) by {
                    lemma_cell(w as int, y as int, x, b);
                    assert(w * y == cell(w as int, 0, y as int)) by (nonlinear_arith);
                    assert(mask@[cell(w as int, x, b)] == before[cell(w as int, x, b)]);
                }
                assert(row_covered(around, w as int, b, target, l, mask@));
            } else {
                assert forall|x: int| 0 <= x < w implies covered(
                    around,
                    x,
                    target,
                    lists,
                    mask@[#[trigger] cell(w as int, x, b)],
                ) by {
                    assert(f.ensures((x as usize,), mask@[cell(w as int, x, y as int)]));
                }
                assert(row_covered(around, w as int, b, target, lists, mask@));
            }
        }
        y = y + 1;
    }
    assert(cell(w as int, 0, height as int) == w * height) by {
        assert(height * w == w * height) by (nonlinear_arith);
    }
    mask
}

/// Whether a rectangle has every point of the first `n` lines.
pub open spec fn holds_lines(b: LineBox, lines: Seq<Seq<(int, int)>>, n: int) -> bool {
    forall|k: int, i: int|
        0 <= k < n && 0 <= i < lines[k].len() ==> b.x0 <= (#[trigger] lines[k][i]).0 <= b.x1
            && b.y0 <= lines[k][i].1 <= b.y1
}

/// Whether a point of some lines has a coordinate: `x`, or `y` where `down`.
pub open spec fn touched(lines: Seq<Seq<(int, int)>>, down: bool, v: int) -> bool {
    exists|k: int, i: int|
        0 <= k < lines.len() && 0 <= i < lines[k].len() && (if down {
            (#[trigger] lines[k][i]).1
        } else {
            lines[k][i].0
        }) == v
}

/// Whether a rectangle is the smallest around some lines.
pub open spec fn bounds_lines(b: LineBox, lines: Seq<Seq<(int, int)>>) -> bool {
    &&& holds_lines(b, lines, lines.len() as int)
    &&& touched(lines, false, b.x0 as int)
    &&& touched(lines, false, b.x1 as int)
    &&& touched(lines, true, b.y0 as int)
    &&& touched(lines, true, b.y1 as int)
}

/// Whether some lines have no point.
pub open spec fn pointless(lines: Seq<Seq<(int, int)>>) -> bool {
    forall|k: int| 0 <= k < lines.len() ==> (#[trigger] lines[k]).len() == 0
}

/// The smallest rectangle around some lines, none where they have no point.
pub fn line_bounds(lines: &Vec<Vec<(i64, i64)>>) -> (r: Option<LineBox>)
    ensures
        match r {
            Some(b) => bounds_lines(b, line_places(lines@)),
            None => pointless(line_places(lines@)),
        },
{
    let ghost all = line_places(lines@);
    let mut best: Option<LineBox> = None;
    let mut k: usize = 0;
    while k < lines.len()
        invariant
            k <= lines.len(),
            all == line_places(lines@),
            match best {
                Some(b) => holds_lines(b, all, k as int) && touched(all, false, b.x0 as int)
                    && touched(all, false, b.x1 as int) && touched(all, true, b.y0 as int)
                    && touched(all, true, b.y1 as int),
                None => forall|j: int| 0 <= j < k ==> (#[trigger] all[j]).len() == 0,
            },
        decreases lines.len() - k,
    {
        let line: &Vec<(i64, i64)> = &lines[k];
        let mut i: usize = 0;
        while i < line.len()
            invariant
                k < lines.len(),
                line == lines@[k as int],
                i <= line.len(),
                all == line_places(lines@),
                match best {
                    Some(b) => holds_lines(b, all, k as int) && touched(all, false, b.x0 as int)
                        && touched(all, false, b.x1 as int) && touched(all, true, b.y0 as int)
                        && touched(all, true, b.y1 as int) && forall|j: int|
                        0 <= j < i ==> b.x0 <= (#[trigger] all[k as int][j]).0 <= b.x1 && b.y0
                            <= all[k as int][j].1 <= b.y1,
                    None => i == 0 && forall|j: int|
                        0 <= j < k ==> (#[trigger] all[j]).len() == 0,
                },
            decreases line.len() - i,
        {
            let p: (i64, i64) = line[i];
            let ghost before = best;
            assert(all[k as int][i as int] == (p.0 as int, p.1 as int));
            assert(touched(all, false, p.0 as int));
            assert(touched(all, true, p.1 as int));
            let b: LineBox = match best {
                Some(b) => LineBox {
                    x0: if p.0 < b.x0 {
                        p.0
                    } else {
                        b.x0
                    },
                    y0: if p.1 < b.y0 {
                        p.1
                    } else {
                        b.y0
                    },
                    x1: if p.0 > b.x1 {
                        p.0
                    } else {
                        b.x1
                    },
                    y1: if p.1 > b.y1 {
                        p.1
                    } else {
                        b.y1
                    },
                },
                None => LineBox { x0: p.0, y0: p.1, x1: p.0, y1: p.1 },
            };
            assert(holds_lines(b, all, k as int));
            best = Some(b);
            i = i + 1;
        }
        assert(all[k as int].len() == line.len());
        k = k + 1;
    }
    best
}

/// The lines of every contour of a glyph.
pub open spec fn outline_lines(contours: Seq<Seq<GlyphPoint>>) -> Seq<Seq<(int, int)>> {
    Seq::new(contours.len(), |k: int| flattened(contours[k]))
}

/// The mask of a glyph: the rectangle around its lines, the bytes, their width and their height.
#[derive(Debug)]
pub struct GlyphImage {
    pub around: LineBox,
    pub mask: Vec<u8>,
    pub width: usize,
    pub height: usize,
}

/// Whether an image can be that of a glyph. A glyph that has no width or no height has none.
pub open spec fn glyph_image<
    F: Fn(LineBox) -> (usize, usize),
    C: Fn(LineBox, usize, u8, (i64, i64), (i64, i64)) -> Option<Real>,
    T: Fn(LineBox, usize) -> Real,
>(
    lines: Seq<Seq<(int, int)>>,
    frame: &F,
    cross: &C,
    target: &T,
    image: Option<GlyphImage>,
) -> bool {
    match image {
        None => pointless(lines) || exists|b: LineBox| #[trigger]
            bounds_lines(b, lines) && (b.x1 <= b.x0 || b.y1 <= b.y0),
        Some(i) => {
            &&& bounds_lines(i.around, lines)
            &&& i.around.x0 < i.around.x1
            &&& i.around.y0 < i.around.y1
            &&& (*frame).ensures((i.around,), (i.width, i.height))
            &&& glyph_mask(
                i.around,
                lines,
                i.width as int,
                i.height as int,
                cross,
                target,
                i.mask@,
            )
        },
    }
}

/// The mask of a glyph. `frame` is how many cells wide and high the rectangle around the glyph's
/// lines is, in 128ths of a font unit.
pub fn rasterize_glyph<
    F: Fn(LineBox) -> (usize, usize),
    C: Fn(LineBox, usize, u8, (i64, i64), (i64, i64)) -> Option<Real>,
    T: Fn(LineBox, usize) -> Real,
>(outline: &GlyphOutline, frame: &F, cross: &C, target: &T) -> (r: Option<GlyphImage>)
    requires
        forall|b: LineBox| #[trigger] (*frame).requires((b,)),
        forall|b: LineBox, s: (usize, usize)| #[trigger]
            (*frame).ensures((b,), s) ==> s.0 * s.1 <= usize::MAX,
        forall|f: LineBox, y: usize, s: u8, a: (i64, i64), b: (i64, i64)| #[trigger]
            (*cross).requires((f, y, s, a, b)),
        forall|f: LineBox, x: usize| #[trigger] (*target).requires((f, x)),
    ensures
        glyph_image(outline_lines(outline@), frame, cross, target, r),
{
    let lines = flatten_outline(outline);
    assert(line_places(lines@) =~= outline_lines(outline@)) by {
        assert forall|k: int| 0 <= k < lines@.len() implies line_places(lines@)[k]
            == outline_lines(outline@)[k] by {
            assert(places(lines@[k]@) == flattened(outline@[k]));
        }
    }
    match line_bounds(&lines) {
        None => None,
        Some(b) => {
            if b.x1 <= b.x0 || b.y1 <= b.y0 {
                return None;
            }
            let size: (usize, usize) = frame(b);
            let mask = rasterize_lines(b, &lines, size.0, size.1, cross, target);
            Some(GlyphImage { around: b, mask, width: size.0, height: size.1 })
        },
    }
}

/// Of crossings in order those left of a place come first.
proof fn lemma_left_come_first(xs: Seq<Real>, x: Real, n: int)
    requires
        rising(xs),
        forall|i: int| 0 <= i < xs.len() ==> !(#[trigger] xs[i]).nan(),
        0 <= n <= xs.len(),
    ensures
        0 <= left_of(xs.take(n), x) <= n,
        forall|i: int|
            0 <= i < n ==> (i < left_of(xs.take(n), x) <==> ((#[trigger] xs[i]).less(x)
                || xs[i].same_number(x))),
    decreases n,
{
    if n > 0 {
        lemma_left_come_first(xs, x, n - 1);
        assert(xs.take(n).drop_last() =~= xs.take(n - 1));
        assert(xs.take(n).last() == xs[n - 1]);
        if xs[n - 1].less(x) || xs[n - 1].same_number(x) {
            assert forall|i: int| 0 <= i < n implies xs[i].less(x) || (
            #[trigger] xs[i]).same_number(x) by {
                assert(!xs[n - 1].less(xs[i]));
            }
            if left_of(xs.take(n - 1), x) < n - 1 {
                let i = left_of(xs.take(n - 1), x);
                assert(xs[i].less(x) || xs[i].same_number(x));
            }
        }
    }
}

/// A place lies inside exactly when it lies between the two crossings of a pair: the first and
/// the second in order, the third and the fourth, and so on.
pub proof fn inside_is_between_pairs(xs: Seq<Real>, x: Real)
    requires
        rising(xs),
        forall|i: int| 0 <= i < xs.len() ==> !(#[trigger] xs[i]).nan(),
        !x.nan(),
    ensures
        inside(xs, x) <==> exists|j: int|
            0 <= j && 2 * j + 1 < xs.len() && #[trigger] in_pair(xs, x, j),
{
    lemma_left_come_first(xs, x, xs.len() as int);
    assert(xs.take(xs.len() as int) =~= xs);
    let n = left_of(xs, x);
    if inside(xs, x) {
        let j = n / 2;
        assert(2 * j + 1 == n);
        assert(xs[2 * j].less(x) || xs[2 * j].same_number(x));
        assert(!(xs[n].less(x) || xs[n].same_number(x)));
        assert(in_pair(xs, x, j));
    }
    if exists|j: int| 0 <= j && 2 * j + 1 < xs.len() && #[trigger] in_pair(xs, x, j) {
        let j = choose|j: int| 0 <= j && 2 * j + 1 < xs.len() && #[trigger] in_pair(xs, x, j);
        assert(xs[2 * j].less(x) || xs[2 * j].same_number(x));
        assert(!(xs[2 * j + 1].less(x) || xs[2 * j + 1].same_number(x)));
    }
}

/// Whether a place is at or right of one crossing of a pair and left of the other.
pub open spec fn in_pair(xs: Seq<Real>, x: Real, j: int) -> bool {
    (xs[2 * j].less(x) || xs[2 * j].same_number(x)) && x.less(xs[2 * j + 1])
}

} // verus!
