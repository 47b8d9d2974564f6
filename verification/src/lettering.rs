//! Writing text into a picture, glyph after glyph.
use crate::font::{layout_line, Font, FontModel};
use crate::glyph_fill::{glyph_image, outline_lines, rasterize_glyph, GlyphImage, LineBox};
use crate::number::Real;
use crate::pixels::{cell, lemma_cell, pixel, pixel_at, Pixel};
use crate::retouch::{cover, mask_fits, masked};
use vstd::prelude::*;

verus! {

/// A picture with one cell changed.
pub open spec fn with_pixel(s: Seq<u8>, i: int, p: Pixel) -> Seq<u8> {
    s.update(4 * i, p.r).update(4 * i + 1, p.g).update(4 * i + 2, p.b).update(4 * i + 3, p.a)
}

fn set_pixel(v: &mut Vec<u8>, i: usize, p: Pixel)
    requires
        4 * i + 4 <= old(v).len(),
    ensures
        final(v)@ == with_pixel(old(v)@, i as int, p),
{
    v.set(4 * i, p.r);
    v.set(4 * i + 1, p.g);
    v.set(4 * i + 2, p.b);
    v.set(4 * i + 3, p.a);
}

/// Whether a picture can become another by laying cell `k` of a glyph's mask into it: the cell
/// comes to column `cols[k % gw]` of row `rows[k / gw]`, and only where the mask has some of it
/// and the place is in the picture.
pub open spec fn stamped_cell<L: Fn(Pixel, u8, u8) -> Pixel>(
    w: int,
    h: int,
    mask: Seq<u8>,
    gw: int,
    cols: Seq<i64>,
    rows: Seq<i64>,
    selection: Option<Seq<u8>>,
    lay: &L,
    k: int,
    before: Seq<u8>,
    after: Seq<u8>,
) -> bool {
    let px = cols[k % gw] as int;
    let py = rows[k / gw] as int;
    let c = cell(w, px, py);
    if 0 <= px < w && 0 <= py < h && mask[k] > 0 {
        exists|p: Pixel| #[trigger]
            (*lay).ensures((pixel(before, c), mask[k], cover(selection, c)), p) && after
                == with_pixel(before, c, p)
    } else {
        after == before
    }
}

/// Whether a picture can become another by laying the first `n` cells of a glyph's mask into
/// it, one after the other.
pub open spec fn stamped<L: Fn(Pixel, u8, u8) -> Pixel>(
    w: int,
    h: int,
    mask: Seq<u8>,
    gw: int,
    cols: Seq<i64>,
    rows: Seq<i64>,
    selection: Option<Seq<u8>>,
    lay: &L,
    n: int,
    before: Seq<u8>,
    after: Seq<u8>,
) -> bool
    decreases n,
{
    if n <= 0 {
        after == before
    } else {
        exists|mid: Seq<u8>| #[trigger]
            stamped_cell(w, h, mask, gw, cols, rows, selection, lay, n - 1, mid, after) && stamped(
                w,
                h,
                mask,
                gw,
                cols,
                rows,
                selection,
                lay,
                n - 1,
                before,
                mid,
            )
    }
}

/// Lays a glyph's mask of `gw` by `gh` cells into a picture. `lay` is what a cell becomes when
/// so much of it is covered and so much of it is selected.
pub fn stamp_mask<L: Fn(Pixel, u8, u8) -> Pixel>(
    pixels: &mut Vec<u8>,
    w: usize,
    h: usize,
    mask: &Vec<u8>,
    gw: usize,
    gh: usize,
    cols: &Vec<i64>,
    rows: &Vec<i64>,
    selection: Option<&[u8]>,
    lay: &L,
)
    requires
        4 * (w * h) <= old(pixels).len(),
        w <= i64::MAX,
        h <= i64::MAX,
        mask.len() == gw * gh,
        cols.len() == gw,
        rows.len() == gh,
        mask_fits(masked(selection), w * h),
        forall|p: Pixel, m: u8, c: u8| #[trigger] (*lay).requires((p, m, c)),
    ensures
        final(pixels).len() == old(pixels).len(),
        stamped(
            w as int,
            h as int,
            mask@,
            gw as int,
            cols@,
            rows@,
            masked(selection),
            lay,
            gw * gh,
            old(pixels)@,
            final(pixels)@,
        ),
{
    let n: usize = mask.len();
    let ghost start = pixels@;
    let mut k: usize = 0;
    let mut gx: usize = 0;
    let mut gy: usize = 0;
    while k < n
        invariant
            n == gw * gh,
            n == mask.len(),
            k <= n,
            k == cell(gw as int, gx as int, gy as int),
            k < n ==> gx < gw && gy < gh,
            cols.len() == gw,
            rows.len() == gh,
            4 * (w * h) <= pixels.len(),
            pixels.len() == old(pixels).len(),
            start == old(pixels)@,
            w <= i64::MAX,
            h <= i64::MAX,
            mask_fits(masked(selection), w * h),
            forall|p: Pixel, m: u8, c: u8| #[trigger] (*lay).requires((p, m, c)),
            stamped(
                w as int,
                h as int,
                mask@,
                gw as int,
                cols@,
                rows@,
                masked(selection),
                lay,
                k as int,
                start,
                pixels@,
            ),
        decreases n - k,
    {
        proof {
            lemma_cell(gw as int, gh as int, gx as int, gy as int);
        }
        let px: i64 = cols[gx];
        let py: i64 = rows[gy];
        let ghost before = pixels@;
        if 0 <= px && px < w as i64 && 0 <= py && py < h as i64 && mask[k] > 0 {
            proof {
                lemma_cell(w as int, h as int, px as int, py as int);
                assert(0 <= py * w) by (nonlinear_arith)
                    requires
                        0 <= py,
                        0 <= w,
                ;
            }
            let c: usize = py as usize * w + px as usize;
            let own: Pixel = pixel_at(pixels.as_slice(), c);
            let sel: u8 = match selection {
                Some(m) => m[c],
                None => 255,
            };
            let p: Pixel = lay(own, mask[k], sel);
            assert((*lay).ensures(
                (pixel(before, c as int), mask@[k as int], cover(masked(selection), c as int)),
                p,
            ));
            set_pixel(pixels, c, p);
        }
        assert(stamped_cell(
            w as int,
            h as int,
            mask@,
            gw as int,
            cols@,
            rows@,
            masked(selection),
            lay,
            k as int,
            before,
            pixels@,
        ));
        assert(stamped(
            w as int,
            h as int,
            mask@,
            gw as int,
            cols@,
            rows@,
            masked(selection),
            lay,
            k + 1,
            start,
            pixels@,
        )) by {
            assert(stamped_cell(
                w as int,
                h as int,
                mask@,
                gw as int,
                cols@,
                rows@,
                masked(selection),
                lay,
                k + 1 - 1,
                before,
                pixels@,
            ));
        }
        proof {
            crate::pixels::lemma_next_cell(gw as int, gh as int, gx as int, gy as int);
        }
        k = k + 1;
        if gx + 1 < gw {
            gx = gx + 1;
        } else {
            gx = 0;
            gy = gy + 1;
        }
        proof {
            if k < n && gy >= gh {
                assert(gy * gw >= gh * gw) by (nonlinear_arith)
                    requires
                        gy >= gh,
                        gw >= 0,
                ;
                assert(gh * gw == gw * gh) by (nonlinear_arith);
            }
        }
    }
    proof {
        if n == 0 {
            assert(gw * gh == 0);
        }
    }
}

/// Whether `cols` and `rows` can be the columns and rows of a picture that those of a glyph's
/// mask come to when the pen is at `pen`.
pub open spec fn spots<X: Fn(u64, LineBox, usize) -> i64, Y: Fn(LineBox, usize) -> i64>(
    image: GlyphImage,
    pen: int,
    col: &X,
    row: &Y,
    cols: Seq<i64>,
    rows: Seq<i64>,
) -> bool {
    &&& cols.len() == image.width
    &&& rows.len() == image.height
    &&& forall|x: int|
        0 <= x < cols.len() ==> (*col).ensures(
            (pen as u64, image.around, x as usize),
            #[trigger] cols[x],
        )
    &&& forall|y: int|
        0 <= y < rows.len() ==> (*row).ensures((image.around, y as usize), #[trigger] rows[y])
}

/// Whether a picture can become another by laying an image into it.
pub open spec fn laid_image<
    X: Fn(u64, LineBox, usize) -> i64,
    Y: Fn(LineBox, usize) -> i64,
    L: Fn(Pixel, u8, u8) -> Pixel,
>(
    i: GlyphImage,
    pen: int,
    w: int,
    h: int,
    selection: Option<Seq<u8>>,
    col: &X,
    row: &Y,
    lay: &L,
    before: Seq<u8>,
    after: Seq<u8>,
) -> bool {
    exists|cols: Seq<i64>, rows: Seq<i64>| #[trigger]
        spots(i, pen, col, row, cols, rows) && stamped(
            w,
            h,
            i.mask@,
            i.width as int,
            cols,
            rows,
            selection,
            lay,
            i.width * i.height,
            before,
            after,
        )
}

/// Whether a picture can become another by laying a glyph's image, if it has one, into it.
pub open spec fn laid<
    X: Fn(u64, LineBox, usize) -> i64,
    Y: Fn(LineBox, usize) -> i64,
    L: Fn(Pixel, u8, u8) -> Pixel,
>(
    image: Option<GlyphImage>,
    pen: int,
    w: int,
    h: int,
    selection: Option<Seq<u8>>,
    col: &X,
    row: &Y,
    lay: &L,
    before: Seq<u8>,
    after: Seq<u8>,
) -> bool {
    match image {
        None => after == before,
        Some(i) => laid_image(i, pen, w, h, selection, col, row, lay, before, after),
    }
}

/// Whether a picture can become another by writing character `k` of a text into it.
pub open spec fn written_one<
    F: Fn(LineBox) -> (usize, usize),
    C: Fn(LineBox, usize, u8, (i64, i64), (i64, i64)) -> Option<Real>,
    T: Fn(LineBox, usize) -> Real,
    X: Fn(u64, LineBox, usize) -> i64,
    Y: Fn(LineBox, usize) -> i64,
    L: Fn(Pixel, u8, u8) -> Pixel,
>(
    font: FontModel,
    text: Seq<char>,
    w: int,
    h: int,
    selection: Option<Seq<u8>>,
    frame: &F,
    cross: &C,
    target: &T,
    col: &X,
    row: &Y,
    lay: &L,
    k: int,
    before: Seq<u8>,
    after: Seq<u8>,
) -> bool {
    exists|image: Option<GlyphImage>| #[trigger]
        glyph_image(
            outline_lines(font.outline(font.glyph(text[k]))),
            frame,
            cross,
            target,
            image,
        ) && laid(image, font.pen(text, k), w, h, selection, col, row, lay, before, after)
}

/// Whether a picture can become another by writing the first `n` characters of a text into it.
pub open spec fn written<
    F: Fn(LineBox) -> (usize, usize),
    C: Fn(LineBox, usize, u8, (i64, i64), (i64, i64)) -> Option<Real>,
    T: Fn(LineBox, usize) -> Real,
    X: Fn(u64, LineBox, usize) -> i64,
    Y: Fn(LineBox, usize) -> i64,
    L: Fn(Pixel, u8, u8) -> Pixel,
>(
    font: FontModel,
    text: Seq<char>,
    w: int,
    h: int,
    selection: Option<Seq<u8>>,
    frame: &F,
    cross: &C,
    target: &T,
    col: &X,
    row: &Y,
    lay: &L,
    n: int,
    before: Seq<u8>,
    after: Seq<u8>,
) -> bool
    decreases n,
{
    if n <= 0 {
        after == before
    } else {
        exists|mid: Seq<u8>| #[trigger]
            written_one(
                font,
                text,
                w,
                h,
                selection,
                frame,
                cross,
                target,
                col,
                row,
                lay,
                n - 1,
                mid,
                after,
            ) && written(
                font,
                text,
                w,
                h,
                selection,
                frame,
                cross,
                target,
                col,
                row,
                lay,
                n - 1,
                before,
                mid,
            )
    }
}

/// Lays a glyph's image into a picture.
fn lay_image<
    X: Fn(u64, LineBox, usize) -> i64,
    Y: Fn(LineBox, usize) -> i64,
    L: Fn(Pixel, u8, u8) -> Pixel,
>(
    pixels: &mut Vec<u8>,
    w: usize,
    h: usize,
    image: &GlyphImage,
    pen: u64,
    selection: Option<&[u8]>,
    col: &X,
    row: &Y,
    lay: &L,
)
    requires
        4 * (w * h) <= old(pixels).len(),
        w <= i64::MAX,
        h <= i64::MAX,
        image.mask.len() == image.width * image.height,
        mask_fits(masked(selection), w * h),
        forall|p: u64, b: LineBox, x: usize| #[trigger] (*col).requires((p, b, x)),
        forall|b: LineBox, y: usize| #[trigger] (*row).requires((b, y)),
        forall|p: Pixel, m: u8, c: u8| #[trigger] (*lay).requires((p, m, c)),
    ensures
        final(pixels).len() == old(pixels).len(),
        laid(
            Some(*image),
            pen as int,
            w as int,
            h as int,
            masked(selection),
            col,
            row,
            lay,
            old(pixels)@,
            final(pixels)@,
        ),
{
    let mut cols: Vec<i64> = Vec::new();
    let mut x: usize = 0;
    while x < image.width
        invariant
            x <= image.width,
            cols.len() == x,
            forall|p: u64, b: LineBox, x: usize| #[trigger] (*col).requires((p, b, x)),
            forall|k: int|
                0 <= k < x ==> (*col).ensures(
                    (pen, image.around, k as usize),
                    #[trigger] cols@[k],
                ),
        decreases image.width - x,
    {
        let c: i64 = col(pen, image.around, x);
        cols.push(c);
        x = x + 1;
    }
    let mut rows: Vec<i64> = Vec::new();
    let mut y: usize = 0;
    while y < image.height
        invariant
            y <= image.height,
            rows.len() == y,
            forall|b: LineBox, y: usize| #[trigger] (*row).requires((b, y)),
            forall|k: int|
                0 <= k < y ==> (*row).ensures((image.around, k as usize), #[trigger] rows@[k]),
        decreases image.height - y,
    {
        let c: i64 = row(image.around, y);
        rows.push(c);
        y = y + 1;
    }
    assert(spots(*image, pen as int, col, row, cols@, rows@));
    stamp_mask(
        pixels,
        w,
        h,
        &image.mask,
        image.width,
        image.height,
        &cols,
        &rows,
        selection,
        lay,
    );
}

/// Writes a line of text into a picture of `w` by `h` cells. `frame`, `cross` and `target` say
/// how a glyph becomes a mask, `col` and `row` where in the picture a column and a row of that
/// mask come to, and `lay` what a cell becomes when so much of it is covered and selected.
pub fn apply_text<
    F: Fn(LineBox) -> (usize, usize),
    C: Fn(LineBox, usize, u8, (i64, i64), (i64, i64)) -> Option<Real>,
    T: Fn(LineBox, usize) -> Real,
    X: Fn(u64, LineBox, usize) -> i64,
    Y: Fn(LineBox, usize) -> i64,
    L: Fn(Pixel, u8, u8) -> Pixel,
>(
    pixels: &mut Vec<u8>,
    w: usize,
    h: usize,
    font: &Font,
    text: &str,
    selection: Option<&[u8]>,
    frame: &F,
    cross: &C,
    target: &T,
    col: &X,
    row: &Y,
    lay: &L,
)
    requires
        4 * (w * h) <= old(pixels).len(),
        w <= i64::MAX,
        h <= i64::MAX,
        0xffff * text@.len() <= u64::MAX,
        forall|k: int|
            0 <= k < text@.len() ==> font@.orderly_glyph(font@.glyph(#[trigger] text@[k])),
        mask_fits(masked(selection), w * h),
        forall|b: LineBox| #[trigger] (*frame).requires((b,)),
        forall|b: LineBox, s: (usize, usize)| #[trigger]
            (*frame).ensures((b,), s) ==> s.0 * s.1 <= usize::MAX,
        forall|f: LineBox, y: usize, s: u8, a: (i64, i64), b: (i64, i64)| #[trigger]
            (*cross).requires((f, y, s, a, b)),
        forall|f: LineBox, x: usize| #[trigger] (*target).requires((f, x)),
        forall|p: u64, b: LineBox, x: usize| #[trigger] (*col).requires((p, b, x)),
        forall|b: LineBox, y: usize| #[trigger] (*row).requires((b, y)),
        forall|p: Pixel, m: u8, c: u8| #[trigger] (*lay).requires((p, m, c)),
    ensures
        final(pixels).len() == old(pixels).len(),
        written(
            font@,
            text@,
            w as int,
            h as int,
            masked(selection),
            frame,
            cross,
            target,
            col,
            row,
            lay,
            text@.len() as int,
            old(pixels)@,
            final(pixels)@,
        ),
{
    let line: Vec<(u16, u64)> = layout_line(font, text);
    let ghost start = pixels@;
    let mut k: usize = 0;
    while k < line.len()
        invariant
            k <= line.len(),
            line.len() == text@.len(),
            forall|i: int|
                0 <= i < line.len() ==> (#[trigger] line[i]).0 == font@.glyph(text@[i])
                    && line[i].1 == font@.pen(text@, i),
            4 * (w * h) <= pixels.len(),
            pixels.len() == old(pixels).len(),
            start == old(pixels)@,
            w <= i64::MAX,
            h <= i64::MAX,
            forall|k: int|
                0 <= k < text@.len() ==> font@.orderly_glyph(font@.glyph(#[trigger] text@[k])),
            mask_fits(masked(selection), w * h),
            forall|b: LineBox| #[trigger] (*frame).requires((b,)),
            forall|b: LineBox, s: (usize, usize)| #[trigger]
                (*frame).ensures((b,), s) ==> s.0 * s.1 <= usize::MAX,
            forall|f: LineBox, y: usize, s: u8, a: (i64, i64), b: (i64, i64)| #[trigger]
                (*cross).requires((f, y, s, a, b)),
            forall|f: LineBox, x: usize| #[trigger] (*target).requires((f, x)),
            forall|p: u64, b: LineBox, x: usize| #[trigger] (*col).requires((p, b, x)),
            forall|b: LineBox, y: usize| #[trigger] (*row).requires((b, y)),
            forall|p: Pixel, m: u8, c: u8| #[trigger] (*lay).requires((p, m, c)),
            written(
                font@,
                text@,
                w as int,
                h as int,
                masked(selection),
                frame,
                cross,
                target,
                col,
                row,
                lay,
                k as int,
                start,
                pixels@,
            ),
        decreases line.len() - k,
    {
        let (id, pen): (u16, u64) = line[k];
        let ghost before = pixels@;
        assert(line@[k as int].0 == font@.glyph(text@[k as int]));
        let outline = font.glyph_outline(id);
        let image = rasterize_glyph(&outline, frame, cross, target);
        if let Some(i) = &image {
            lay_image(pixels, w, h, i, pen, selection, col, row, lay);
        }
        assert(laid(
            image,
            font@.pen(text@, k as int),
            w as int,
            h as int,
            masked(selection),
            col,
            row,
            lay,
            before,
            pixels@,
        ));
        assert(written_one(
            font@,
            text@,
            w as int,
            h as int,
            masked(selection),
            frame,
            cross,
            target,
            col,
            row,
            lay,
            k + 1 - 1,
            before,
            pixels@,
        ));
        k = k + 1;
    }
}

} // verus!
