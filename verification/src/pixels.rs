//! Pictures as rows of four-byte pixels: red, green, blue, alpha.
//!
//! Every function here is pure: it reads a picture and gives a new one.
use vstd::prelude::*;

verus! {

/// One pixel.
#[derive(Clone, Copy, Debug, PartialEq, Eq, Structural)]
pub struct Pixel {
    pub r: u8,
    pub g: u8,
    pub b: u8,
    pub a: u8,
}

/// Turning a layer without changing its size.
#[derive(Clone, Copy, Debug, PartialEq, Eq, Structural)]
pub enum LayerTransform {
    FlipH,
    FlipV,
    Rotate180,
}

/// Turning a whole document by a quarter, which swaps its width and height.
#[derive(Clone, Copy, Debug, PartialEq, Eq, Structural)]
pub enum CanvasRotate {
    Cw,
    Ccw,
}

/// A pixel without colour that hides nothing.
pub open spec fn clear() -> Pixel {
    Pixel { r: 0, g: 0, b: 0, a: 0 }
}

/// Cell `i` of a picture.
pub open spec fn pixel(s: Seq<u8>, i: int) -> Pixel {
    Pixel { r: s[4 * i], g: s[4 * i + 1], b: s[4 * i + 2], a: s[4 * i + 3] }
}

/// The four bytes of a pixel.
pub open spec fn bytes(p: Pixel) -> Seq<u8> {
    seq![p.r, p.g, p.b, p.a]
}

/// The cell in column `x` of row `y`.
pub open spec fn cell(w: int, x: int, y: int) -> int {
    y * w + x
}

/// Cell `i` of a picture.
pub fn pixel_at(s: &[u8], i: usize) -> (r: Pixel)
    requires
        4 * i + 4 <= s.len(),
    ensures
        r == pixel(s@, i as int),
{
    Pixel { r: s[4 * i], g: s[4 * i + 1], b: s[4 * i + 2], a: s[4 * i + 3] }
}

/// The pixel in column `x` of row `y` of a picture `w` wide, none past its end.
pub fn pick_pixel(s: &[u8], w: u32, x: u32, y: u32) -> (r: Option<Pixel>)
    ensures
        r == (if 4 * cell(w as int, x as int, y as int) + 4 <= s.len() {
            Some(pixel(s@, cell(w as int, x as int, y as int)))
        } else {
            None::<Pixel>
        }),
{
    assert(0 <= y * w <= 0xffff_ffff * 0xffff_ffff) by (nonlinear_arith)
        requires
            0 <= y <= 0xffff_ffff,
            0 <= w <= 0xffff_ffff,
    ;
    let i: u128 = y as u128 * w as u128 + x as u128;
    if 4 * i + 4 <= s.len() as u128 {
        Some(pixel_at(s, i as usize))
    } else {
        None
    }
}

/// Adds a pixel to the end of a picture.
pub fn push_pixel(v: &mut Vec<u8>, p: Pixel)
    ensures
        final(v)@ == old(v)@ + bytes(p),
{
    v.push(p.r);
    v.push(p.g);
    v.push(p.b);
    v.push(p.a);
    assert(v@ =~= old(v)@ + bytes(p));
}

/// The picture of `w` by `h` cells that `f` gives, column and row, with `tail` after it.
pub open spec fn painted(r: Seq<u8>, w: int, h: int, tail: Seq<u8>, f: spec_fn(int, int) -> Pixel) -> bool {
    &&& r.len() == 4 * (w * h) + tail.len()
    &&& forall|x: int, y: int|
        0 <= x < w && 0 <= y < h ==> pixel(r, #[trigger] cell(w, x, y)) == f(x, y)
    &&& forall|k: int|
        0 <= k < tail.len() ==> r[4 * (w * h) + k] == #[trigger] tail[k]
}

/// A cell of a picture lies in it.
pub(crate) proof fn lemma_cell(w: int, h: int, x: int, y: int)
    requires
        0 <= x < w,
        0 <= y < h,
    ensures
        0 <= cell(w, x, y) < w * h,
        cell(w, x, y) / w == y,
        cell(w, x, y) % w == x,
{
    assert(0 <= y * w + x < w * h) by (nonlinear_arith)
        requires
            0 <= x < w,
            0 <= y < h,
    ;
    vstd::arithmetic::div_mod::lemma_fundamental_div_mod_converse(y * w + x, w, y, x);
}

/// Every place below `w * h` is that of a cell.
pub(crate) proof fn lemma_cell_of(w: int, h: int, i: int)
    requires
        0 <= i < w * h,
        0 <= w,
    ensures
        0 < w,
        0 <= i % w < w,
        0 <= i / w < h,
        cell(w, i % w, i / w) == i,
{
    assert(w > 0) by (nonlinear_arith)
        requires
            0 <= i < w * h,
            0 <= w,
    ;
    vstd::arithmetic::div_mod::lemma_fundamental_div_mod(i, w);
    assert(i / w * w == w * (i / w)) by (nonlinear_arith);
    assert(i / w < h) by (nonlinear_arith)
        requires
            i < w * h,
            w > 0,
            i == w * (i / w) + i % w,
            i % w >= 0,
    ;
    assert(0 <= i / w) by (nonlinear_arith)
        requires
            0 <= i,
            w > 0,
    ;
}

/// Pictures with equal pixels and equal tails are equal.
pub(crate) proof fn lemma_painted_alike(
    a: Seq<u8>,
    b: Seq<u8>,
    w: int,
    h: int,
    tail: Seq<u8>,
    f: spec_fn(int, int) -> Pixel,
)
    requires
        0 <= w,
        0 <= h,
        painted(a, w, h, tail, f),
        painted(b, w, h, tail, f),
    ensures
        a == b,
{
    assert(0 <= w * h) by (nonlinear_arith)
        requires
            0 <= w,
            0 <= h,
    ;
    assert forall|k: int| 0 <= k < a.len() implies a[k] == b[k] by {
        if k < 4 * (w * h) {
            let i = k / 4;
            lemma_cell_of(w, h, i);
            assert(pixel(a, cell(w, i % w, i / w)) == pixel(b, cell(w, i % w, i / w)));
        } else {
            let t = tail[k - 4 * (w * h)];
        }
    }
    assert(a =~= b);
}

/// Adding a pixel keeps those before it.
pub(crate) proof fn lemma_pushed(s: Seq<u8>, p: Pixel, n: int)
    requires
        s.len() == 4 * n,
        0 <= n,
    ensures
        pixel(s + bytes(p), n) == p,
        forall|i: int|
            0 <= i < n ==> #[trigger] pixel(s + bytes(p), i) == pixel(s, i),
{
}

/// A step along a row.
pub(crate) proof fn lemma_next_cell(w: int, h: int, x: int, y: int)
    requires
        0 <= x < w,
        0 <= y < h,
    ensures
        cell(w, x, y) + 1 == (if x + 1 < w { cell(w, x + 1, y) } else { cell(w, 0, y + 1) }),
        cell(w, x, y) + 1 <= w * h,
{
    lemma_cell(w, h, x, y);
    assert((y + 1) * w == y * w + w) by (nonlinear_arith);
}

/// A picture of `w` by `h` cells of which each, column and row, is as `ok` allows, with `tail`
/// after it.
pub open spec fn woven(
    r: Seq<u8>,
    w: int,
    h: int,
    tail: Seq<u8>,
    ok: spec_fn(int, int, Pixel) -> bool,
) -> bool {
    &&& r.len() == 4 * (w * h) + tail.len()
    &&& forall|x: int, y: int|
        0 <= x < w && 0 <= y < h ==> ok(x, y, pixel(r, #[trigger] cell(w, x, y)))
    &&& forall|k: int| 0 <= k < tail.len() ==> r[4 * (w * h) + k] == #[trigger] tail[k]
}

/// A picture of `w` by `h` cells that `f` gives, with `tail` after it.
pub(crate) fn weave<F: Fn(usize, usize) -> Pixel>(
    w: usize,
    h: usize,
    tail: &Vec<u8>,
    f: F,
    Ghost(ok): Ghost<spec_fn(int, int, Pixel) -> bool>,
) -> (r: Vec<u8>)
    requires
        4 * (w * h) + tail.len() <= usize::MAX,
        forall|x: usize, y: usize| x < w && y < h ==> #[trigger] f.requires((x, y)),
        forall|x: usize, y: usize, p: Pixel|
            x < w && y < h && #[trigger] f.ensures((x, y), p) ==> ok(x as int, y as int, p),
    ensures
        woven(r@, w as int, h as int, tail@, ok),
{
    let mut out: Vec<u8> = Vec::new();
    let mut y: usize = 0;
    while y < h
        invariant
            y <= h,
            4 * (w * h) + tail.len() <= usize::MAX,
            forall|x: usize, y: usize| x < w && y < h ==> #[trigger] f.requires((x, y)),
            forall|x: usize, y: usize, p: Pixel|
                x < w && y < h && #[trigger] f.ensures((x, y), p) ==> ok(x as int, y as int, p),
            out.len() == 4 * cell(w as int, 0, y as int),
            forall|i: int, j: int|
                0 <= i < w && 0 <= j < h && cell(w as int, i, j) < cell(w as int, 0, y as int)
                    ==> ok(i, j, pixel(out@, #[trigger] cell(w as int, i, j))),
        decreases h - y,
    {
        let mut x: usize = 0;
        while x < w
            invariant
                x <= w,
                y < h,
                4 * (w * h) + tail.len() <= usize::MAX,
                forall|x: usize, y: usize| x < w && y < h ==> #[trigger] f.requires((x, y)),
                forall|x: usize, y: usize, p: Pixel|
                    x < w && y < h && #[trigger] f.ensures((x, y), p) ==> ok(
                        x as int,
                        y as int,
                        p,
                    ),
                out.len() == 4 * cell(w as int, x as int, y as int),
                forall|i: int, j: int|
                    0 <= i < w && 0 <= j < h && cell(w as int, i, j) < cell(
                        w as int,
                        x as int,
                        y as int,
                    ) ==> ok(i, j, pixel(out@, #[trigger] cell(w as int, i, j))),
            decreases w - x,
        {
            let p: Pixel = f(x, y);
            let ghost before = out@;
            let ghost n = cell(w as int, x as int, y as int);
            proof {
                lemma_cell(w as int, h as int, x as int, y as int);
                lemma_next_cell(w as int, h as int, x as int, y as int);
                lemma_pushed(before, p, n);
            }
            push_pixel(&mut out, p);
            assert forall|i: int, j: int|
                0 <= i < w && 0 <= j < h && cell(w as int, i, j) < n + 1 implies ok(
                i,
                j,
                pixel(out@, #[trigger] cell(w as int, i, j)),
            ) by {
                lemma_cell(w as int, h as int, i, j);
            }
            x = x + 1;
            assert(cell(w as int, w as int, y as int) == cell(w as int, 0, y + 1)) by {
                assert((y + 1) * w == y * w + w) by (nonlinear_arith);
            }
        }
        assert((y + 1) * w == y * w + w) by (nonlinear_arith);
        y = y + 1;
    }
    assert(cell(w as int, 0, h as int) == w * h) by {
        assert(h * w == w * h) by (nonlinear_arith);
    }
    let ghost body = out@;
    let mut k: usize = 0;
    while k < tail.len()
        invariant
            k <= tail.len(),
            out@ == body + tail@.take(k as int),
        decreases tail.len() - k,
    {
        out.push(tail[k]);
        k = k + 1;
        assert(out@ =~= body + tail@.take(k as int));
    }
    assert(tail@.take(tail.len() as int) =~= tail@);
    assert forall|x: int, y: int| 0 <= x < w && 0 <= y < h implies ok(
        x,
        y,
        pixel(out@, #[trigger] cell(w as int, x, y)),
    ) by {
        lemma_cell(w as int, h as int, x, y);
        assert(pixel(body, cell(w as int, x, y)) == pixel(out@, cell(w as int, x, y)));
    }
    out
}

/// As many zero bytes.
pub(crate) fn zero_bytes(n: usize) -> (r: Vec<u8>)
    ensures
        r@ == zeros(n as int),
{
    let mut v: Vec<u8> = Vec::new();
    let mut k: usize = 0;
    while k < n
        invariant
            k <= n,
            v@ == zeros(k as int),
        decreases n - k,
    {
        v.push(0);
        k = k + 1;
        assert(v@ =~= zeros(k as int));
    }
    v
}

/// A picture of `w` by `h` cells that takes each cell from where `from` says, or leaves it
/// clear, and then `tail` zero bytes.
fn gathered<F: Fn(usize, usize) -> Option<usize>>(
    src: &[u8],
    w: usize,
    h: usize,
    tail: usize,
    from: F,
    Ghost(place): Ghost<spec_fn(int, int) -> Option<int>>,
) -> (r: Vec<u8>)
    requires
        4 * (w * h) + tail <= usize::MAX,
        forall|x: usize, y: usize| x < w && y < h ==> #[trigger] from.requires((x, y)),
        forall|x: usize, y: usize, o: Option<usize>|
            x < w && y < h && #[trigger] from.ensures((x, y), o) ==> match o {
                Some(i) => place(x as int, y as int) == Some(i as int) && 4 * i + 4 <= src.len(),
                None => place(x as int, y as int) is None,
            },
    ensures
        painted(
            r@,
            w as int,
            h as int,
            zeros(tail as int),
            |x: int, y: int|
                match place(x, y) {
                    Some(i) => pixel(src@, i),
                    None => clear(),
                },
        ),
{
    let ghost f = |x: int, y: int|
        match place(x, y) {
            Some(i) => pixel(src@, i),
            None => clear(),
        };
    let ghost ok = |x: int, y: int, p: Pixel| p == f(x, y);
    let at = |x: usize, y: usize| -> (p: Pixel)
        requires
            x < w,
            y < h,
        ensures
            p == f(x as int, y as int),
        {
            match from(x, y) {
                Some(i) => pixel_at(src, i),
                None => Pixel { r: 0, g: 0, b: 0, a: 0 },
            }
        };
    let blank = zero_bytes(tail);
    let r = weave(w, h, &blank, at, Ghost(ok));
    assert forall|x: int, y: int| 0 <= x < w && 0 <= y < h implies pixel(
        r@,
        #[trigger] cell(w as int, x, y),
    ) == f(x, y) by {
        assert(ok(x, y, pixel(r@, cell(w as int, x, y))));
    }
    r
}

/// As many zeros.
pub open spec fn zeros(n: int) -> Seq<u8> {
    Seq::new(n as nat, |k: int| 0u8)
}

/// The cell that comes to column `x` of row `y` when a layer is turned.
pub open spec fn turned_from(op: LayerTransform, w: int, h: int, x: int, y: int) -> (int, int) {
    match op {
        LayerTransform::FlipH => (w - 1 - x, y),
        LayerTransform::FlipV => (x, h - 1 - y),
        LayerTransform::Rotate180 => (w - 1 - x, h - 1 - y),
    }
}

/// The pixel in column `x` of row `y` of a turned layer.
pub open spec fn turned_pixel(src: Seq<u8>, op: LayerTransform, w: int, h: int) -> spec_fn(
    int,
    int,
) -> Pixel {
    |x: int, y: int|
        pixel(
            src,
            cell(w, turned_from(op, w, h, x, y).0, turned_from(op, w, h, x, y).1),
        )
}

/// A turned layer of `width` by `height` cells. Bytes after those of the cells become zero.
pub fn apply_layer_transform(src: &[u8], width: usize, height: usize, op: LayerTransform) -> (r:
    Vec<u8>)
    requires
        4 * (width * height) <= src.len(),
    ensures
        r.len() == src.len(),
        painted(
            r@,
            width as int,
            height as int,
            zeros(src.len() - 4 * (width * height)),
            turned_pixel(src@, op, width as int, height as int),
        ),
{
    let ghost place = |x: int, y: int|
        {
            let (a, b) = turned_from(op, width as int, height as int, x, y);
            Some(cell(width as int, a, b))
        };
    let from = |x: usize, y: usize| -> (o: Option<usize>)
        requires
            x < width,
            y < height,
            4 * (width * height) <= src.len(),
        ensures
            o matches Some(i) && place(x as int, y as int) == Some(i as int) && 4 * i + 4
                <= src.len(),
        {
            let (a, b): (usize, usize) = match op {
                LayerTransform::FlipH => (width - 1 - x, y),
                LayerTransform::FlipV => (x, height - 1 - y),
                LayerTransform::Rotate180 => (width - 1 - x, height - 1 - y),
            };
            Some(cell_of(width, height, a, b, src.len()))
        };
    let used: usize = area(width, height, src.len());
    let r = gathered(src, width, height, src.len() - 4 * used, from, Ghost(place));
    proof {
        lemma_same_painting(
            r@,
            width as int,
            height as int,
            zeros(src.len() - 4 * (width * height)),
            |x: int, y: int|
                match place(x, y) {
                    Some(i) => pixel(src@, i),
                    None => clear(),
                },
            turned_pixel(src@, op, width as int, height as int),
        );
    }
    r
}

/// Functions that give the same pixels paint the same picture.
proof fn lemma_same_painting(
    r: Seq<u8>,
    w: int,
    h: int,
    tail: Seq<u8>,
    f: spec_fn(int, int) -> Pixel,
    g: spec_fn(int, int) -> Pixel,
)
    requires
        painted(r, w, h, tail, f),
        forall|x: int, y: int| 0 <= x < w && 0 <= y < h ==> f(x, y) == #[trigger] g(x, y),
    ensures
        painted(r, w, h, tail, g),
{
    assert forall|x: int, y: int| 0 <= x < w && 0 <= y < h implies pixel(
        r,
        #[trigger] cell(w, x, y),
    ) == g(x, y) by {
        assert(f(x, y) == g(x, y));
    }
}

/// How many cells a picture in `len` bytes has.
fn area(w: usize, h: usize, len: usize) -> (r: usize)
    requires
        4 * (w * h) <= len,
    ensures
        r == w * h,
{
    w * h
}

/// A cell of a picture in `len` bytes.
fn cell_of(w: usize, h: usize, x: usize, y: usize, len: usize) -> (r: usize)
    requires
        x < w,
        y < h,
        4 * (w * h) <= len,
    ensures
        r == cell(w as int, x as int, y as int),
        4 * r + 4 <= len,
{
    proof {
        lemma_cell(w as int, h as int, x as int, y as int);
    }
    assert(y * w + x < w * h);
    assert(0 <= y * w) by (nonlinear_arith)
        requires
            0 <= y,
            0 <= w,
    ;
    y * w + x
}

/// The cell of a `w` by `h` picture that comes to column `x` of row `y` of the picture turned
/// by a quarter.
pub open spec fn quarter_from(cw: bool, w: int, h: int, x: int, y: int) -> (int, int) {
    if cw {
        (y, h - 1 - x)
    } else {
        (w - 1 - y, x)
    }
}

/// The pixel in column `x` of row `y` of a picture turned by a quarter.
pub open spec fn quarter_pixel(src: Seq<u8>, cw: bool, w: int, h: int) -> spec_fn(
    int,
    int,
) -> Pixel {
    |x: int, y: int|
        pixel(src, cell(w, quarter_from(cw, w, h, x, y).0, quarter_from(cw, w, h, x, y).1))
}

/// A picture of `width` by `height` cells turned by a quarter: `height` by `width` cells,
/// clockwise or against the clock. Bytes after those of the cells become zero.
pub fn rotate_canvas_pixels(src: &[u8], width: usize, height: usize, cw: bool) -> (r: Vec<u8>)
    requires
        4 * (width * height) <= src.len(),
    ensures
        r.len() == src.len(),
        painted(
            r@,
            height as int,
            width as int,
            zeros(src.len() - 4 * (width * height)),
            quarter_pixel(src@, cw, width as int, height as int),
        ),
{
    let ghost place = |x: int, y: int|
        {
            let (a, b) = quarter_from(cw, width as int, height as int, x, y);
            Some(cell(width as int, a, b))
        };
    let from = |x: usize, y: usize| -> (o: Option<usize>)
        requires
            x < height,
            y < width,
            4 * (width * height) <= src.len(),
        ensures
            o matches Some(i) && place(x as int, y as int) == Some(i as int) && 4 * i + 4
                <= src.len(),
        {
            let (a, b): (usize, usize) = if cw {
                (y, height - 1 - x)
            } else {
                (width - 1 - y, x)
            };
            Some(cell_of(width, height, a, b, src.len()))
        };
    let used: usize = area(width, height, src.len());
    assert(height * width == width * height) by (nonlinear_arith);
    let r = gathered(src, height, width, src.len() - 4 * used, from, Ghost(place));
    proof {
        lemma_same_painting(
            r@,
            height as int,
            width as int,
            zeros(src.len() - 4 * (width * height)),
            |x: int, y: int|
                match place(x, y) {
                    Some(i) => pixel(src@, i),
                    None => clear(),
                },
            quarter_pixel(src@, cw, width as int, height as int),
        );
    }
    r
}

/// Where a cut begins: `at`, or the end of the picture.
pub open spec fn cut_start(size: int, at: int) -> int {
    if at < size {
        at
    } else {
        size
    }
}

/// How long a cut is: what the picture has from its beginning on, at most `want`, and at
/// least one.
pub open spec fn cut_size(size: int, at: int, want: int) -> int {
    let room = size - cut_start(size, at);
    let n = if want < room {
        want
    } else {
        room
    };
    if n < 1 {
        1
    } else {
        n
    }
}

/// The pixel in column `x` of row `y` of what is cut out of a picture `w` wide from column
/// `x0` of row `y0` on.
pub open spec fn cut_pixel(src: Seq<u8>, w: int, x0: int, y0: int) -> spec_fn(int, int) -> Pixel {
    |x: int, y: int| pixel(src, cell(w, x0 + x, y0 + y))
}

/// What is cut out of a picture of `src_width` by `src_height` cells: `crop_w` by `crop_h`
/// cells from column `x0` of row `y0` on, as far as the picture reaches and at least one cell.
pub fn crop_pixels(
    src: &[u8],
    src_width: usize,
    src_height: usize,
    x0: usize,
    y0: usize,
    crop_w: usize,
    crop_h: usize,
) -> (r: Vec<u8>)
    requires
        4 * (cell(
            src_width as int,
            cut_start(src_width as int, x0 as int),
            cut_start(src_height as int, y0 as int) + cut_size(
                src_height as int,
                y0 as int,
                crop_h as int,
            ) - 1,
        ) + cut_size(src_width as int, x0 as int, crop_w as int)) <= src.len(),
        4 * (cut_size(src_width as int, x0 as int, crop_w as int) * cut_size(
            src_height as int,
            y0 as int,
            crop_h as int,
        )) <= usize::MAX,
    ensures
        painted(
            r@,
            cut_size(src_width as int, x0 as int, crop_w as int),
            cut_size(src_height as int, y0 as int, crop_h as int),
            Seq::empty(),
            cut_pixel(
                src@,
                src_width as int,
                cut_start(src_width as int, x0 as int),
                cut_start(src_height as int, y0 as int),
            ),
        ),
{
    let left: usize = if x0 < src_width {
        x0
    } else {
        src_width
    };
    let top: usize = if y0 < src_height {
        y0
    } else {
        src_height
    };
    let w: usize = at_least_one(if crop_w < src_width - left {
        crop_w
    } else {
        src_width - left
    });
    let h: usize = at_least_one(if crop_h < src_height - top {
        crop_h
    } else {
        src_height - top
    });
    let ghost place = |x: int, y: int| Some(cell(src_width as int, left + x, top + y));
    let from = |x: usize, y: usize| -> (o: Option<usize>)
        requires
            x < w,
            y < h,
            top + h - 1 <= usize::MAX,
            4 * (cell(src_width as int, left as int, top + h - 1) + w) <= src.len(),
        ensures
            o matches Some(i) && place(x as int, y as int) == Some(i as int) && 4 * i + 4
                <= src.len(),
        {
            assert(0 <= (top + y) * src_width <= (top + h - 1) * src_width) by (nonlinear_arith)
                requires
                    0 <= y < h,
                    0 <= top,
                    0 <= src_width,
            ;
            Some((top + y) * src_width + (left + x))
        };
    let r = gathered(src, w, h, 0, from, Ghost(place));
    proof {
        assert(Seq::new(0, |k: int| 0u8) =~= Seq::<u8>::empty());
        lemma_same_painting(
            r@,
            w as int,
            h as int,
            Seq::empty(),
            |x: int, y: int|
                match place(x, y) {
                    Some(i) => pixel(src@, i),
                    None => clear(),
                },
            cut_pixel(src@, src_width as int, left as int, top as int),
        );
    }
    r
}

fn at_least_one(n: usize) -> (r: usize)
    ensures
        r == (if n < 1 { 1int } else { n as int }),
{
    if n < 1 {
        1
    } else {
        n
    }
}

/// The pixel in column `x` of row `y` of a layer moved by `dx` and `dy`: clear where nothing
/// comes from.
pub open spec fn moved_pixel(src: Seq<u8>, w: int, h: int, dx: int, dy: int) -> spec_fn(
    int,
    int,
) -> Pixel {
    |x: int, y: int|
        if 0 <= x - dx < w && 0 <= y - dy < h {
            pixel(src, cell(w, x - dx, y - dy))
        } else {
            clear()
        }
}

/// A layer moved by `dx` columns and `dy` rows. What leaves it is dropped, and what comes in
/// is clear. Bytes after those of the cells become zero.
pub fn shift_pixels(src: &[u8], width: usize, height: usize, dx: i32, dy: i32) -> (r: Vec<u8>)
    requires
        4 * (width * height) <= src.len(),
        width <= i32::MAX,
        height <= i32::MAX,
    ensures
        r.len() == src.len(),
        painted(
            r@,
            width as int,
            height as int,
            zeros(src.len() - 4 * (width * height)),
            moved_pixel(src@, width as int, height as int, dx as int, dy as int),
        ),
{
    let ghost place = |x: int, y: int|
        if 0 <= x - dx < width && 0 <= y - dy < height {
            Some(cell(width as int, x - dx, y - dy))
        } else {
            None::<int>
        };
    let from = |x: usize, y: usize| -> (o: Option<usize>)
        requires
            x < width,
            y < height,
            4 * (width * height) <= src.len(),
            width <= i32::MAX,
            height <= i32::MAX,
        ensures
            match o {
                Some(i) => place(x as int, y as int) == Some(i as int) && 4 * i + 4 <= src.len(),
                None => place(x as int, y as int) is None,
            },
        {
            let sx: i64 = x as i64 - dx as i64;
            let sy: i64 = y as i64 - dy as i64;
            if 0 <= sx && sx < width as i64 && 0 <= sy && sy < height as i64 {
                Some(cell_of(width, height, sx as usize, sy as usize, src.len()))
            } else {
                None
            }
        };
    let used: usize = area(width, height, src.len());
    let r = gathered(src, width, height, src.len() - 4 * used, from, Ghost(place));
    proof {
        lemma_same_painting(
            r@,
            width as int,
            height as int,
            zeros(src.len() - 4 * (width * height)),
            |x: int, y: int|
                match place(x, y) {
                    Some(i) => pixel(src@, i),
                    None => clear(),
                },
            moved_pixel(src@, width as int, height as int, dx as int, dy as int),
        );
    }
    r
}

} // verus!
