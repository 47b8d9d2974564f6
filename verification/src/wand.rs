//! The magic wand: selecting what hangs together with a cell and looks like it.
use crate::pixels::{cell, lemma_cell, lemma_cell_of, pixel, pixel_at, Pixel};
use crate::selection::SelectionShape;
use std::collections::VecDeque;
use vstd::prelude::*;

verus! {

/// Whether two cells of a picture `w` wide share a side.
pub open spec fn beside(w: int, a: int, b: int) -> bool {
    ||| a % w == b % w && (a / w == b / w + 1 || b / w == a / w + 1)
    ||| a / w == b / w && (a % w == b % w + 1 || b % w == a % w + 1)
}

/// Whether a way leads from cell to cell beside it, over cells of the picture that `same` has.
pub open spec fn walk(same: Seq<bool>, w: int, path: Seq<int>) -> bool {
    &&& path.len() > 0
    &&& forall|i: int| 0 <= i < path.len() ==> 0 <= #[trigger] path[i] < same.len() && same[path[i]]
    &&& forall|i: int|
        0 < i < path.len() ==> beside(w, path[i - 1], #[trigger] path[i])
}

/// Whether a way leads from one cell to another.
pub open spec fn linked(same: Seq<bool>, w: int, from: int, to: int) -> bool {
    exists|path: Seq<int>| #[trigger]
        walk(same, w, path) && path[0] == from && path.last() == to
}

/// How many of the first `n` bytes of a mask are set.
pub open spec fn tally(mask: Seq<u8>, n: int) -> int
    decreases n,
{
    if n <= 0 {
        0
    } else {
        tally(mask, n - 1) + if mask[n - 1] == 255 {
            1int
        } else {
            0
        }
    }
}

/// A mask that has the cells a way leads to from `seed`, and no others.
pub open spec fn region(same: Seq<bool>, w: int, seed: int, mask: Seq<u8>) -> bool {
    &&& mask.len() == same.len()
    &&& forall|i: int|
        0 <= i < mask.len() ==> #[trigger] mask[i] == (if linked(same, w, seed, i) {
            255u8
        } else {
            0u8
        })
}

proof fn lemma_tally_set(mask: Seq<u8>, i: int, n: int)
    requires
        0 <= i < mask.len(),
        n <= mask.len(),
        mask[i] != 255,
    ensures
        tally(mask.update(i, 255), n) == tally(mask, n) + if i < n {
            1int
        } else {
            0
        },
    decreases n,
{
    if n > 0 {
        lemma_tally_set(mask, i, n - 1);
    }
}

proof fn lemma_tally_room(mask: Seq<u8>, n: int)
    requires
        0 <= n <= mask.len(),
    ensures
        0 <= tally(mask, n) <= n,
        (exists|i: int| 0 <= i < n && mask[i] != 255) ==> tally(mask, n) < n,
    decreases n,
{
    if n > 0 {
        lemma_tally_room(mask, n - 1);
        if exists|i: int| 0 <= i < n && mask[i] != 255 {
            let i = choose|i: int| 0 <= i < n && mask[i] != 255;
            if i < n - 1 {
                assert(mask[i] != 255);
            }
        }
    }
}

/// A way can be gone one cell further.
proof fn lemma_linked_beside(same: Seq<bool>, w: int, from: int, a: int, b: int)
    requires
        linked(same, w, from, a),
        0 <= b < same.len(),
        same[b],
        beside(w, a, b),
    ensures
        linked(same, w, from, b),
{
    let path = choose|path: Seq<int>| #[trigger]
        walk(same, w, path) && path[0] == from && path.last() == a;
    let longer = path.push(b);
    assert(walk(same, w, longer)) by {
        assert forall|i: int| 0 < i < longer.len() implies beside(
            w,
            longer[i - 1],
            #[trigger] longer[i],
        ) by {
            if i < path.len() {
                assert(beside(w, path[i - 1], path[i]));
            }
        }
    }
    assert(longer.last() == b && longer[0] == from);
}

/// A set of cells that has `from` and, with a cell, every cell beside it, has what a way from
/// `from` leads to.
proof fn lemma_closed_has(same: Seq<bool>, w: int, from: int, mask: Seq<u8>, path: Seq<int>, n: int)
    requires
        walk(same, w, path),
        path[0] == from,
        0 < n <= path.len(),
        mask.len() == same.len(),
        mask[from] == 255,
        forall|a: int, b: int|
            0 <= a < same.len() && 0 <= b < same.len() && mask[a] == 255 && #[trigger] beside(
                w,
                a,
                b,
            ) && same[b] ==> mask[b] == 255,
    ensures
        mask[path[n - 1]] == 255,
    decreases n,
{
    if n > 1 {
        lemma_closed_has(same, w, from, mask, path, n - 1);
        assert(beside(w, path[n - 2], path[n - 1]));
        assert(same[path[n - 1]]);
    }
}

/// Whether a cell waits in a queue of columns and rows.
spec fn waits(queue: Seq<(usize, usize)>, w: int, c: int) -> bool {
    exists|k: int|
        0 <= k < queue.len() && cell(w, (#[trigger] queue[k]).0 as int, queue[k].1 as int) == c
}

/// What holds while the region grows, but for cells beside `but`.
spec fn growing(
    same: Seq<bool>,
    w: int,
    h: int,
    seed: int,
    mask: Seq<u8>,
    queue: Seq<(usize, usize)>,
    but: int,
) -> bool {
    &&& same.len() == w * h
    &&& mask.len() == same.len()
    &&& 0 <= seed < same.len()
    &&& forall|i: int|
        0 <= i < mask.len() ==> (#[trigger] mask[i] == 0 || mask[i] == 255)
    &&& forall|i: int|
        0 <= i < mask.len() && #[trigger] mask[i] == 255 ==> same[i] && linked(same, w, seed, i)
    &&& forall|k: int|
        0 <= k < queue.len() ==> (#[trigger] queue[k]).0 < w && queue[k].1 < h
    &&& forall|k: int|
        0 <= k < queue.len() && same[cell(
            w,
            (#[trigger] queue[k]).0 as int,
            queue[k].1 as int,
        )] ==> linked(same, w, seed, cell(w, queue[k].0 as int, queue[k].1 as int))
    &&& forall|a: int, b: int|
        0 <= a < same.len() && 0 <= b < same.len() && mask[a] == 255 && a != but && same[b]
            && #[trigger] beside(w, a, b) ==> mask[b] == 255 || waits(queue, w, b)
    &&& same[seed] ==> mask[seed] == 255 || waits(queue, w, seed)
}

proof fn lemma_waits_push(queue: Seq<(usize, usize)>, w: int, p: (usize, usize))
    ensures
        waits(queue.push(p), w, cell(w, p.0 as int, p.1 as int)),
        forall|c: int| #[trigger] waits(queue, w, c) ==> waits(queue.push(p), w, c),
{
    let longer = queue.push(p);
    assert(longer[queue.len() as int] == p);
    assert forall|c: int| #[trigger] waits(queue, w, c) implies waits(longer, w, c) by {
        let k = choose|k: int|
            0 <= k < queue.len() && cell(w, (#[trigger] queue[k]).0 as int, queue[k].1 as int)
                == c;
        assert(longer[k] == queue[k]);
    }
}

/// Adding a cell beside a marked one keeps what holds.
proof fn lemma_growing_push(
    same: Seq<bool>,
    w: int,
    h: int,
    seed: int,
    mask: Seq<u8>,
    queue: Seq<(usize, usize)>,
    but: int,
    p: (usize, usize),
)
    requires
        growing(same, w, h, seed, mask, queue, but),
        p.0 < w,
        p.1 < h,
        0 <= but < same.len(),
        linked(same, w, seed, but),
        beside(w, but, cell(w, p.0 as int, p.1 as int)),
    ensures
        growing(same, w, h, seed, mask, queue.push(p), but),
{
    let c = cell(w, p.0 as int, p.1 as int);
    lemma_cell(w, h, p.0 as int, p.1 as int);
    lemma_waits_push(queue, w, p);
    if same[c] {
        lemma_linked_beside(same, w, seed, but, c);
    }
    let longer = queue.push(p);
    assert forall|k: int|
        0 <= k < longer.len() && same[cell(
            w,
            (#[trigger] longer[k]).0 as int,
            longer[k].1 as int,
        )] implies linked(same, w, seed, cell(w, longer[k].0 as int, longer[k].1 as int)) by {
        if k < queue.len() {
            assert(longer[k] == queue[k]);
        }
    }
}

/// Taking the first from the queue keeps what holds where that cell needs no marking.
proof fn lemma_growing_skip(
    same: Seq<bool>,
    w: int,
    h: int,
    seed: int,
    mask: Seq<u8>,
    queue: Seq<(usize, usize)>,
)
    requires
        growing(same, w, h, seed, mask, queue, -1),
        queue.len() > 0,
        !same[cell(w, queue[0].0 as int, queue[0].1 as int)] || mask[cell(
            w,
            queue[0].0 as int,
            queue[0].1 as int,
        )] == 255,
    ensures
        growing(same, w, h, seed, mask, queue.drop_first(), -1),
{
    let less = queue.drop_first();
    assert forall|k: int| 0 <= k < less.len() implies #[trigger] less[k] == queue[k + 1] by {}
    assert forall|c: int| #[trigger] waits(queue, w, c) implies waits(less, w, c) || c == cell(
        w,
        queue[0].0 as int,
        queue[0].1 as int,
    ) by {
        let k = choose|k: int|
            0 <= k < queue.len() && cell(w, (#[trigger] queue[k]).0 as int, queue[k].1 as int)
                == c;
        if k > 0 {
            assert(less[k - 1] == queue[k]);
        }
    }
}

/// Marking the first of the queue keeps what holds, but for the cells beside it.
proof fn lemma_growing_mark(
    same: Seq<bool>,
    w: int,
    h: int,
    seed: int,
    mask: Seq<u8>,
    queue: Seq<(usize, usize)>,
)
    requires
        growing(same, w, h, seed, mask, queue, -1),
        queue.len() > 0,
        same[cell(w, queue[0].0 as int, queue[0].1 as int)],
    ensures
        growing(
            same,
            w,
            h,
            seed,
            mask.update(cell(w, queue[0].0 as int, queue[0].1 as int), 255),
            queue.drop_first(),
            cell(w, queue[0].0 as int, queue[0].1 as int),
        ),
{
    let c0 = cell(w, queue[0].0 as int, queue[0].1 as int);
    lemma_cell(w, h, queue[0].0 as int, queue[0].1 as int);
    let less = queue.drop_first();
    let more = mask.update(c0, 255);
    assert forall|k: int| 0 <= k < less.len() implies #[trigger] less[k] == queue[k + 1] by {}
    assert forall|c: int| #[trigger] waits(queue, w, c) implies waits(less, w, c) || c == c0 by {
        let k = choose|k: int|
            0 <= k < queue.len() && cell(w, (#[trigger] queue[k]).0 as int, queue[k].1 as int)
                == c;
        if k > 0 {
            assert(less[k - 1] == queue[k]);
        }
    }
    assert forall|i: int| 0 <= i < more.len() && #[trigger] more[i] == 255 implies same[i]
        && linked(same, w, seed, i) by {
        if i != c0 {
            assert(mask[i] == 255);
        }
    }
    assert forall|a: int, b: int|
        0 <= a < same.len() && 0 <= b < same.len() && more[a] == 255 && a != c0 && same[b]
            && #[trigger] beside(w, a, b) implies more[b] == 255 || waits(less, w, b) by {
        assert(mask[a] == 255);
        assert(mask[b] == 255 || waits(queue, w, b));
    }
}

/// Once every cell beside the last marked one waits or is marked, nothing is left out.
proof fn lemma_growing_whole(
    same: Seq<bool>,
    w: int,
    h: int,
    seed: int,
    mask: Seq<u8>,
    queue: Seq<(usize, usize)>,
    x: int,
    y: int,
)
    requires
        0 <= x < w,
        0 <= y < h,
        growing(same, w, h, seed, mask, queue, cell(w, x, y)),
        x > 0 ==> waits(queue, w, cell(w, x - 1, y)),
        x + 1 < w ==> waits(queue, w, cell(w, x + 1, y)),
        y > 0 ==> waits(queue, w, cell(w, x, y - 1)),
        y + 1 < h ==> waits(queue, w, cell(w, x, y + 1)),
    ensures
        growing(same, w, h, seed, mask, queue, -1),
{
    let c = cell(w, x, y);
    lemma_cell(w, h, x, y);
    assert forall|b: int| 0 <= b < same.len() && #[trigger] beside(w, c, b) implies waits(
        queue,
        w,
        b,
    ) by {
        lemma_cell_of(w, h, b);
        let bx = b % w;
        let by = b / w;
        if bx == x {
            if by == y + 1 {
                assert(b == cell(w, x, y + 1));
            } else {
                assert(b == cell(w, x, y - 1));
            }
        } else {
            if bx == x + 1 {
                assert(b == cell(w, x + 1, y));
            } else {
                assert(b == cell(w, x - 1, y));
            }
        }
    }
}

/// The cells that hang together with the one in column `x` of row `y` over cells that `same`
/// has, as a mask, and how many they are.
fn grow(same: &Vec<bool>, w: usize, h: usize, x: usize, y: usize) -> (r: (Vec<u8>, usize))
    requires
        same.len() == w * h,
        x < w,
        y < h,
    ensures
        region(same@, w as int, cell(w as int, x as int, y as int), r.0@),
        r.1 == tally(r.0@, r.0.len() as int),
{
    let ghost seed = cell(w as int, x as int, y as int);
    proof {
        lemma_cell(w as int, h as int, x as int, y as int);
    }
    let n: usize = same.len();
    let mut mask: Vec<u8> = crate::pixels::zero_bytes(n);
    let mut queue: VecDeque<(usize, usize)> = VecDeque::new();
    let mut count: usize = 0;
    queue.push_back((x, y));
    proof {
        lemma_tally_zero(mask@, n as int);
        assert(queue@[0] == (x, y));
        assert(waits(queue@, w as int, seed));
        if same@[seed] {
            let path = seq![seed];
            assert(walk(same@, w as int, path));
            assert(path.last() == seed);
            assert(linked(same@, w as int, seed, seed));
        }
        assert(growing(same@, w as int, h as int, seed, mask@, queue@, -1));
    }
    while queue.len() > 0
        invariant
            n == same.len(),
            n == w * h,
            mask.len() == n,
            growing(same@, w as int, h as int, seed, mask@, queue@, -1),
            count == tally(mask@, n as int),
            count <= n,
        decreases n - count, queue.len(),
    {
        let ghost before = queue@;
        let ghost marked = mask@;
        if let Some((px, py)) = queue.pop_front() {
            assert(before[0] == (px, py));
            assert(queue@ =~= before.drop_first());
            proof {
                lemma_cell(w as int, h as int, px as int, py as int);
                assert(0 <= py * w) by (nonlinear_arith)
                    requires
                        0 <= py,
                        0 <= w,
                ;
            }
            let c: usize = py * w + px;
            if mask[c] == 255 || !same[c] {
                proof {
                    lemma_growing_skip(same@, w as int, h as int, seed, mask@, before);
                }
            } else {
                proof {
                    lemma_growing_mark(same@, w as int, h as int, seed, mask@, before);
                    lemma_tally_room(marked, n as int);
                    lemma_tally_set(marked, c as int, n as int);
                }
                mask.set(c, 255);
                count = count + 1;
                proof {
                    lemma_tally_room(mask@, n as int);
                }
                if px > 0 {
                    proof {
                        lemma_cell(w as int, h as int, px - 1, py as int);
                        lemma_growing_push(
                            same@,
                            w as int,
                            h as int,
                            seed,
                            mask@,
                            queue@,
                            c as int,
                            ((px - 1) as usize, py),
                        );
                        lemma_waits_push(queue@, w as int, ((px - 1) as usize, py));
                    }
                    queue.push_back((px - 1, py));
                }
                if px + 1 < w {
                    proof {
                        lemma_cell(w as int, h as int, px + 1, py as int);
                        lemma_growing_push(
                            same@,
                            w as int,
                            h as int,
                            seed,
                            mask@,
                            queue@,
                            c as int,
                            ((px + 1) as usize, py),
                        );
                        lemma_waits_push(queue@, w as int, ((px + 1) as usize, py));
                    }
                    queue.push_back((px + 1, py));
                }
                if py > 0 {
                    proof {
                        lemma_cell(w as int, h as int, px as int, py - 1);
                        lemma_growing_push(
                            same@,
                            w as int,
                            h as int,
                            seed,
                            mask@,
                            queue@,
                            c as int,
                            (px, (py - 1) as usize),
                        );
                        lemma_waits_push(queue@, w as int, (px, (py - 1) as usize));
                    }
                    queue.push_back((px, py - 1));
                }
                if py + 1 < h {
                    proof {
                        lemma_cell(w as int, h as int, px as int, py + 1);
                        lemma_growing_push(
                            same@,
                            w as int,
                            h as int,
                            seed,
                            mask@,
                            queue@,
                            c as int,
                            (px, (py + 1) as usize),
                        );
                        lemma_waits_push(queue@, w as int, (px, (py + 1) as usize));
                    }
                    queue.push_back((px, py + 1));
                }
                proof {
                    lemma_growing_whole(
                        same@,
                        w as int,
                        h as int,
                        seed,
                        mask@,
                        queue@,
                        px as int,
                        py as int,
                    );
                }
            }
        }
    }
    proof {
        assert forall|i: int| 0 <= i < mask@.len() implies #[trigger] mask@[i] == (if linked(
            same@,
            w as int,
            seed,
            i,
        ) {
            255u8
        } else {
            0u8
        }) by {
            if linked(same@, w as int, seed, i) {
                let path = choose|path: Seq<int>| #[trigger]
                    walk(same@, w as int, path) && path[0] == seed && path.last() == i;
                assert(same@[path[0]]);
                lemma_closed_has(same@, w as int, seed, mask@, path, path.len() as int);
            }
        }
    }
    (mask, count)
}

proof fn lemma_tally_zero(mask: Seq<u8>, n: int)
    requires
        n <= mask.len(),
        forall|i: int| 0 <= i < mask.len() ==> mask[i] == 0,
    ensures
        tally(mask, n) == 0,
    decreases n,
{
    if n > 0 {
        lemma_tally_zero(mask, n - 1);
    }
}

/// Whether `r` can be the answer to whether two pixels look alike: channel for channel.
pub open spec fn looks_alike<A: Fn(u8, u8) -> bool>(alike: &A, p: Pixel, q: Pixel, r: bool) -> bool {
    if r {
        &&& (*alike).ensures((p.r, q.r), true)
        &&& (*alike).ensures((p.g, q.g), true)
        &&& (*alike).ensures((p.b, q.b), true)
        &&& (*alike).ensures((p.a, q.a), true)
    } else {
        ||| (*alike).ensures((p.r, q.r), false)
        ||| (*alike).ensures((p.g, q.g), false)
        ||| (*alike).ensures((p.b, q.b), false)
        ||| (*alike).ensures((p.a, q.a), false)
    }
}

/// Whether `same` can be the cells of a picture that look like the cell `seed`.
pub open spec fn matching<A: Fn(u8, u8) -> bool>(
    alike: &A,
    pixels: Seq<u8>,
    n: int,
    seed: int,
    same: Seq<bool>,
) -> bool {
    &&& same.len() == n
    &&& forall|i: int|
        0 <= i < n ==> looks_alike(alike, pixel(pixels, i), pixel(pixels, seed), #[trigger] same[i])
}

/// What a picture has in column `x` of row `y` and all that hangs together with it and looks
/// like it, as a mask of one byte per cell, and how many cells that is. `alike` says whether a
/// channel is near enough to that of the cell to begin with.
pub fn flood_fill_mask<A: Fn(u8, u8) -> bool>(
    pixels: &[u8],
    width: usize,
    height: usize,
    x: usize,
    y: usize,
    alike: &A,
) -> (r: (Vec<u8>, usize))
    requires
        4 * (width * height) <= pixels.len(),
        x < width,
        y < height,
        forall|a: u8, b: u8| #[trigger] (*alike).requires((a, b)),
    ensures
        wand_mask(
            alike,
            pixels@,
            width as int,
            height as int,
            x as int,
            y as int,
            r.0@,
        ),
        r.1 == tally(r.0@, r.0.len() as int),
{
    proof {
        lemma_cell(width as int, height as int, x as int, y as int);
        assert(0 <= y * width) by (nonlinear_arith)
            requires
                0 <= y,
                0 <= width,
        ;
    }
    let n: usize = width * height;
    let start: usize = y * width + x;
    let seed: Pixel = pixel_at(pixels, start);
    let mut same: Vec<bool> = Vec::new();
    let mut i: usize = 0;
    while i < n
        invariant
            i <= n,
            4 * n <= pixels.len(),
            same.len() == i,
            seed == pixel(pixels@, start as int),
            forall|a: u8, b: u8| #[trigger] (*alike).requires((a, b)),
            forall|k: int|
                0 <= k < i ==> looks_alike(
                    alike,
                    pixel(pixels@, k),
                    pixel(pixels@, start as int),
                    #[trigger] same[k],
                ),
        decreases n - i,
    {
        let p: Pixel = pixel_at(pixels, i);
        let m: bool = alike(p.r, seed.r) && alike(p.g, seed.g) && alike(p.b, seed.b) && alike(
            p.a,
            seed.a,
        );
        same.push(m);
        i = i + 1;
    }
    assert(matching(alike, pixels@, width * height, start as int, same@));
    grow(&same, width, height, x, y)
}

/// What the wand selects, as a selection; none where it selects nothing.
pub fn magic_wand_select<A: Fn(u8, u8) -> bool>(
    pixels: &[u8],
    width: u32,
    height: u32,
    x: usize,
    y: usize,
    alike: &A,
) -> (r: Option<SelectionShape>)
    requires
        4 * (width * height) <= pixels.len(),
        x < width,
        y < height,
        forall|a: u8, b: u8| #[trigger] (*alike).requires((a, b)),
    ensures
        match r {
            Some(SelectionShape::Mask { width: mw, height: mh, data }) => {
                &&& mw == width
                &&& mh == height
                &&& wand_mask(alike, pixels@, width as int, height as int, x as int, y as int, data@)
                &&& tally(data@, data@.len() as int) > 0
            },
            Some(_) => false,
            None => exists|mask: Seq<u8>| #[trigger]
                wand_mask(alike, pixels@, width as int, height as int, x as int, y as int, mask)
                    && tally(mask, mask.len() as int) == 0,
        },
{
    let (mask, count) = flood_fill_mask(pixels, width as usize, height as usize, x, y, alike);
    assert(wand_mask(alike, pixels@, width as int, height as int, x as int, y as int, mask@));
    if count == 0 {
        return None;
    }
    Some(SelectionShape::Mask { width, height, data: mask })
}

/// Whether a mask can be what the wand selects.
pub open spec fn wand_mask<A: Fn(u8, u8) -> bool>(
    alike: &A,
    pixels: Seq<u8>,
    w: int,
    h: int,
    x: int,
    y: int,
    mask: Seq<u8>,
) -> bool {
    exists|same: Seq<bool>| #[trigger]
        matching(alike, pixels, w * h, cell(w, x, y), same) && region(same, w, cell(w, x, y), mask)
}

/// What the wand selects holds together: a cell beside a selected one that looks right is
/// selected too.
pub proof fn region_is_closed(same: Seq<bool>, w: int, seed: int, mask: Seq<u8>, a: int, b: int)
    requires
        region(same, w, seed, mask),
        0 <= a < mask.len(),
        0 <= b < mask.len(),
        mask[a] == 255,
        same[b],
        beside(w, a, b),
    ensures
        mask[b] == 255,
{
    lemma_linked_beside(same, w, seed, a, b);
}

/// What the wand selects looks right, every cell of it.
pub proof fn region_looks_right(same: Seq<bool>, w: int, seed: int, mask: Seq<u8>, a: int)
    requires
        region(same, w, seed, mask),
        0 <= a < mask.len(),
        mask[a] == 255,
    ensures
        same[a],
{
    let path = choose|path: Seq<int>| #[trigger]
        walk(same, w, path) && path[0] == seed && path.last() == a;
    assert(same[path[path.len() - 1]]);
}

/// The cell that the wand begins at is selected when it looks like itself.
pub proof fn region_has_its_seed(same: Seq<bool>, w: int, seed: int, mask: Seq<u8>)
    requires
        region(same, w, seed, mask),
        0 <= seed < mask.len(),
        same[seed],
    ensures
        mask[seed] == 255,
{
    let path = seq![seed];
    assert(walk(same, w, path));
    assert(path.last() == seed);
}

} // verus!
