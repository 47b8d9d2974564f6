//! What turning, cutting and moving pictures undo of each other.
use crate::pixels::{
    cell, clear, cut_pixel, cut_size, lemma_painted_alike, moved_pixel, painted, pixel, quarter_from,
    quarter_pixel, turned_from, turned_pixel, woven, zeros, LayerTransform, Pixel,
};
use crate::retouch::{after_move, carried, rest, Area};
use vstd::prelude::*;

verus! {

/// A picture's own pixels.
pub open spec fn own_pixel(src: Seq<u8>, w: int) -> spec_fn(int, int) -> Pixel {
    |x: int, y: int| pixel(src, cell(w, x, y))
}

/// A picture whose pixels are those of another of its size is that other.
proof fn lemma_restored(src: Seq<u8>, r: Seq<u8>, w: int, h: int, f: spec_fn(int, int) -> Pixel)
    requires
        0 <= w,
        0 <= h,
        src.len() == 4 * (w * h),
        painted(r, w, h, zeros(0), f),
        forall|x: int, y: int|
            0 <= x < w && 0 <= y < h ==> #[trigger] f(x, y) == pixel(src, cell(w, x, y)),
    ensures
        r == src,
{
    let own = own_pixel(src, w);
    assert(painted(src, w, h, zeros(0), own));
    assert(painted(r, w, h, zeros(0), own)) by {
        assert forall|x: int, y: int| 0 <= x < w && 0 <= y < h implies pixel(
            r,
            #[trigger] cell(w, x, y),
        ) == own(x, y) by {
            assert(f(x, y) == pixel(src, cell(w, x, y)));
        }
    }
    lemma_painted_alike(r, src, w, h, zeros(0), own);
}

/// Turning a layer the same way twice gives the layer back.
pub proof fn turning_twice_restores(
    src: Seq<u8>,
    once: Seq<u8>,
    twice: Seq<u8>,
    w: int,
    h: int,
    op: LayerTransform,
)
    requires
        0 <= w,
        0 <= h,
        src.len() == 4 * (w * h),
        painted(once, w, h, zeros(0), turned_pixel(src, op, w, h)),
        painted(twice, w, h, zeros(0), turned_pixel(once, op, w, h)),
    ensures
        twice == src,
{
    let f = turned_pixel(once, op, w, h);
    assert forall|x: int, y: int| 0 <= x < w && 0 <= y < h implies #[trigger] f(x, y) == pixel(
        src,
        cell(w, x, y),
    ) by {
        let (a, b) = turned_from(op, w, h, x, y);
        assert(pixel(once, cell(w, a, b)) == turned_pixel(src, op, w, h)(a, b));
    }
    lemma_restored(src, twice, w, h, f);
}

/// A half turn is a flip of the columns and then of the rows.
pub proof fn half_turn_is_two_flips(
    src: Seq<u8>,
    across: Seq<u8>,
    down: Seq<u8>,
    half: Seq<u8>,
    w: int,
    h: int,
)
    requires
        0 <= w,
        0 <= h,
        painted(across, w, h, zeros(0), turned_pixel(src, LayerTransform::FlipH, w, h)),
        painted(down, w, h, zeros(0), turned_pixel(across, LayerTransform::FlipV, w, h)),
        painted(half, w, h, zeros(0), turned_pixel(src, LayerTransform::Rotate180, w, h)),
    ensures
        down == half,
{
    let f = turned_pixel(src, LayerTransform::Rotate180, w, h);
    assert(painted(down, w, h, zeros(0), f)) by {
        assert forall|x: int, y: int| 0 <= x < w && 0 <= y < h implies pixel(
            down,
            #[trigger] cell(w, x, y),
        ) == f(x, y) by {
            let across_f = turned_pixel(src, LayerTransform::FlipH, w, h);
            assert(pixel(across, cell(w, x, h - 1 - y)) == across_f(x, h - 1 - y));
        }
    }
    lemma_painted_alike(down, half, w, h, zeros(0), f);
}

/// A quarter turn one way and then the other gives the picture back.
pub proof fn quarters_cancel(
    src: Seq<u8>,
    once: Seq<u8>,
    twice: Seq<u8>,
    w: int,
    h: int,
    cw: bool,
)
    requires
        0 <= w,
        0 <= h,
        src.len() == 4 * (w * h),
        painted(once, h, w, zeros(0), quarter_pixel(src, cw, w, h)),
        painted(twice, w, h, zeros(0), quarter_pixel(once, !cw, h, w)),
    ensures
        twice == src,
{
    let f = quarter_pixel(once, !cw, h, w);
    assert forall|x: int, y: int| 0 <= x < w && 0 <= y < h implies #[trigger] f(x, y) == pixel(
        src,
        cell(w, x, y),
    ) by {
        let (a, b) = quarter_from(!cw, h, w, x, y);
        assert(pixel(once, cell(h, a, b)) == quarter_pixel(src, cw, w, h)(a, b));
    }
    lemma_restored(src, twice, w, h, f);
}

/// Two quarter turns the same way are a half turn.
pub proof fn two_quarters_are_a_half(
    src: Seq<u8>,
    once: Seq<u8>,
    twice: Seq<u8>,
    half: Seq<u8>,
    w: int,
    h: int,
    cw: bool,
)
    requires
        0 <= w,
        0 <= h,
        painted(once, h, w, zeros(0), quarter_pixel(src, cw, w, h)),
        painted(twice, w, h, zeros(0), quarter_pixel(once, cw, h, w)),
        painted(half, w, h, zeros(0), turned_pixel(src, LayerTransform::Rotate180, w, h)),
    ensures
        twice == half,
{
    let f = turned_pixel(src, LayerTransform::Rotate180, w, h);
    assert(painted(twice, w, h, zeros(0), f)) by {
        assert forall|x: int, y: int| 0 <= x < w && 0 <= y < h implies pixel(
            twice,
            #[trigger] cell(w, x, y),
        ) == f(x, y) by {
            let (a, b) = quarter_from(cw, h, w, x, y);
            assert(pixel(once, cell(h, a, b)) == quarter_pixel(src, cw, w, h)(a, b));
        }
    }
    lemma_painted_alike(twice, half, w, h, zeros(0), f);
}

/// Cutting out the whole picture gives the picture.
pub proof fn whole_cut_is_the_picture(src: Seq<u8>, r: Seq<u8>, w: int, h: int)
    requires
        0 <= w,
        0 <= h,
        src.len() == 4 * (w * h),
        painted(r, w, h, Seq::empty(), cut_pixel(src, w, 0, 0)),
    ensures
        r == src,
{
    assert(zeros(0) =~= Seq::<u8>::empty());
    lemma_restored(src, r, w, h, cut_pixel(src, w, 0, 0));
}

/// A cut of a cut is a cut: cutting cells out of what was cut out before
/// gives what cutting them out of the whole picture gives, as far as the first cut reaches. Both
/// cuts begin inside of what they cut.
pub proof fn a_cut_of_a_cut_is_a_cut(
    src: Seq<u8>,
    w: int,
    h: int,
    first: (int, int, int, int),
    once: Seq<u8>,
    second: (int, int, int, int),
    twice: Seq<u8>,
    direct: Seq<u8>,
)
    requires
        0 <= first.0 < w,
        0 <= first.1 < h,
        ({
            let w1 = cut_size(w, first.0, first.2);
            let h1 = cut_size(h, first.1, first.3);
            let w2 = cut_size(w1, second.0, second.2);
            let h2 = cut_size(h1, second.1, second.3);
            let x = first.0 + second.0;
            let y = first.1 + second.1;
            &&& 0 <= second.0 < w1
            &&& 0 <= second.1 < h1
            &&& painted(once, w1, h1, Seq::empty(), cut_pixel(src, w, first.0, first.1))
            &&& painted(twice, w2, h2, Seq::empty(), cut_pixel(once, w1, second.0, second.1))
            &&& painted(
                direct,
                cut_size(w, x, w2),
                cut_size(h, y, h2),
                Seq::empty(),
                cut_pixel(src, w, x, y),
            )
        }),
    ensures
        twice == direct,
{
    let w1 = cut_size(w, first.0, first.2);
    let h1 = cut_size(h, first.1, first.3);
    let w2 = cut_size(w1, second.0, second.2);
    let h2 = cut_size(h1, second.1, second.3);
    let (x0, y0) = (first.0 + second.0, first.1 + second.1);
    assert(cut_size(w, x0, w2) == w2 && cut_size(h, y0, h2) == h2);
    let f = cut_pixel(src, w, x0, y0);
    assert forall|x: int, y: int| 0 <= x < w2 && 0 <= y < h2 implies pixel(
        twice,
        #[trigger] cell(w2, x, y),
    ) == f(x, y) by {
        let (a, b) = (second.0 + x, second.1 + y);
        assert(0 <= a < w1 && 0 <= b < h1);
        assert(pixel(once, cell(w1, a, b)) == cut_pixel(src, w, first.0, first.1)(a, b));
        assert(first.0 + a == x0 + x && first.1 + b == y0 + y);
    }
    lemma_painted_alike(twice, direct, w2, h2, Seq::empty(), f);
}

/// Moving a layer nowhere gives the layer back.
pub proof fn moving_nowhere_restores(src: Seq<u8>, r: Seq<u8>, w: int, h: int)
    requires
        0 <= w,
        0 <= h,
        src.len() == 4 * (w * h),
        painted(r, w, h, zeros(0), moved_pixel(src, w, h, 0, 0)),
    ensures
        r == src,
{
    lemma_restored(src, r, w, h, moved_pixel(src, w, h, 0, 0));
}

/// Moving a layer and moving it back keeps the cells that stayed on it and clears the others.
pub proof fn moving_back_keeps_what_stayed(
    src: Seq<u8>,
    once: Seq<u8>,
    twice: Seq<u8>,
    w: int,
    h: int,
    dx: int,
    dy: int,
    x: int,
    y: int,
)
    requires
        0 <= x < w,
        0 <= y < h,
        painted(once, w, h, zeros(0), moved_pixel(src, w, h, dx, dy)),
        painted(twice, w, h, zeros(0), moved_pixel(once, w, h, -dx, -dy)),
    ensures
        pixel(twice, cell(w, x, y)) == (if 0 <= x + dx < w && 0 <= y + dy < h {
            pixel(src, cell(w, x, y))
        } else {
            clear()
        }),
{
    let g = moved_pixel(once, w, h, -dx, -dy);
    assert(pixel(twice, cell(w, x, y)) == g(x, y));
    if 0 <= x + dx < w && 0 <= y + dy < h {
        let f = moved_pixel(src, w, h, dx, dy);
        assert(pixel(once, cell(w, x + dx, y + dy)) == f(x + dx, y + dy));
    }
}

/// Moving a selection of all of an opaque picture is shifting the picture.
pub proof fn moving_everything_is_shifting<B: Fn(Pixel, Pixel, u8) -> Pixel>(
    src: Seq<u8>,
    moved: Seq<u8>,
    shifted: Seq<u8>,
    w: int,
    h: int,
    area: Area,
    dx: int,
    dy: int,
    blend: &B,
)
    requires
        0 < w,
        0 < h,
        src.len() == 4 * (w * h),
        forall|x: int, y: int|
            0 <= x < w && 0 <= y < h ==> pixel(src, #[trigger] cell(w, x, y)).a == 255,
        area.x == 0 && area.y == 0 && area.w == w && area.h == h,
        woven(moved, w, h, rest(src, w, h), after_move(src, w, h, area, None, dx, dy, blend)),
        painted(shifted, w, h, zeros(0), moved_pixel(src, w, h, dx, dy)),
    ensures
        moved == shifted,
{
    let f = moved_pixel(src, w, h, dx, dy);
    let ok = after_move(src, w, h, area, None, dx, dy, blend);
    assert(rest(src, w, h) =~= zeros(0));
    assert forall|x: int, y: int| 0 <= x < w && 0 <= y < h implies pixel(
        moved,
        #[trigger] cell(w, x, y),
    ) == f(x, y) by {
        let p = pixel(moved, cell(w, x, y));
        assert(ok(x, y, p));
        if 0 <= x - dx < w && 0 <= y - dy < h {
            assert(pixel(src, cell(w, x - dx, y - dy)).a == 255);
            assert(carried(src, w, h, area, None, x - dx, y - dy));
        }
    }
    assert(painted(moved, w, h, zeros(0), f));
    lemma_painted_alike(moved, shifted, w, h, zeros(0), f);
}

} // verus!
