//! What fonts and letters promise, told by the bytes of a file and the points of a contour.
use crate::font::{
    character_table, encoding_target, encodings, first_encoding, glyph_of, parsed, segment_of,
    table, tagged, word, FontError, FontModel,
};
use crate::glyph::{
    axis, contour, first_point, flags_from, simple_glyph, simple_outline, with_run, GlyphPoint,
};
use crate::glyph_fill::{
    bounds_lines, coverage, glyph_image, hits, inside, outline_lines, sides, sides_of_line, touched,
    GlyphImage, LineBox,
};
use crate::lettering::{laid, stamped, stamped_cell, written_one};
use crate::number::Real;
use crate::outline::{
    beginning, bend, bend_end, bends_join_their_ends, bent, drawn, fine, first_on, flattened,
    halves, ordered,
};
use crate::pixels::{cell, Pixel};
use vstd::prelude::*;

verus! {

/// The two bytes at a place, the higher first.
pub open spec fn pair_at(d: Seq<u8>, at: int) -> int {
    256 * d[at] + d[at + 1]
}

/// The two bytes at a place as a number that may be below zero.
pub open spec fn signed_pair_at(d: Seq<u8>, at: int) -> int {
    if d[at] >= 128 {
        pair_at(d, at) - 65536
    } else {
        pair_at(d, at)
    }
}

/// Whether the flags from `p` up to `q` are those of some points: one byte for one point, and after
/// one that has the bit for it, a byte that says how many points more it is for.
pub open spec fn unpacks(d: Seq<u8>, p: int, q: int, flags: Seq<u8>) -> bool
    decreases flags.len(),
{
    if flags.len() == 0 {
        q == p
    } else if 0 <= p < d.len() && d[p] & 8 == 0 {
        flags[0] == d[p] && unpacks(d, p + 1, q, flags.skip(1))
    } else {
        let run = if d[p + 1] + 1 < flags.len() { d[p + 1] + 1 } else { flags.len() as int };
        &&& 0 <= p && p + 1 < d.len()
        &&& forall|i: int| 0 <= i < run ==> #[trigger] flags[i] == d[p]
        &&& unpacks(d, p + 2, q, flags.skip(run))
    }
}

proof fn lemma_unpacks(d: Seq<u8>, p: int, got: Seq<u8>, want: int)
    requires
        0 <= p,
        got.len() <= want,
        flags_from(d, p, got, want) is Some,
    ensures
        ({
            let (flags, q) = flags_from(d, p, got, want)->0;
            &&& flags.len() == want
            &&& flags.take(got.len() as int) == got
            &&& unpacks(d, p, q, flags.skip(got.len() as int))
        }),
    decreases want - got.len(),
{
    let (flags, q) = flags_from(d, p, got, want)->0;
    let n = got.len() as int;
    if n >= want {
        assert(flags.take(n) =~= got);
        assert(flags.skip(n).len() == 0);
    } else {
        let f = d[p];
        let rest = flags.skip(n);
        if f & 8 == 0 {
            let more = got.push(f);
            lemma_unpacks(d, p + 1, more, want);
            assert(flags.take(n + 1)[n] == more[n]);
            assert(flags.take(n) =~= got) by {
                assert forall|i: int| 0 <= i < n implies flags[i] == got[i] by {
                    assert(flags.take(n + 1)[i] == more[i]);
                }
            }
            assert(rest.skip(1) =~= flags.skip(n + 1));
            assert(rest[0] == f);
        } else {
            let more = with_run(got, f, 1 + d[p + 1], want);
            lemma_unpacks(d, p + 2, more, want);
            let m = more.len() as int;
            let run = m - n;
            assert(flags.take(n) =~= got) by {
                assert forall|i: int| 0 <= i < n implies flags[i] == got[i] by {
                    assert(flags.take(m)[i] == more[i]);
                }
            }
            assert forall|i: int| 0 <= i < run implies #[trigger] rest[i] == f by {
                assert(flags.take(m)[n + i] == more[n + i]);
            }
            assert(rest.skip(run) =~= flags.skip(m));
        }
    }
}

/// Whether a coordinate steps as a flag says from `before` to `now`, reading the file from `at` up to
/// `next`. With its short bit the step is one byte, up with its other bit and down without; with the
/// other bit alone there is no step, and with neither it is two bytes.
pub open spec fn steps(
    d: Seq<u8>,
    short: bool,
    other: bool,
    before: int,
    now: int,
    at: int,
    next: int,
) -> bool {
    if short && other {
        at < d.len() && now == before + d[at] && next == at + 1
    } else if short {
        at < d.len() && now == before - d[at] && next == at + 1
    } else if other {
        now == before && next == at
    } else {
        at + 2 <= d.len() && now == before + signed_pair_at(d, at) && next == at + 2
    }
}

/// Whether `xs` are the coordinates of points, step by step from nothing on, where `at` are the
/// places in the file that the steps are read at.
pub open spec fn walks(
    d: Seq<u8>,
    flags: Seq<u8>,
    short: u8,
    other: u8,
    xs: Seq<int>,
    at: Seq<int>,
) -> bool {
    &&& xs.len() == flags.len()
    &&& at.len() == flags.len() + 1
    &&& forall|i: int|
        0 <= i < flags.len() ==> steps(
            d,
            #[trigger] flags[i] & short != 0,
            flags[i] & other != 0,
            if i == 0 {
                0
            } else {
                xs[i - 1]
            },
            xs[i],
            at[i],
            at[i + 1],
        )
}

proof fn lemma_walks(d: Seq<u8>, p: int, flags: Seq<u8>, n: int, short: u8, other: u8) -> (at: Seq<
    int,
>)
    requires
        0 <= p,
        0 <= n <= flags.len(),
        axis(d, p, flags, n, short, other) is Some,
    ensures
        ({
            let (xs, q) = axis(d, p, flags, n, short, other)->0;
            &&& walks(d, flags.take(n), short, other, xs, at)
            &&& at[0] == p
            &&& at[n] == q
            &&& q >= p
        }),
    decreases n,
{
    if n <= 0 {
        seq![p]
    } else {
        let less = lemma_walks(d, p, flags, n - 1, short, other);
        let (s, q) = axis(d, p, flags, n - 1, short, other)->0;
        let (xs, r) = axis(d, p, flags, n, short, other)->0;
        let at = less.push(r);
        let some = flags.take(n);
        assert forall|i: int| 0 <= i < some.len() implies steps(
            d,
            #[trigger] some[i] & short != 0,
            some[i] & other != 0,
            if i == 0 {
                0
            } else {
                xs[i - 1]
            },
            xs[i],
            at[i],
            at[i + 1],
        ) by {
            if i < n - 1 {
                assert(flags.take(n - 1)[i] == some[i]);
                assert(xs[i] == s[i]);
            } else {
                assert(some[i] == flags[n - 1]);
                if n > 1 {
                    assert(s.last() == xs[i - 1]);
                }
            }
        }
        at
    }
}

/// The points of a simple glyph are read from the file one kind after the other: their flags, then
/// the steps along the width, then those along the height. Each contour has the points from the one
/// after the last of the contour before it up to its own last, as the list at its head says, and a
/// point is on the curve where its flag has the lowest bit.
pub proof fn glyphs_are_read_point_by_point(
    d: Seq<u8>,
    g: int,
    n: int,
    contours: Seq<Seq<GlyphPoint>>,
)
    requires
        0 <= g,
        0 < n,
        simple_outline(d, g, n) == Some(contours),
    ensures
        exists|flags: Seq<u8>, xs: Seq<int>, ys: Seq<int>, p: int, ax: Seq<int>, ay: Seq<int>|
            {
                &&& #[trigger] unpacks(
                    d,
                    g + 12 + 2 * n + pair_at(d, g + 10 + 2 * n),
                    p,
                    flags,
                )
                &&& flags.len() == pair_at(d, g + 8 + 2 * n) + 1
                &&& #[trigger] walks(d, flags, 2, 16, xs, ax)
                &&& #[trigger] walks(d, flags, 4, 32, ys, ay)
                &&& ax[0] == p
                &&& ay[0] == ax[flags.len() as int]
                &&& contours.len() == n
                &&& forall|k: int|
                    0 <= k < n ==> is_contour(d, g, k, flags, xs, ys, #[trigger] contours[k])
            },
{
    let (flags, xs, ys) = simple_glyph(d, g, n)->0;
    let from = g + 12 + 2 * n + word(d, g + 10 + 2 * n);
    let want = first_point(d, g, n);
    lemma_unpacks(d, from, Seq::empty(), want);
    let p = (flags_from(d, from, Seq::empty(), want)->0).1;
    assert(flags.skip(0) =~= flags);
    lemma_unpacks_forward(d, from, p, flags);
    let ax = lemma_walks(d, p, flags, flags.len() as int, 2, 16);
    let q = (axis(d, p, flags, flags.len() as int, 2, 16)->0).1;
    let ay = lemma_walks(d, q, flags, flags.len() as int, 4, 32);
    assert(flags.take(flags.len() as int) =~= flags);
    assert(walks(d, flags, 2, 16, xs, ax) && walks(d, flags, 4, 32, ys, ay));
    assert(word(d, g + 10 + 2 * n) == pair_at(d, g + 10 + 2 * n));
    assert(unpacks(d, g + 12 + 2 * n + pair_at(d, g + 10 + 2 * n), p, flags));
    assert(g + 10 + 2 * (n - 1) == g + 8 + 2 * n);
    assert(flags.len() == pair_at(d, g + 8 + 2 * n) + 1);
    assert(contours.len() == n);
    assert forall|k: int| 0 <= k < n implies is_contour(
        d,
        g,
        k,
        flags,
        xs,
        ys,
        #[trigger] contours[k],
    ) by {
        assert(contours[k] == contour(d, g, k, (flags, xs, ys)));
        assert(g + 10 + 2 * (k - 1) == g + 8 + 2 * k);
    }
}

proof fn lemma_unpacks_forward(d: Seq<u8>, p: int, q: int, flags: Seq<u8>)
    requires
        unpacks(d, p, q, flags),
    ensures
        q >= p,
    decreases flags.len(),
{
    if flags.len() > 0 {
        if 0 <= p < d.len() && d[p] & 8 == 0 {
            lemma_unpacks_forward(d, p + 1, q, flags.skip(1));
        } else {
            let run = if d[p + 1] + 1 < flags.len() { d[p + 1] + 1 } else { flags.len() as int };
            lemma_unpacks_forward(d, p + 2, q, flags.skip(run));
        }
    }
}

/// Whether some points are those of contour `k`, from the one after the last of the contour before.
pub open spec fn is_contour(
    d: Seq<u8>,
    g: int,
    k: int,
    flags: Seq<u8>,
    xs: Seq<int>,
    ys: Seq<int>,
    points: Seq<GlyphPoint>,
) -> bool {
    let first = if k == 0 {
        0
    } else {
        pair_at(d, g + 8 + 2 * k) + 1
    };
    let last = pair_at(d, g + 10 + 2 * k);
    &&& first <= last + 1 ==> points.len() == last + 1 - first
    &&& forall|i: int|
        0 <= i < points.len() ==> (#[trigger] points[i]).x == xs[first + i] as i32 && points[i].y
            == ys[first + i] as i32 && points[i].on_curve == (flags[first + i] & 1 != 0)
}

/// A character is in the first segment that does not end before it. Where that segment begins after
/// the character the font has none. A segment without a list adds its number to the character, and
/// one with a list adds it to what the list has for the character, where that is not nothing.
pub proof fn characters_are_found_in_their_segment(d: Seq<u8>, sub: int, c: int, n: int, s: int)
    requires
        0 <= sub,
        sub + 14 <= d.len(),
        n == pair_at(d, sub + 6) / 2,
        sub + 16 + 8 * n <= d.len(),
        0 <= s < n,
        c <= pair_at(d, sub + 14 + 2 * s),
        forall|i: int| 0 <= i < s ==> #[trigger] pair_at(d, sub + 14 + 2 * i) < c,
    ensures
        ({
            let first = pair_at(d, sub + 16 + 2 * n + 2 * s);
            let add = pair_at(d, sub + 16 + 4 * n + 2 * s);
            let at = sub + 16 + 6 * n + 2 * s;
            let way = pair_at(d, at);
            let entry = at + way + 2 * (c - first);
            &&& c < first ==> glyph_of(d, sub, c) == 0
            &&& c >= first && way == 0 ==> glyph_of(d, sub, c) == (c + add) % 65536
            &&& c >= first && way != 0 && entry + 2 <= d.len() && pair_at(d, entry) != 0
                ==> glyph_of(d, sub, c) == (pair_at(d, entry) + add) % 65536
            &&& c >= first && way != 0 && (entry + 2 > d.len() || pair_at(d, entry) == 0)
                ==> glyph_of(d, sub, c) == 0
        }),
{
    lemma_segment(d, sub, n, c, s, 0);
}

/// Where every segment ends before a character the font has no glyph for it.
pub proof fn characters_past_all_segments_have_no_glyph(d: Seq<u8>, sub: int, c: int, n: int)
    requires
        0 <= sub,
        sub + 14 <= d.len(),
        n == pair_at(d, sub + 6) / 2,
        forall|i: int| 0 <= i < n ==> #[trigger] pair_at(d, sub + 14 + 2 * i) < c,
    ensures
        glyph_of(d, sub, c) == 0,
{
    lemma_segment(d, sub, n, c, n, 0);
}

proof fn lemma_segment(d: Seq<u8>, sub: int, n: int, c: int, s: int, i: int)
    requires
        0 <= i <= s <= n,
        s < n ==> c <= pair_at(d, sub + 14 + 2 * s),
        forall|j: int| 0 <= j < s ==> #[trigger] pair_at(d, sub + 14 + 2 * j) < c,
    ensures
        segment_of(d, sub, n, c, i) == s,
    decreases s - i,
{
    assert(word(d, sub + 14 + i * 2) == pair_at(d, sub + 14 + 2 * i));
    if i < s {
        lemma_segment(d, sub, n, c, s, i + 1);
    }
}

/// The pen goes on by the advance of each letter: it stands after a text where it stood before its
/// last letter, and that letter's own width further.
pub proof fn pens_go_on_by_advances(font: FontModel, text: Seq<char>, i: int)
    requires
        0 <= i < text.len(),
    ensures
        font.pen(text, 0) == 0,
        font.pen(text, i + 1) - font.pen(text, i) == font.advance(font.glyph(text[i])),
{
}

proof fn lemma_first_on(pts: Seq<GlyphPoint>, i: int)
    requires
        0 <= i <= pts.len(),
        pts.len() > 0,
    ensures
        0 <= first_on(pts, i) < pts.len(),
        (exists|k: int| i <= k < pts.len() && (#[trigger] pts[k]).on_curve) ==> pts[first_on(
            pts,
            i,
        )].on_curve,
        first_on(pts, i) != 0 ==> pts[first_on(pts, i)].on_curve,
    decreases pts.len() - i,
{
    if i < pts.len() && !pts[i].on_curve {
        lemma_first_on(pts, i + 1);
    }
}

/// The lines so far end where they have come to.
proof fn lemma_drawn(pts: Seq<GlyphPoint>, n: int)
    requires
        pts.len() > 0,
        0 <= n <= pts.len(),
    ensures
        drawn(pts, n).0.len() > 0,
        drawn(pts, n).0[drawn(pts, n).0.len() - 1] == fine(drawn(pts, n).1),
        n > 1 ==> drawn(pts, n).0.len() > 1 || first_on(pts, 0) == 0,
    decreases n,
{
    if n > 0 {
        lemma_drawn(pts, n - 1);
        let (out, cur) = drawn(pts, n - 1);
        let p = ordered(pts)[n - 1];
        lemma_first_on(pts, 0);
        if p.on_curve {
            if n - 1 == first_on(pts, 0) && out.len() == 1 {
                if n == 1 {
                    assert(beginning(pts) == halves(p));
                    assert(out == seq![fine(beginning(pts))]);
                } else {
                    assert(first_on(pts, 0) != 0);
                    lemma_two(pts, n - 1);
                }
            }
        } else {
            let end = bend_end(pts, n - 1);
            let more = bent(cur, halves(p), end, 8);
            assert(more[7] == fine(end)) by {
                let c = halves(p);
                crate::outline::bends_join_their_ends(cur.0, c.0, end.0);
                crate::outline::bends_join_their_ends(cur.1, c.1, end.1);
            }
        }
    }
}

/// A contour that does not begin with its first point has drawn more than one place after one point.
proof fn lemma_two(pts: Seq<GlyphPoint>, n: int)
    requires
        pts.len() > 0,
        1 <= n <= pts.len(),
        first_on(pts, 0) != 0,
    ensures
        drawn(pts, n).0.len() > 1,
    decreases n,
{
    lemma_first_on(pts, 0);
    if n > 1 {
        lemma_two(pts, n - 1);
    } else {
        reveal_with_fuel(drawn, 2);
        assert(ordered(pts)[0] == pts[first_on(pts, 0)]) by {
            assert((first_on(pts, 0) + 0) % (pts.len() as int) == first_on(pts, 0)) by (nonlinear_arith)
                requires
                    0 <= first_on(pts, 0) < pts.len(),
            ;
        }
    }
}

proof fn lemma_drawn_grows(pts: Seq<GlyphPoint>, n: int, m: int, v: (int, int))
    requires
        pts.len() > 0,
        0 <= n <= m <= pts.len(),
        drawn(pts, n).0.contains(v),
    ensures
        drawn(pts, m).0.contains(v),
    decreases m,
{
    if n < m {
        lemma_drawn_grows(pts, n, m - 1, v);
        let less = drawn(pts, m - 1).0;
        let i = less.index_of(v);
        assert(drawn(pts, m).0[i] == v);
    }
}

/// The lines of a contour go through every point that is on its curve, and between two points that
/// follow each other and are not, through the middle of them. They are in 128ths of a unit.
pub proof fn lines_go_through_the_curve(pts: Seq<GlyphPoint>, i: int)
    requires
        0 <= i < pts.len(),
    ensures
        ({
            let j = if i == pts.len() - 1 {
                0
            } else {
                i + 1
            };
            let (p, q) = (pts[i], pts[j]);
            &&& p.on_curve ==> flattened(pts).contains((128 * p.x, 128 * p.y))
            &&& !p.on_curve && !q.on_curve ==> flattened(pts).contains(
                (64 * (p.x + q.x), 64 * (p.y + q.y)),
            )
        }),
{
    let n = pts.len() as int;
    let s = first_on(pts, 0);
    lemma_first_on(pts, 0);
    let k = if i >= s {
        i - s
    } else {
        i - s + n
    };
    assert((s + k) % n == i) by (nonlinear_arith)
        requires
            0 <= i < n,
            s + k == i || s + k == i + n,
    ;
    let j = if i == n - 1 {
        0
    } else {
        i + 1
    };
    let l = (k + 1) % n;
    assert(ordered(pts)[k] == pts[i]);
    assert(0 <= l < n && (s + l) % n == j) by (nonlinear_arith)
        requires
            n > 0,
            0 <= k < n,
            0 <= s < n,
            l == (k + 1) % n,
            (s + k) % n == i,
            j == (if i == n - 1 { 0 } else { i + 1 }),
            s + k == i || s + k == i + n,
    ;
    assert(ordered(pts)[l] == pts[j]);
    lemma_drawn(pts, k + 1);
    let out = drawn(pts, k + 1).0;
    let cur = drawn(pts, k + 1).1;
    assert(out.contains(out[out.len() - 1]));
    assert(out.contains(fine(cur)));
    lemma_drawn_grows(pts, k + 1, n, fine(cur));
    if pts[i].on_curve {
        assert(cur == halves(pts[i]));
    } else if !pts[j].on_curve {
        assert(cur == bend_end(pts, k));
    }
}

/// A closed line has a side from each point to the next, and from the last back to the first.
pub proof fn lines_are_closed(lines: Seq<Seq<(int, int)>>, n: int, k: int, i: int)
    requires
        0 <= k < n <= lines.len(),
        lines[k].len() >= 2,
        0 <= i < lines[k].len(),
    ensures
        sides(lines, n).contains(
            (lines[k][i], lines[k][if i == lines[k].len() - 1 { 0 } else { i + 1 }]),
        ),
    decreases n,
{
    let want = (lines[k][i], lines[k][if i == lines[k].len() - 1 { 0 } else { i + 1 }]);
    let less = sides(lines, n - 1);
    let all = sides(lines, n);
    if k < n - 1 {
        lines_are_closed(lines, n - 1, k, i);
        let at = less.index_of(want);
        assert(all[at] == want);
    } else {
        assert(sides_of_line(lines[k])[i] == want);
        assert(all[less.len() + i] == want);
    }
}

/// A cell that is inside on all four lines is covered whole, and one that is on none not at all. One
/// that is inside on more lines is covered more.
pub proof fn cells_are_covered_by_fourths(lines: Seq<Seq<Real>>, x: Real, h: int, k: int)
    requires
        lines.len() == 4,
        0 <= h <= k <= 4,
    ensures
        0 <= hits(lines, x, 4) <= 4,
        (forall|s: int| 0 <= s < 4 ==> inside(#[trigger] lines[s], x)) ==> coverage(
            hits(lines, x, 4),
        ) == 255,
        (forall|s: int| 0 <= s < 4 ==> !inside(#[trigger] lines[s], x)) ==> coverage(
            hits(lines, x, 4),
        ) == 0,
        0 <= coverage(h) <= coverage(k) <= 255,
        h < k ==> coverage(h) < coverage(k),
        4 * coverage(h) <= 255 * h < 4 * coverage(h) + 4,
{
    reveal_with_fuel(hits, 5);
    let _ = (lines[0], lines[1], lines[2], lines[3]);
}

/// Laying a glyph into a picture changes no cell that none of its cells comes to.
pub proof fn letters_change_only_their_cells<L: Fn(Pixel, u8, u8) -> Pixel>(
    w: int,
    h: int,
    mask: Seq<u8>,
    gw: int,
    cols: Seq<i64>,
    rows: Seq<i64>,
    selection: Option<Seq<u8>>,
    lay: &L,
    n: int,
    before: Seq<u8>,
    after: Seq<u8>,
    x: int,
    y: int,
)
    requires
        0 <= x < w,
        0 <= y < h,
        4 * (w * h) <= before.len(),
        stamped(w, h, mask, gw, cols, rows, selection, lay, n, before, after),
        forall|k: int|
            0 <= k < n && #[trigger] mask[k] > 0 ==> cols[k % gw] != x || rows[k / gw] != y,
    ensures
        after.len() == before.len(),
        forall|c: int|
            0 <= c < 4 ==> #[trigger] after[4 * (y * w + x) + c] == before[4 * (y * w + x) + c],
    decreases n,
{
    if n > 0 {
        let mid = choose|mid: Seq<u8>| #[trigger]
            stamped_cell(w, h, mask, gw, cols, rows, selection, lay, n - 1, mid, after) && stamped(
                w,
                h,
                mask,
                gw,
                cols,
                rows,
                selection,
                lay,
                n - 1,
                before,
                mid,
            );
        letters_change_only_their_cells(
            w,
            h,
            mask,
            gw,
            cols,
            rows,
            selection,
            lay,
            n - 1,
            before,
            mid,
            x,
            y,
        );
        let (px, py) = (cols[(n - 1) % gw] as int, rows[(n - 1) / gw] as int);
        let m = mask[n - 1];
        if 0 <= px < w && 0 <= py < h && m > 0 {
            crate::pixels::lemma_cell(w, h, px, py);
            crate::pixels::lemma_cell(w, h, x, y);
            assert(cell(w, px, py) != cell(w, x, y));
        }
        assert forall|c: int| 0 <= c < 4 implies #[trigger] after[4 * (y * w + x) + c] == before[4
            * (y * w + x) + c] by {
            assert(mid[4 * (y * w + x) + c] == before[4 * (y * w + x) + c]);
        }
    }
}

/// Whether record `i` of the table directory has a tag of four letters.
pub open spec fn record_has(d: Seq<u8>, i: int, a: u8, b: u8, c: u8, e: u8) -> bool {
    let at = 12 + 16 * i;
    d[at] == a && d[at + 1] == b && d[at + 2] == c && d[at + 3] == e
}

/// A table begins where the last record with its tag says, in four bytes, the highest first.
pub proof fn tables_begin_where_their_record_says(
    d: Seq<u8>,
    n: int,
    i: int,
    a: u8,
    b: u8,
    c: u8,
    e: u8,
)
    requires
        0 <= i < n,
        12 + 16 * n <= d.len(),
        record_has(d, i, a, b, c, e),
        forall|j: int| i < j < n ==> !(#[trigger] record_has(d, j, a, b, c, e)),
    ensures
        table(d, n, seq![a, b, c, e]) == Some(
            65536 * pair_at(d, 12 + 16 * i + 8) + pair_at(d, 12 + 16 * i + 10),
        ),
    decreases n,
{
    let tag = seq![a, b, c, e];
    let at = 12 + 16 * (n - 1);
    if i < n - 1 {
        tables_begin_where_their_record_says(d, n - 1, i, a, b, c, e);
        if tagged(d, n - 1, tag) {
            let s = d.subrange(at, at + 4);
            assert(s == tag);
            assert(s[0] == d[at] && s[1] == d[at + 1] && s[2] == d[at + 2] && s[3] == d[at + 3]);
            assert(record_has(d, n - 1, a, b, c, e));
        }
    } else {
        assert(d.subrange(at, at + 4) =~= tag);
    }
}

/// A font is what the tables of its file say: how many units make up a letter's height, how many
/// glyphs it has, and how their places are written down.
pub proof fn fonts_are_what_their_tables_say(d: Seq<u8>, font: FontModel)
    requires
        parsed(d) == Ok::<FontModel, FontError>(font),
    ensures
        d.len() >= 12,
        d[0] == 0 && d[1] == 1 && d[2] == 0 && d[3] == 0,
        font.data == d,
        ({
            let n = pair_at(d, 4);
            let head = table(d, n, seq![104u8, 101, 97, 100]);
            let maxp = table(d, n, seq![109u8, 97, 120, 112]);
            let hhea = table(d, n, seq![104u8, 104, 101, 97]);
            &&& 12 + 16 * n <= d.len()
            &&& head is Some && head->0 + 54 <= d.len()
            &&& font.units_per_em == pair_at(d, head->0 + 18)
            &&& font.loca_long == (pair_at(d, head->0 + 50) != 0)
            &&& maxp is Some && font.num_glyphs == pair_at(d, maxp->0 + 4)
            &&& hhea is Some && font.num_h_metrics == pair_at(d, hhea->0 + 34)
            &&& table(d, n, seq![108u8, 111, 99, 97]) == Some(font.loca_start)
            &&& table(d, n, seq![103u8, 108, 121, 102]) == Some(font.glyf_start)
            &&& table(d, n, seq![104u8, 109, 116, 120]) == Some(font.hmtx_start)
        }),
{
}

/// A glyph has the advance that stands for it in the file, or that of the last one that has one.
pub proof fn letters_have_their_own_advance(font: FontModel, glyph: int)
    requires
        0 <= glyph,
        font.num_h_metrics > 0,
    ensures
        ({
            let own = if glyph < font.num_h_metrics {
                glyph
            } else {
                font.num_h_metrics - 1
            };
            let at = font.hmtx_start + 4 * own;
            font.advance(glyph) == (if at + 2 <= font.data.len() {
                pair_at(font.data, at)
            } else {
                0
            })
        }),
{
}

/// A glyph lies between the place that stands for it and that for the next: in fours of bytes where
/// places are long, and else in twos of bytes, which count double.
pub proof fn glyphs_lie_between_their_places(font: FontModel, glyph: int)
    requires
        0 <= glyph,
        0 <= font.loca_start,
    ensures
        ({
            let d = font.data;
            let long_at = font.loca_start + 4 * glyph;
            let short_at = font.loca_start + 2 * glyph;
            &&& font.loca_long && long_at + 8 <= d.len() ==> font.place(glyph) == Some(
                (
                    65536 * pair_at(d, long_at) + pair_at(d, long_at + 2),
                    65536 * pair_at(d, long_at + 4) + pair_at(d, long_at + 6),
                ),
            )
            &&& !font.loca_long && short_at + 4 <= d.len() ==> font.place(glyph) == Some(
                (2 * pair_at(d, short_at), 2 * pair_at(d, short_at + 2)),
            )
        }),
{
}

/// The first point of a line is where the contour begins, however far it is drawn.
proof fn lemma_begins(pts: Seq<GlyphPoint>, n: int)
    requires
        0 <= n <= pts.len(),
    ensures
        drawn(pts, n).0.len() > 0,
        drawn(pts, n).0[0] == fine(beginning(pts)),
    decreases n,
{
    if n > 0 {
        lemma_begins(pts, n - 1);
    }
}

proof fn lemma_first_of(pts: Seq<GlyphPoint>, i: int, k: int)
    requires
        0 <= i <= k < pts.len(),
        pts[k].on_curve,
        forall|j: int| i <= j < k ==> !(#[trigger] pts[j]).on_curve,
    ensures
        first_on(pts, i) == k,
    decreases k - i,
{
    if i < k {
        lemma_first_of(pts, i + 1, k);
    }
}

/// The line of a contour begins at its first point on the curve, and where none is on the curve
/// halfway between its first point and its last.
pub proof fn lines_begin_on_the_curve(pts: Seq<GlyphPoint>, k: int)
    requires
        pts.len() > 0,
    ensures
        flattened(pts).len() > 0,
        0 <= k < pts.len() && pts[k].on_curve && (forall|i: int|
            0 <= i < k ==> !(#[trigger] pts[i]).on_curve) ==> flattened(pts)[0] == (
            128 * pts[k].x,
            128 * pts[k].y,
        ),
        (forall|i: int| 0 <= i < pts.len() ==> !(#[trigger] pts[i]).on_curve) ==> flattened(pts)[0]
            == (
            64 * (pts[0].x + pts[pts.len() - 1].x),
            64 * (pts[0].y + pts[pts.len() - 1].y),
        ),
{
    let n = pts.len() as int;
    lemma_begins(pts, n);
    lemma_first_on(pts, 0);
    let s = first_on(pts, 0);
    assert((s + 0) % n == s) by (nonlinear_arith)
        requires
            0 <= s < n,
    ;
    assert(ordered(pts)[0] == pts[s]);
    if forall|i: int| 0 <= i < n ==> !(#[trigger] pts[i]).on_curve {
        assert(!pts[s].on_curve);
        assert(s == 0);
        assert((n - 1) % n == n - 1) by (nonlinear_arith)
            requires
                0 < n,
        ;
        assert(ordered(pts)[n - 1] == pts[n - 1]);
    }
    if 0 <= k < n && pts[k].on_curve && (forall|i: int|
        0 <= i < k ==> !(#[trigger] pts[i]).on_curve) {
        lemma_first_of(pts, 0, k);
    }
}

/// A bend is the curve of its three points: it begins at the first and ends at the last, is the same
/// walked the other way, stays where all three are one, and changes its way evenly.
pub proof fn bends_change_evenly(a: int, c: int, b: int, s: int)
    ensures
        bend(a, c, b, 0) == 64 * a,
        bend(a, c, b, 8) == 64 * b,
        bend(a, c, b, s) == bend(b, c, a, 8 - s),
        bend(a, a, a, s) == 64 * a,
        bend(a, c, b, s + 2) - 2 * bend(a, c, b, s + 1) + bend(a, c, b, s) == 2 * (a - 2 * c + b),
{
    bends_join_their_ends(a, c, b);
    assert(bend(a, c, b, s) == 64 * a + 16 * s * (c - a) + s * s * (a - 2 * c + b)) by (
    nonlinear_arith)
        requires
            bend(a, c, b, s) == (8 - s) * (8 - s) * a + 2 * (8 - s) * s * c + s * s * b,
    ;
    assert(bend(a, c, b, s + 1) == 64 * a + 16 * (s + 1) * (c - a) + (s + 1) * (s + 1) * (a - 2 * c
        + b)) by (nonlinear_arith)
        requires
            bend(a, c, b, s + 1) == (8 - (s + 1)) * (8 - (s + 1)) * a + 2 * (8 - (s + 1)) * (s + 1)
                * c + (s + 1) * (s + 1) * b,
    ;
    assert(bend(a, c, b, s + 2) == 64 * a + 16 * (s + 2) * (c - a) + (s + 2) * (s + 2) * (a - 2 * c
        + b)) by (nonlinear_arith)
        requires
            bend(a, c, b, s + 2) == (8 - (s + 2)) * (8 - (s + 2)) * a + 2 * (8 - (s + 2)) * (s + 2)
                * c + (s + 2) * (s + 2) * b,
    ;
    let m = a - 2 * c + b;
    let q = c - a;
    assert(16 * (s + 2) * q - 2 * (16 * (s + 1) * q) + 16 * s * q == 0) by (nonlinear_arith);
    assert((s + 2) * (s + 2) * m - 2 * ((s + 1) * (s + 1) * m) + s * s * m == 2 * m) by (
    nonlinear_arith);
    assert(bend(b, c, a, 8 - s) == bend(a, c, b, s)) by (nonlinear_arith)
        requires
            bend(a, c, b, s) == (8 - s) * (8 - s) * a + 2 * (8 - s) * s * c + s * s * b,
            bend(b, c, a, 8 - s) == (8 - (8 - s)) * (8 - (8 - s)) * b + 2 * (8 - (8 - s)) * (8 - s)
                * c + (8 - s) * (8 - s) * a,
    ;
    assert(bend(a, a, a, s) == 64 * a) by (nonlinear_arith)
        requires
            bend(a, a, a, s) == (8 - s) * (8 - s) * a + 2 * (8 - s) * s * a + s * s * a,
    ;
}

/// A glyph has no outline where it is past the last, where its place is empty, or where it is made
/// of other glyphs, so that its count of contours lies below zero.
pub proof fn empty_glyphs_have_no_outline(font: FontModel, glyph: int)
    ensures
        glyph >= font.num_glyphs ==> font.outline(glyph).len() == 0,
        font.place(glyph) matches Some((start, end)) && end <= start ==> font.outline(glyph).len()
            == 0,
        font.place(glyph) matches Some((start, end)) && font.data[font.glyf_start + start] >= 128
            ==> font.outline(glyph).len() == 0,
{
}

/// Whether encoding `i` of a character table is one of the given platform in the one format that is
/// read, and where it begins.
pub open spec fn encodes(d: Seq<u8>, c: int, i: int, platform: int, at: int) -> bool {
    &&& pair_at(d, c + 4 + 8 * i) == platform
    &&& platform == 3 ==> pair_at(d, c + 6 + 8 * i) == 1
    &&& at == c + 65536 * pair_at(d, c + 8 + 8 * i) + pair_at(d, c + 10 + 8 * i)
    &&& at + 2 <= d.len()
    &&& pair_at(d, at) == 4
}

proof fn lemma_first_windows(d: Seq<u8>, c: int, i: int, k: int, at: int)
    requires
        0 <= i <= k < encodings(d, c),
        encodes(d, c, k, 3, at),
        forall|j: int, b: int| i <= j < k ==> !#[trigger] encodes(d, c, j, 3, b),
    ensures
        first_encoding(d, c, true, i) == Some(at),
    decreases k - i,
{
    if i < k {
        assert(!encodes(d, c, i, 3, encoding_target(d, c, i)));
        lemma_first_windows(d, c, i + 1, k, at);
    }
}

/// Characters are looked up in the first encoding of Windows for the whole plane that can be read,
/// and only without such a one in an encoding of Unicode's own.
pub proof fn windows_encodings_come_first(d: Seq<u8>, c: int, k: int, at: int)
    requires
        c + 4 <= d.len(),
        0 <= k < encodings(d, c),
        encodes(d, c, k, 3, at),
        forall|j: int, b: int| 0 <= j < k ==> !#[trigger] encodes(d, c, j, 3, b),
    ensures
        character_table(d, c) == Ok::<int, FontError>(at),
{
    lemma_first_windows(d, c, 0, k, at);
}

/// Whether a point of some lines has the given place across.
pub open spec fn point_across(lines: Seq<Seq<(int, int)>>, v: int) -> bool {
    exists|k: int, i: int|
        0 <= k < lines.len() && 0 <= i < lines[k].len() && (#[trigger] lines[k][i]).0 == v
}

/// Whether a point of some lines has the given place up.
pub open spec fn point_up(lines: Seq<Seq<(int, int)>>, v: int) -> bool {
    exists|k: int, i: int|
        0 <= k < lines.len() && 0 <= i < lines[k].len() && (#[trigger] lines[k][i]).1 == v
}

/// The box of a glyph is the smallest that holds its lines: every point lies in it, and each of its
/// four sides goes through a point.
pub proof fn glyph_boxes_are_tight(b: LineBox, lines: Seq<Seq<(int, int)>>, k: int, i: int)
    requires
        bounds_lines(b, lines),
    ensures
        0 <= k < lines.len() && 0 <= i < lines[k].len() ==> b.x0 <= lines[k][i].0 <= b.x1 && b.y0
            <= lines[k][i].1 <= b.y1,
        point_across(lines, b.x0 as int),
        point_across(lines, b.x1 as int),
        point_up(lines, b.y0 as int),
        point_up(lines, b.y1 as int),
{
    lemma_across(lines, b.x0 as int);
    lemma_across(lines, b.x1 as int);
    lemma_up(lines, b.y0 as int);
    lemma_up(lines, b.y1 as int);
}

proof fn lemma_across(lines: Seq<Seq<(int, int)>>, v: int)
    requires
        touched(lines, false, v),
    ensures
        point_across(lines, v),
{
    let (k, i) = choose|k: int, i: int|
        0 <= k < lines.len() && 0 <= i < lines[k].len() && (if false {
            (#[trigger] lines[k][i]).1
        } else {
            lines[k][i].0
        }) == v;
    assert(lines[k][i].0 == v);
}

proof fn lemma_up(lines: Seq<Seq<(int, int)>>, v: int)
    requires
        touched(lines, true, v),
    ensures
        point_up(lines, v),
{
    let (k, i) = choose|k: int, i: int|
        0 <= k < lines.len() && 0 <= i < lines[k].len() && (if true {
            (#[trigger] lines[k][i]).1
        } else {
            lines[k][i].0
        }) == v;
    assert(lines[k][i].1 == v);
}

/// The sum of the advances of some characters.
pub open spec fn advanced_over(font: FontModel, text: Seq<char>) -> int
    decreases text.len(),
{
    if text.len() == 0 {
        0
    } else {
        advanced_over(font, text.drop_last()) + font.advance(font.glyph(text.last()))
    }
}

proof fn lemma_advanced(font: FontModel, text: Seq<char>, k: int)
    requires
        0 <= k <= text.len(),
    ensures
        advanced_over(font, text.take(k)) == font.pen(text, k),
    decreases k,
{
    if k > 0 {
        lemma_advanced(font, text, k - 1);
        assert(text.take(k).drop_last() =~= text.take(k - 1));
    }
}

/// Each character of a text is written as the image of its own glyph, as far along as the characters
/// before it advance, and the first one at the beginning.
pub proof fn characters_stand_one_after_the_other<
    F: Fn(LineBox) -> (usize, usize),
    C: Fn(LineBox, usize, u8, (i64, i64), (i64, i64)) -> Option<Real>,
    T: Fn(LineBox, usize) -> Real,
    X: Fn(u64, LineBox, usize) -> i64,
    Y: Fn(LineBox, usize) -> i64,
    L: Fn(Pixel, u8, u8) -> Pixel,
>(
    font: FontModel,
    text: Seq<char>,
    w: int,
    h: int,
    selection: Option<Seq<u8>>,
    frame: &F,
    cross: &C,
    target: &T,
    col: &X,
    row: &Y,
    lay: &L,
    k: int,
    before: Seq<u8>,
    after: Seq<u8>,
)
    requires
        0 <= k < text.len(),
        written_one(
            font,
            text,
            w,
            h,
            selection,
            frame,
            cross,
            target,
            col,
            row,
            lay,
            k,
            before,
            after,
        ),
    ensures
        exists|image: Option<GlyphImage>| #[trigger]
            glyph_image(
                outline_lines(font.outline(font.glyph(text[k]))),
                frame,
                cross,
                target,
                image,
            ) && laid(
                image,
                advanced_over(font, text.take(k)),
                w,
                h,
                selection,
                col,
                row,
                lay,
                before,
                after,
            ),
{
    lemma_advanced(font, text, k);
}

} // verus!
