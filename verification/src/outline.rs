//! Glyph contours as lines.
//!
//! A contour passes through its points on the curve; a point off the curve bends the way
//! between its neighbours, and between two of those it passes through their middle. Places on
//! the way are whole numbers: a contour point is given in half font units, a point of the
//! lines in 128ths, so that middles and the eight points of a bend are exact.
use crate::glyph::{GlyphOutline, GlyphPoint};
use vstd::prelude::*;

verus! {

/// How many lines a bend is made of.
pub const STEPS: u8 = 8;

/// A place in half font units.
pub open spec fn halves(p: GlyphPoint) -> (int, int) {
    (2 * p.x, 2 * p.y)
}

/// The middle of two points in half font units.
pub open spec fn middle(a: GlyphPoint, b: GlyphPoint) -> (int, int) {
    (a.x + b.x, a.y + b.y)
}

/// A place in half font units as 128ths.
pub open spec fn fine(h: (int, int)) -> (int, int) {
    (64 * h.0, 64 * h.1)
}

/// One coordinate, in 128ths, of the point `s` eighths along the bend from `a` to `b` that `c`
/// steers, each in half units: `(1 - t)^2 a + 2 (1 - t) t c + t^2 b` at `t = s / 8`.
pub open spec fn bend(a: int, c: int, b: int, s: int) -> int {
    (8 - s) * (8 - s) * a + 2 * (8 - s) * s * c + s * s * b
}

/// The first point on the curve from `i` on; 0 where there is none.
pub open spec fn first_on(pts: Seq<GlyphPoint>, i: int) -> int
    decreases pts.len() - i,
{
    if i >= pts.len() {
        0
    } else if pts[i].on_curve {
        i
    } else {
        first_on(pts, i + 1)
    }
}

/// The points of a contour from the first on the curve around.
pub open spec fn ordered(pts: Seq<GlyphPoint>) -> Seq<GlyphPoint> {
    Seq::new(pts.len(), |i: int| pts[(first_on(pts, 0) + i) % (pts.len() as int)])
}

/// Where a contour begins, in half units: at its first point on the curve, and where it has
/// none, in the middle of its first point and its last.
pub open spec fn beginning(pts: Seq<GlyphPoint>) -> (int, int) {
    let o = ordered(pts);
    if o[0].on_curve {
        halves(o[0])
    } else {
        middle(o[0], o[o.len() - 1])
    }
}

/// Where the bend that the point `i` steers ends, in half units.
pub open spec fn bend_end(pts: Seq<GlyphPoint>, i: int) -> (int, int) {
    let o = ordered(pts);
    let next = o[(i + 1) % (o.len() as int)];
    if next.on_curve {
        halves(next)
    } else {
        middle(o[i], next)
    }
}

/// The eight points of a bend.
pub open spec fn bent(a: (int, int), c: (int, int), b: (int, int), n: int) -> Seq<(int, int)> {
    Seq::new(n as nat, |s: int| (bend(a.0, c.0, b.0, s + 1), bend(a.1, c.1, b.1, s + 1)))
}

/// The lines through the first `n` points of a contour, and where they have come to in half
/// units. The point that the contour begins at is drawn once where it is its first point.
pub open spec fn drawn(pts: Seq<GlyphPoint>, n: int) -> (Seq<(int, int)>, (int, int))
    decreases n,
{
    if n <= 0 {
        (seq![fine(beginning(pts))], beginning(pts))
    } else {
        let (out, cur) = drawn(pts, n - 1);
        let p = ordered(pts)[n - 1];
        if p.on_curve {
            (
                if n - 1 != first_on(pts, 0) || out.len() > 1 {
                    out.push(fine(halves(p)))
                } else {
                    out
                },
                halves(p),
            )
        } else {
            let end = bend_end(pts, n - 1);
            (out + bent(cur, halves(p), end, 8), end)
        }
    }
}

/// The lines of a contour, in 128ths of a font unit.
pub open spec fn flattened(pts: Seq<GlyphPoint>) -> Seq<(int, int)> {
    if pts.len() == 0 {
        Seq::empty()
    } else {
        drawn(pts, pts.len() as int).0
    }
}

/// Places without bounds on their coordinates.
pub open spec fn places(s: Seq<(i64, i64)>) -> Seq<(int, int)> {
    Seq::new(s.len(), |i: int| (s[i].0 as int, s[i].1 as int))
}

/// One coordinate of a point of a bend.
fn bend_at(a: i64, c: i64, b: i64, s: u8) -> (r: i64)
    requires
        -0x1_0000_0000 <= a <= 0x1_0000_0000,
        -0x1_0000_0000 <= b <= 0x1_0000_0000,
        -0x1_0000_0000 <= c <= 0x1_0000_0000,
        s <= 8,
    ensures
        r == bend(a as int, c as int, b as int, s as int),
{
    let t: i64 = s as i64;
    let u: i64 = 8 - t;
    assert(0 <= u * u <= 64 && 0 <= 2 * u * t <= 128 && 0 <= t * t <= 64) by (nonlinear_arith)
        requires
            0 <= t <= 8,
            u == 8 - t,
    ;
    let uu: i64 = u * u;
    let ut: i64 = 2 * u * t;
    let tt: i64 = t * t;
    assert(-0x40_0000_0000 <= uu * a <= 0x40_0000_0000) by (nonlinear_arith)
        requires
            0 <= uu <= 64,
            -0x1_0000_0000 <= a <= 0x1_0000_0000,
    ;
    assert(-0x80_0000_0000 <= ut * c <= 0x80_0000_0000) by (nonlinear_arith)
        requires
            0 <= ut <= 128,
            -0x1_0000_0000 <= c <= 0x1_0000_0000,
    ;
    assert(-0x40_0000_0000 <= tt * b <= 0x40_0000_0000) by (nonlinear_arith)
        requires
            0 <= tt <= 64,
            -0x1_0000_0000 <= b <= 0x1_0000_0000,
    ;
    uu * a + ut * c + tt * b
}

/// Whether a place in half units is one that contour points and their middles can have.
spec fn near(h: (i64, i64)) -> bool {
    -0x1_0000_0000 <= h.0 <= 0x1_0000_0000 && -0x1_0000_0000 <= h.1 <= 0x1_0000_0000
}

fn halves_of(p: GlyphPoint) -> (r: (i64, i64))
    ensures
        (r.0 as int, r.1 as int) == halves(p),
        near(r),
{
    (p.x as i64 * 2, p.y as i64 * 2)
}

fn middle_of(a: GlyphPoint, b: GlyphPoint) -> (r: (i64, i64))
    ensures
        (r.0 as int, r.1 as int) == middle(a, b),
        near(r),
{
    (a.x as i64 + b.x as i64, a.y as i64 + b.y as i64)
}

/// The lines of a contour, in 128ths of a font unit, the last joining the first.
pub fn flatten_contour(pts: &Vec<GlyphPoint>) -> (r: Vec<(i64, i64)>)
    ensures
        places(r@) == flattened(pts@),
{
    let mut out: Vec<(i64, i64)> = Vec::new();
    let n: usize = pts.len();
    if n == 0 {
        assert(places(out@) =~= Seq::empty());
        return out;
    }
    let mut start: usize = 0;
    while start < n && !pts[start].on_curve
        invariant
            n == pts.len(),
            start <= n,
            first_on(pts@, 0) == first_on(pts@, start as int),
        decreases n - start,
    {
        start = start + 1;
    }
    if start == n {
        start = 0;
    }
    let ghost o = ordered(pts@);
    let mut order: Vec<GlyphPoint> = Vec::new();
    let mut i: usize = 0;
    let mut at: usize = start;
    proof {
        vstd::arithmetic::div_mod::lemma_small_mod(start as nat, n as nat);
    }
    while i < n
        invariant
            n == pts.len(),
            i <= n,
            at < n,
            start < n,
            at == (start + i) % (n as int),
            start == first_on(pts@, 0),
            o == ordered(pts@),
            order@ == o.take(i as int),
        decreases n - i,
    {
        order.push(pts[at]);
        assert(order@ =~= o.take(i + 1));
        proof {
            lemma_around(start as int, i as int, n as int);
        }
        at = if at + 1 == n {
            0
        } else {
            at + 1
        };
        i = i + 1;
    }
    assert(order@ =~= o);
    let first: (i64, i64) = if order[0].on_curve {
        halves_of(order[0])
    } else {
        middle_of(order[0], order[n - 1])
    };
    out.push((first.0 * 64, first.1 * 64));
    assert(places(out@) =~= seq![fine(beginning(pts@))]);
    let mut cur: (i64, i64) = first;
    i = 0;
    while i < n
        invariant
            n == pts.len(),
            n > 0,
            i <= n,
            start == first_on(pts@, 0),
            order@ == ordered(pts@),
            near(cur),
            drawn(pts@, i as int) == (places(out@), (cur.0 as int, cur.1 as int)),
        decreases n - i,
    {
        let p: GlyphPoint = order[i];
        let ghost had = out@;
        if p.on_curve {
            let h: (i64, i64) = halves_of(p);
            if i != start || out.len() > 1 {
                out.push((h.0 * 64, h.1 * 64));
                assert(places(out@) =~= places(had).push(fine(halves(p))));
            }
            cur = h;
        } else {
            let next: GlyphPoint = if i + 1 < n {
                order[i + 1]
            } else {
                order[0]
            };
            proof {
                if i + 1 < n {
                    vstd::arithmetic::div_mod::lemma_small_mod((i + 1) as nat, n as nat);
                } else {
                    vstd::arithmetic::div_mod::lemma_mod_self_0(n as int);
                }
            }
            let end: (i64, i64) = if next.on_curve {
                halves_of(next)
            } else {
                middle_of(p, next)
            };
            let c: (i64, i64) = halves_of(p);
            let ghost a = (cur.0 as int, cur.1 as int);
            let ghost b = (end.0 as int, end.1 as int);
            let mut s: u8 = 0;
            assert(places(out@) =~= places(had) + bent(a, halves(p), b, 0));
            while s < STEPS
                invariant
                    s <= STEPS,
                    near(cur),
                    near(c),
                    near(end),
                    a == (cur.0 as int, cur.1 as int),
                    b == (end.0 as int, end.1 as int),
                    halves(p) == (c.0 as int, c.1 as int),
                    places(out@) == places(had) + bent(a, halves(p), b, s as int),
                decreases STEPS - s,
            {
                let ghost before = out@;
                let x: i64 = bend_at(cur.0, c.0, end.0, s + 1);
                let y: i64 = bend_at(cur.1, c.1, end.1, s + 1);
                out.push((x, y));
                assert(places(out@) =~= places(before).push((x as int, y as int)));
                assert(bent(a, halves(p), b, s + 1) =~= bent(a, halves(p), b, s as int).push(
                    (x as int, y as int),
                ));
                assert(places(out@) =~= places(had) + bent(a, halves(p), b, s + 1));
                s = s + 1;
            }
            cur = end;
        }
        i = i + 1;
    }
    out
}

/// One step further around.
proof fn lemma_around(start: int, i: int, n: int)
    requires
        0 <= start < n,
        0 <= i,
    ensures
        (start + i + 1) % n == (if (start + i) % n + 1 == n { 0 } else { (start + i) % n + 1 }),
{
    let q = (start + i) / n;
    let r = (start + i) % n;
    vstd::arithmetic::div_mod::lemma_fundamental_div_mod(start + i, n);
    if r + 1 == n {
        assert(start + i + 1 == (q + 1) * n + 0) by (nonlinear_arith)
            requires
                start + i == n * q + r,
                r + 1 == n,
        ;
        vstd::arithmetic::div_mod::lemma_fundamental_div_mod_converse(start + i + 1, n, q + 1, 0);
    } else {
        assert(start + i + 1 == q * n + (r + 1)) by (nonlinear_arith)
            requires
                start + i == n * q + r,
        ;
        vstd::arithmetic::div_mod::lemma_fundamental_div_mod_converse(
            start + i + 1,
            n,
            q,
            r + 1,
        );
    }
}

/// A bend begins where it comes from and ends where it goes to.
pub proof fn bends_join_their_ends(a: int, c: int, b: int)
    ensures
        bend(a, c, b, 0) == fine((a, a)).0,
        bend(a, c, b, 8) == fine((b, b)).0,
{
    assert((8 - 0) * (8 - 0) * a == 64 * a) by (nonlinear_arith);
    assert(2 * (8 - 0) * 0 * c == 0) by (nonlinear_arith);
    assert((8 - 8) * (8 - 8) * a == 0) by (nonlinear_arith);
    assert(2 * (8 - 8) * 8 * c == 0) by (nonlinear_arith);
}

/// The lines of every contour of a glyph.
pub fn flatten_outline(outline: &GlyphOutline) -> (r: Vec<Vec<(i64, i64)>>)
    ensures
        r.len() == outline@.len(),
        forall|k: int| 0 <= k < r.len() ==> places((#[trigger] r[k])@) == flattened(outline@[k]),
{
    let mut lines: Vec<Vec<(i64, i64)>> = Vec::new();
    let mut k: usize = 0;
    while k < outline.contours.len()
        invariant
            k <= outline.contours.len(),
            lines.len() == k,
            forall|j: int|
                0 <= j < k ==> places((#[trigger] lines[j])@) == flattened(outline@[j]),
        decreases outline.contours.len() - k,
    {
        let line = flatten_contour(&outline.contours[k]);
        lines.push(line);
        k = k + 1;
    }
    lines
}

} // verus!
