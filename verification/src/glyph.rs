//! Glyph outlines of a TrueType font.
//!
//! A simple glyph holds, after ten bytes that are not read here, the last point of each contour,
//! hinting instructions that are passed over, one flag byte per point with runs written short,
//! and the steps from point to point, first all of `x`, then all of `y`.
use crate::font::{i16_at, signed_word, u16_at, word};
use vstd::prelude::*;

verus! {

/// The flag of a point on the curve; the others steer it.
pub const ON_CURVE: u8 = 0x01;

/// The flag of a step of `x` that is one byte.
pub const X_SHORT: u8 = 0x02;

/// The flag of a step of `y` that is one byte.
pub const Y_SHORT: u8 = 0x04;

/// The flag that the next byte says how often this flag byte is repeated.
pub const REPEAT: u8 = 0x08;

/// The flag that a one-byte step of `x` goes up, or that there is no step.
pub const X_SAME_OR_POS: u8 = 0x10;

/// The flag that a one-byte step of `y` goes up, or that there is no step.
pub const Y_SAME_OR_POS: u8 = 0x20;

/// A point of a contour, in font units, `y` up.
#[derive(Clone, Copy, Debug, PartialEq, Eq, Structural)]
pub struct GlyphPoint {
    pub x: i32,
    pub y: i32,
    /// Whether the contour passes through the point; else the point steers a curve.
    pub on_curve: bool,
}

/// The closed contours of a glyph. The last point of a contour joins the first.
#[derive(Debug)]
pub struct GlyphOutline {
    pub contours: Vec<Vec<GlyphPoint>>,
}

impl View for GlyphOutline {
    type V = Seq<Seq<GlyphPoint>>;

    open spec fn view(&self) -> Seq<Seq<GlyphPoint>> {
        Seq::new(self.contours@.len(), |k: int| self.contours@[k]@)
    }
}

/// The last point of contour `k` of the glyph at `g`.
pub open spec fn end_point(d: Seq<u8>, g: int, k: int) -> int {
    word(d, g + 10 + 2 * k)
}

/// The first point of contour `k`.
pub open spec fn first_point(d: Seq<u8>, g: int, k: int) -> int {
    if k <= 0 {
        0
    } else {
        end_point(d, g, k - 1) + 1
    }
}

/// Whether the contours of a glyph follow each other: none ends before the one before it.
pub open spec fn contours_follow(d: Seq<u8>, g: int, n: int) -> bool {
    forall|i: int, j: int|
        0 <= i <= j < n ==> #[trigger] end_point(d, g, i) <= #[trigger] end_point(d, g, j)
}

/// `got` and as many of `f`, at most `count`, as are missing to `want`.
pub open spec fn with_run(got: Seq<u8>, f: u8, count: int, want: int) -> Seq<u8> {
    got + Seq::new(
        (if count < want - got.len() { count } else { want - got.len() }) as nat,
        |i: int| f,
    )
}

/// The flags of `want` points where those before `p` gave `got`, and where what follows them
/// begins. None where the file ends first.
pub open spec fn flags_from(d: Seq<u8>, p: int, got: Seq<u8>, want: int) -> Option<(Seq<u8>, int)>
    decreases want - got.len(),
{
    if got.len() >= want {
        Some((got, p))
    } else if p >= d.len() {
        None
    } else if d[p] & REPEAT == 0 {
        flags_from(d, p + 1, got.push(d[p]), want)
    } else if p + 1 >= d.len() {
        None
    } else {
        flags_from(d, p + 2, with_run(got, d[p], 1 + d[p + 1], want), want)
    }
}

/// The coordinate after the ones in `s`, before its step is taken.
pub open spec fn latest(s: Seq<int>) -> int {
    if s.len() == 0 {
        0
    } else {
        s.last()
    }
}

/// One coordinate of the first `n` points from the steps at `p` on, and where what follows
/// them begins. None where the file ends first.
pub open spec fn axis(
    d: Seq<u8>,
    p: int,
    flags: Seq<u8>,
    n: int,
    short: u8,
    same: u8,
) -> Option<(Seq<int>, int)>
    decreases n,
{
    if n <= 0 {
        Some((Seq::empty(), p))
    } else {
        match axis(d, p, flags, n - 1, short, same) {
            None => None,
            Some((s, q)) => if flags[n - 1] & short != 0 {
                if q >= d.len() {
                    None
                } else if flags[n - 1] & same != 0 {
                    Some((s.push(latest(s) + d[q]), q + 1))
                } else {
                    Some((s.push(latest(s) - d[q]), q + 1))
                }
            } else if flags[n - 1] & same == 0 {
                if q + 2 > d.len() {
                    None
                } else {
                    Some((s.push(latest(s) + signed_word(d, q)), q + 2))
                }
            } else {
                Some((s.push(latest(s)), q))
            },
        }
    }
}

/// The flags and the coordinates of the points of the simple glyph at `g` with `n` contours.
/// None where the file ends before they do.
pub open spec fn simple_glyph(d: Seq<u8>, g: int, n: int) -> Option<(Seq<u8>, Seq<int>, Seq<int>)> {
    let hints = g + 10 + 2 * n;
    if hints + 2 > d.len() {
        None
    } else {
        match flags_from(d, hints + 2 + word(d, hints), Seq::empty(), first_point(d, g, n)) {
            None => None,
            Some((flags, p)) => match axis(
                d,
                p,
                flags,
                flags.len() as int,
                X_SHORT,
                X_SAME_OR_POS,
            ) {
                None => None,
                Some((xs, q)) => match axis(
                    d,
                    q,
                    flags,
                    flags.len() as int,
                    Y_SHORT,
                    Y_SAME_OR_POS,
                ) {
                    None => None,
                    Some((ys, _)) => Some((flags, xs, ys)),
                },
            },
        }
    }
}

/// Contour `k` of a glyph with the given flags and coordinates.
pub open spec fn contour(
    d: Seq<u8>,
    g: int,
    k: int,
    points: (Seq<u8>, Seq<int>, Seq<int>),
) -> Seq<GlyphPoint> {
    let first = first_point(d, g, k);
    Seq::new(
        (end_point(d, g, k) + 1 - first) as nat,
        |i: int|
            GlyphPoint {
                x: points.1[first + i] as i32,
                y: points.2[first + i] as i32,
                on_curve: points.0[first + i] & ON_CURVE != 0,
            },
    )
}

/// The contours of the simple glyph at `g`, none where the file ends before the glyph does.
pub open spec fn simple_outline(d: Seq<u8>, g: int, n: int) -> Option<Seq<Seq<GlyphPoint>>> {
    match simple_glyph(d, g, n) {
        None => None,
        Some(points) => Some(Seq::new(n as nat, |k: int| contour(d, g, k, points))),
    }
}

/// The flags of a glyph's points.
fn flags_of(d: &[u8], start: u128, want: usize) -> (r: Option<(Vec<u8>, u128)>)
    requires
        start <= 0x1_0000_0000_0002_0000,
        want <= 0x1_0000,
    ensures
        match r {
            Some((flags, q)) => flags_from(d@, start as int, Seq::empty(), want as int) == Some(
                (flags@, q as int),
            ) && flags.len() == want && q <= start + 2 * want,
            None => flags_from(d@, start as int, Seq::empty(), want as int) is None,
        },
{
    let len: u128 = d.len() as u128;
    let mut p: u128 = start;
    let mut flags: Vec<u8> = Vec::new();
    while flags.len() < want
        invariant
            len == d.len(),
            start <= 0x1_0000_0000_0002_0000,
            want <= 0x1_0000,
            flags.len() <= want,
            p <= start + 2 * flags.len(),
            flags_from(d@, start as int, Seq::empty(), want as int) == flags_from(
                d@,
                p as int,
                flags@,
                want as int,
            ),
        decreases want - flags.len(),
    {
        if p >= len {
            return None;
        }
        let f: u8 = d[p as usize];
        let ghost got = flags@;
        p = p + 1;
        flags.push(f);
        if f & REPEAT != 0 {
            if p >= len {
                return None;
            }
            let repeat: u8 = d[p as usize];
            p = p + 1;
            let mut k: u8 = 0;
            assert(flags@ =~= with_run(got, f, 1 + k, want as int));
            while k < repeat && flags.len() < want
                invariant
                    k <= repeat,
                    got.len() < flags.len() <= want,
                    flags@ == with_run(got, f, 1 + k, want as int),
                decreases repeat - k,
            {
                flags.push(f);
                k = k + 1;
                assert(flags@ =~= with_run(got, f, 1 + k, want as int));
            }
            assert(flags@ =~= with_run(got, f, 1 + repeat, want as int));
        }
    }
    Some((flags, p))
}

/// Whole numbers as numbers without bounds.
pub open spec fn ints(s: Seq<i32>) -> Seq<int> {
    Seq::new(s.len(), |i: int| s[i] as int)
}

/// One coordinate of a glyph's points.
fn axis_of(d: &[u8], start: u128, flags: &Vec<u8>, short: u8, same: u8) -> (r: Option<
    (Vec<i32>, u128),
>)
    requires
        start <= 0x1_0000_0000_0010_0000,
        flags.len() <= 0x1_0000,
    ensures
        match r {
            Some((s, q)) => axis(
                d@,
                start as int,
                flags@,
                flags.len() as int,
                short,
                same,
            ) == Some((ints(s@), q as int)) && s.len() == flags.len() && q <= start + 2
                * flags.len(),
            None => axis(
                d@,
                start as int,
                flags@,
                flags.len() as int,
                short,
                same,
            ) is None,
        },
{
    let len: u128 = d.len() as u128;
    let mut p: u128 = start;
    let mut s: Vec<i32> = Vec::new();
    let mut x: i32 = 0;
    let mut i: usize = 0;
    assert(ints(s@) =~= Seq::<int>::empty());
    while i < flags.len()
        invariant
            len == d.len(),
            start <= 0x1_0000_0000_0010_0000,
            i <= flags.len() <= 0x1_0000,
            s.len() == i,
            x == latest(ints(s@)),
            -0x8000 * i <= x <= 0x7fff * i,
            p <= start + 2 * i,
            axis(d@, start as int, flags@, i as int, short, same) == Some((ints(s@), p as int)),
        decreases flags.len() - i,
    {
        let f: u8 = flags[i];
        let ghost before = s@;
        proof {
            if axis(d@, start as int, flags@, i + 1, short, same) is None {
                lemma_axis_stays_none(
                    d@,
                    start as int,
                    flags@,
                    i + 1,
                    flags.len() as int,
                    short,
                    same,
                );
            }
        }
        if f & short != 0 {
            if p >= len {
                return None;
            }
            let step: i32 = d[p as usize] as i32;
            p = p + 1;
            x = if f & same != 0 {
                x + step
            } else {
                x - step
            };
        } else if f & same == 0 {
            if p + 2 > len {
                return None;
            }
            x = x + i16_at(d, p as usize) as i32;
            p = p + 2;
        }
        s.push(x);
        assert(ints(s@) =~= ints(before).push(x as int));
        i = i + 1;
    }
    Some((s, p))
}

/// Once the file has ended, no later point has a coordinate.
proof fn lemma_axis_stays_none(
    d: Seq<u8>,
    p: int,
    flags: Seq<u8>,
    i: int,
    n: int,
    short: u8,
    same: u8,
)
    requires
        0 < i <= n,
        axis(d, p, flags, i, short, same) is None,
    ensures
        axis(d, p, flags, n, short, same) is None,
    decreases n - i,
{
    if i < n {
        lemma_axis_stays_none(d, p, flags, i + 1, n, short, same);
    }
}

/// Whether the contours of a glyph follow each other.
fn do_contours_follow(d: &[u8], g: u64, n: usize) -> (r: bool)
    requires
        g + 10 + 2 * n <= d.len(),
    ensures
        r == contours_follow(d@, g as int, n as int),
{
    let mut k: usize = 1;
    while k < n
        invariant
            1 <= k,
            n == 0 || k <= n,
            g + 10 + 2 * n <= d.len(),
            contours_follow(
                d@,
                g as int,
                if k <= n {
                    k as int
                } else {
                    n as int
                },
            ),
        decreases n - k,
    {
        let at: usize = g as usize + 10 + 2 * k;
        let before: u16 = u16_at(d, at - 2);
        let here: u16 = u16_at(d, at);
        assert(before == end_point(d@, g as int, k - 1));
        assert(here == end_point(d@, g as int, k as int));
        if here < before {
            return false;
        }
        k = k + 1;
    }
    true
}

/// The flags and the coordinates of the points of a simple glyph.
fn points_of(d: &[u8], g: u64, n: usize) -> (r: Option<(Vec<u8>, Vec<i32>, Vec<i32>)>)
    requires
        n <= 0x7fff,
    ensures
        match r {
            Some((flags, xs, ys)) => simple_glyph(d@, g as int, n as int) == Some(
                (flags@, ints(xs@), ints(ys@)),
            ) && flags.len() == xs.len() && flags.len() == ys.len() && flags.len() == first_point(
                d@,
                g as int,
                n as int,
            ) && g + 12 + 2 * n <= d.len(),
            None => simple_glyph(d@, g as int, n as int) is None,
        },
{
    let hints: u128 = g as u128 + 10 + 2 * n as u128;
    if hints + 2 > d.len() as u128 {
        return None;
    }
    let want: usize = if n == 0 {
        0
    } else {
        u16_at(d, hints as usize - 2) as usize + 1
    };
    let after: u128 = hints + 2 + u16_at(d, hints as usize) as u128;
    let (flags, p) = match flags_of(d, after, want) {
        None => return None,
        Some(x) => x,
    };
    let (xs, q) = match axis_of(d, p, &flags, X_SHORT, X_SAME_OR_POS) {
        None => return None,
        Some(x) => x,
    };
    let (ys, _) = match axis_of(d, q, &flags, Y_SHORT, Y_SAME_OR_POS) {
        None => return None,
        Some(x) => x,
    };
    Some((flags, xs, ys))
}

/// Whether the contours of a glyph follow each other, or the file ends before the glyph does.
pub open spec fn orderly(d: Seq<u8>, g: int, n: int) -> bool {
    simple_glyph(d, g, n) is Some ==> contours_follow(d, g, n)
}

/// Whether the contours of a glyph follow each other, or the file ends before the glyph does.
pub fn is_orderly(d: &[u8], g: u64, n: usize) -> (r: bool)
    requires
        n <= 0x7fff,
    ensures
        r == orderly(d@, g as int, n as int),
{
    match points_of(d, g, n) {
        None => true,
        Some(_) => do_contours_follow(d, g, n),
    }
}

/// The contours of the simple glyph at `g` with `n` contours, none where the file ends before
/// the glyph does.
pub fn parse_simple_glyph(d: &[u8], g: u64, n: usize) -> (r: Option<GlyphOutline>)
    requires
        n <= 0x7fff,
        orderly(d@, g as int, n as int),
    ensures
        match r {
            Some(outline) => simple_outline(d@, g as int, n as int) == Some(outline@),
            None => simple_outline(d@, g as int, n as int) is None,
        },
{
    let (flags, xs, ys) = match points_of(d, g, n) {
        None => return None,
        Some(points) => points,
    };
    let ghost points = (flags@, ints(xs@), ints(ys@));
    let mut contours: Vec<Vec<GlyphPoint>> = Vec::new();
    let mut k: usize = 0;
    let mut start: usize = 0;
    while k < n
        invariant
            k <= n <= 0x7fff,
                g + 10 + 2 * n <= d.len(),
            contours_follow(d@, g as int, n as int),
            start == first_point(d@, g as int, k as int),
            flags.len() == first_point(d@, g as int, n as int),
            xs.len() == flags.len(),
            ys.len() == flags.len(),
            points == (flags@, ints(xs@), ints(ys@)),
            contours.len() == k,
            forall|j: int|
                0 <= j < k ==> (#[trigger] contours[j])@ == contour(d@, g as int, j, points),
        decreases n - k,
    {
        let end: usize = u16_at(d, g as usize + 10 + 2 * k) as usize;
        assert(end == end_point(d@, g as int, k as int));
        assert(end <= end_point(d@, g as int, n - 1));
        assert(start <= end + 1) by {
            if k > 0 {
                assert(end_point(d@, g as int, k - 1) <= end_point(d@, g as int, k as int));
            }
        }
        let mut pts: Vec<GlyphPoint> = Vec::new();
        let mut i: usize = start;
        while i <= end
            invariant
                start <= i <= end + 1,
                end < flags.len(),
                end <= 0xffff,
                start == first_point(d@, g as int, k as int),
                end == end_point(d@, g as int, k as int),
                xs.len() == flags.len(),
                ys.len() == flags.len(),
                points == (flags@, ints(xs@), ints(ys@)),
                pts@ == contour(d@, g as int, k as int, points).take(i - start),
            decreases end + 1 - i,
        {
            let ghost made = contour(d@, g as int, k as int, points);
            let ghost before = pts@;
            pts.push(
                GlyphPoint { x: xs[i], y: ys[i], on_curve: flags[i] & ON_CURVE != 0 },
            );
            assert(pts@ =~= made.take(i + 1 - start));
            i = i + 1;
        }
        assert(pts@ =~= contour(d@, g as int, k as int, points));
        let ghost had = contours@;
        contours.push(pts);
        assert(forall|j: int| 0 <= j < k ==> (#[trigger] contours[j]) == had[j]);
        start = end + 1;
        k = k + 1;
    }
    let outline = GlyphOutline { contours };
    assert(outline@ =~= Seq::new(n as nat, |j: int| contour(d@, g as int, j, points)));
    Some(outline)
}

} // verus!
