//! Softening the edge of a mask.
//!
//! A mask is blurred along its rows and then along its columns, twice. Beyond its edge a line
//! goes on as it ends, so a selection that touches the border does not fade there.
use crate::pixels::{cell, lemma_cell, lemma_cell_of};
use vstd::prelude::*;

verus! {

/// The value of a line at `k`, where beyond its ends it goes on as it ends.
pub open spec fn along(s: Seq<u8>, k: int) -> int {
    if k < 0 {
        s[0] as int
    } else if k >= s.len() {
        s[s.len() - 1] as int
    } else {
        s[k] as int
    }
}

/// The sum of a line's values from `from` up to `to`.
pub open spec fn span(s: Seq<u8>, from: int, to: int) -> int
    decreases to - from,
{
    if to <= from {
        0
    } else {
        span(s, from, to - 1) + along(s, to - 1)
    }
}

/// The mean, rounded down, of a line's values from `r` before `k` to `r` after it.
pub open spec fn level(s: Seq<u8>, k: int, r: int) -> int {
    span(s, k - r, k + r + 1) / (2 * r + 1)
}

/// Row `y` of a mask `w` wide.
pub open spec fn row(m: Seq<u8>, w: int, y: int) -> Seq<u8> {
    Seq::new(w as nat, |k: int| m[cell(w, k, y)])
}

/// Column `x` of a mask of `w` by `h` cells.
pub open spec fn column(m: Seq<u8>, w: int, h: int, x: int) -> Seq<u8> {
    Seq::new(h as nat, |k: int| m[cell(w, x, k)])
}

/// A mask blurred along its rows. Bytes after those of its cells become zero.
pub open spec fn blurred_across(m: Seq<u8>, w: int, h: int, r: int) -> Seq<u8> {
    Seq::new(
        m.len(),
        |i: int|
            if i < w * h {
                level(row(m, w, i / w), i % w, r) as u8
            } else {
                0
            },
    )
}

/// A mask blurred along its columns. Bytes after those of its cells become zero.
pub open spec fn blurred_down(m: Seq<u8>, w: int, h: int, r: int) -> Seq<u8> {
    Seq::new(
        m.len(),
        |i: int|
            if i < w * h {
                level(column(m, w, h, i % w), i / w, r) as u8
            } else {
                0
            },
    )
}

/// A mask blurred along its rows and then its columns.
pub open spec fn blurred(m: Seq<u8>, w: int, h: int, r: int) -> Seq<u8> {
    blurred_down(blurred_across(m, w, h, r), w, h, r)
}

/// A mask with its edge softened by `r` cells.
pub open spec fn feathered(m: Seq<u8>, w: int, h: int, r: int) -> Seq<u8> {
    if r == 0 || w == 0 || h == 0 {
        m
    } else {
        blurred(blurred(m, w, h, r), w, h, r)
    }
}

/// A sum without its first value.
proof fn lemma_span_first(s: Seq<u8>, from: int, to: int)
    requires
        from < to,
    ensures
        span(s, from, to) == along(s, from) + span(s, from + 1, to),
    decreases to - from,
{
    if from + 1 < to {
        lemma_span_first(s, from, to - 1);
    } else {
        assert(span(s, from, to - 1) == 0);
    }
}

/// A sum lies between as many times the least value and as many times the greatest.
proof fn lemma_span_between(s: Seq<u8>, from: int, to: int, lo: int, hi: int)
    requires
        s.len() > 0,
        from <= to,
        forall|k: int| 0 <= k < s.len() ==> lo <= #[trigger] s[k] <= hi,
    ensures
        lo * (to - from) <= span(s, from, to) <= hi * (to - from),
    decreases to - from,
{
    if from < to {
        lemma_span_between(s, from, to - 1, lo, hi);
        assert(lo <= along(s, to - 1) <= hi);
        assert(lo * (to - from) == lo * (to - 1 - from) + lo) by (nonlinear_arith);
        assert(hi * (to - from) == hi * (to - 1 - from) + hi) by (nonlinear_arith);
    } else {
        assert(lo * (to - from) == 0) by (nonlinear_arith)
            requires
                to == from,
        ;
        assert(hi * (to - from) == 0) by (nonlinear_arith)
            requires
                to == from,
        ;
    }
}

/// A mean lies between the least value and the greatest.
pub(crate) proof fn lemma_level_between(s: Seq<u8>, k: int, r: int, lo: int, hi: int)
    requires
        s.len() > 0,
        r >= 0,
        forall|i: int| 0 <= i < s.len() ==> lo <= #[trigger] s[i] <= hi,
    ensures
        lo <= level(s, k, r) <= hi,
{
    let n = 2 * r + 1;
    let t = span(s, k - r, k + r + 1);
    lemma_span_between(s, k - r, k + r + 1, lo, hi);
    assert(lo * (k + r + 1 - (k - r)) == lo * n) by (nonlinear_arith)
        requires
            n == 2 * r + 1,
    ;
    assert(hi * (k + r + 1 - (k - r)) == hi * n) by (nonlinear_arith)
        requires
            n == 2 * r + 1,
    ;
    assert(lo <= t / n <= hi) by (nonlinear_arith)
        requires
            lo * n <= t <= hi * n,
            n > 0,
    ;
}

/// The line that is blurred: column `at`, or row `at`.
pub open spec fn line(m: Seq<u8>, w: int, h: int, at: int, down: bool) -> Seq<u8> {
    if down {
        column(m, w, h, at)
    } else {
        row(m, w, at)
    }
}

/// The cell at place `k` of a line.
spec fn line_cell(w: int, at: int, down: bool, k: int) -> int {
    if down {
        cell(w, at, k)
    } else {
        cell(w, k, at)
    }
}

/// The place of cell `k` of a line, of a mask of `len` bytes.
fn line_place(w: usize, h: usize, at: usize, down: bool, k: usize, len: usize) -> (r: usize)
    requires
        w * h <= len,
        if down {
            at < w && k < h
        } else {
            at < h && k < w
        },
    ensures
        r == line_cell(w as int, at as int, down, k as int),
        r < w * h,
{
    let (x, y): (usize, usize) = if down {
        (at, k)
    } else {
        (k, at)
    };
    proof {
        lemma_cell(w as int, h as int, x as int, y as int);
        assert(0 <= y * w) by (nonlinear_arith)
            requires
                0 <= y,
                0 <= w,
        ;
    }
    y * w + x
}

/// Blurs one line of `src` into `dst`.
fn blur_line(src: &[u8], w: usize, h: usize, r: usize, at: usize, down: bool, dst: &mut Vec<u8>)
    requires
        w * h <= src.len(),
        src.len() == old(dst).len(),
        r <= 0x7fff_ffff,
        if down {
            at < w && 0 < h
        } else {
            at < h && 0 < w
        },
    ensures
        final(dst).len() == old(dst).len(),
        forall|x: int, y: int|
            0 <= x < w && 0 <= y < h ==> final(dst)@[#[trigger] cell(w as int, x, y)] == if (if down {
                x
            } else {
                y
            }) == at {
                level(
                    line(src@, w as int, h as int, at as int, down),
                    if down {
                        y
                    } else {
                        x
                    },
                    r as int,
                ) as u8
            } else {
                old(dst)@[cell(w as int, x, y)]
            },
        forall|i: int| w * h <= i < old(dst).len() ==> final(dst)@[i] == old(dst)@[i],
{
    let ghost s = line(src@, w as int, h as int, at as int, down);
    let n: usize = if down {
        h
    } else {
        w
    };
    let window: u64 = 2 * r as u64 + 1;
    let mut sum: u64 = 0;
    let mut j: u64 = 0;
    while j < window
        invariant
            w * h <= src.len(),
            r <= 0x7fff_ffff,
            window == 2 * r + 1,
            n == (if down {
                h
            } else {
                w
            }),
            0 < n,
            if down {
                at < w
            } else {
                at < h
            },
            s == line(src@, w as int, h as int, at as int, down),
            j <= window,
            sum == span(s, -r, j - r),
            sum <= 255 * j,
        decreases window - j,
    {
        let k: usize = if j <= r as u64 {
            0
        } else if j - r as u64 >= n as u64 {
            n - 1
        } else {
            (j - r as u64) as usize
        };
        let p: usize = line_place(w, h, at, down, k, src.len());
        assert(s[k as int] == src@[p as int]);
        assert(along(s, j - r) == src@[p as int]);
        sum = sum + src[p] as u64;
        j = j + 1;
    }
    let mut x: usize = 0;
    while x < n
        invariant
            w * h <= src.len(),
            src.len() == dst.len(),
            dst.len() == old(dst).len(),
            r <= 0x7fff_ffff,
            window == 2 * r + 1,
            n == (if down {
                h
            } else {
                w
            }),
            if down {
                at < w
            } else {
                at < h
            },
            s == line(src@, w as int, h as int, at as int, down),
            x <= n,
            sum == span(s, x - r, x + r + 1),
            forall|a: int, b: int|
                0 <= a < w && 0 <= b < h ==> dst@[#[trigger] cell(w as int, a, b)] == if (if down {
                    a
                } else {
                    b
                }) == at && (if down {
                    b
                } else {
                    a
                }) < x {
                    level(
                        s,
                        if down {
                            b
                        } else {
                            a
                        },
                        r as int,
                    ) as u8
                } else {
                    old(dst)@[cell(w as int, a, b)]
                },
            forall|i: int| w * h <= i < old(dst).len() ==> dst@[i] == old(dst)@[i],
        decreases n - x,
    {
        let p: usize = line_place(w, h, at, down, x, src.len());
        let out: usize = if x >= r {
            x - r
        } else {
            0
        };
        let into: usize = if r + 1 >= n - x {
            n - 1
        } else {
            x + r + 1
        };
        let q: usize = line_place(w, h, at, down, out, src.len());
        let t: usize = line_place(w, h, at, down, into, src.len());
        proof {
            assert(s.len() == n);
            lemma_level_between(s, x as int, r as int, 0, 255);
            lemma_span_between(s, x - r, x + r + 1, 0, 255);
            lemma_span_first(s, x - r, x + r + 1);
            lemma_span_between(s, x + 1 - r, x + r + 1, 0, 255);
            assert(along(s, x - r) == src@[q as int]);
            assert(along(s, x + r + 1) == src@[t as int]);
        }
        let ghost before = dst@;
        let v: u8 = (sum / window) as u8;
        dst.set(p, v);
        assert forall|a: int, b: int| 0 <= a < w && 0 <= b < h implies dst@[#[trigger] cell(
            w as int,
            a,
            b,
        )] == if (if down {
            a
        } else {
            b
        }) == at && (if down {
            b
        } else {
            a
        }) < x + 1 {
            level(
                s,
                if down {
                    b
                } else {
                    a
                },
                r as int,
            ) as u8
        } else {
            old(dst)@[cell(w as int, a, b)]
        } by {
            lemma_cell(w as int, h as int, a, b);
            if down {
                lemma_cell(w as int, h as int, at as int, x as int);
            } else {
                lemma_cell(w as int, h as int, x as int, at as int);
            }
        }
        sum = sum - src[q] as u64 + src[t] as u64;
        x = x + 1;
    }
}

/// Blurs every row of a mask, or every column.
fn blur_lines(src: &[u8], w: usize, h: usize, r: usize, down: bool) -> (dst: Vec<u8>)
    requires
        w * h <= src.len(),
        r <= 0x7fff_ffff,
    ensures
        dst@ == (if down {
            blurred_down(src@, w as int, h as int, r as int)
        } else {
            blurred_across(src@, w as int, h as int, r as int)
        }),
{
    let mut dst: Vec<u8> = crate::pixels::zero_bytes(src.len());
    let n: usize = if down {
        w
    } else {
        h
    };
    if w > 0 && h > 0 {
        let mut at: usize = 0;
        while at < n
            invariant
                w > 0,
                h > 0,
                w * h <= src.len(),
                src.len() == dst.len(),
                r <= 0x7fff_ffff,
                n == (if down {
                    w
                } else {
                    h
                }),
                at <= n,
                forall|x: int, y: int|
                    0 <= x < w && 0 <= y < h && (if down {
                        x
                    } else {
                        y
                    }) < at ==> dst@[#[trigger] cell(w as int, x, y)] == level(
                        line(
                            src@,
                            w as int,
                            h as int,
                            if down {
                                x
                            } else {
                                y
                            },
                            down,
                        ),
                        if down {
                            y
                        } else {
                            x
                        },
                        r as int,
                    ) as u8,
                forall|i: int| w * h <= i < dst.len() ==> dst@[i] == 0,
            decreases n - at,
        {
            blur_line(src, w, h, r, at, down, &mut dst);
            at = at + 1;
        }
    }
    proof {
        let goal = if down {
            blurred_down(src@, w as int, h as int, r as int)
        } else {
            blurred_across(src@, w as int, h as int, r as int)
        };
        assert(w == 0 || h == 0 ==> w * h == 0) by (nonlinear_arith);
        assert forall|i: int| 0 <= i < dst.len() implies dst@[i] == goal[i] by {
            if i < w * h {
                lemma_cell_of(w as int, h as int, i);
                assert(dst@[cell(w as int, i % (w as int), i / (w as int))] == goal[i]);
            }
        }
        assert(dst@ =~= goal);
    }
    dst
}

/// A mask blurred along its rows and then its columns.
fn box_blur_1ch(src: &[u8], width: usize, height: usize, radius: usize) -> (r: Vec<u8>)
    requires
        width * height <= src.len(),
        radius <= 0x7fff_ffff,
    ensures
        r@ == blurred(src@, width as int, height as int, radius as int),
{
    let across = blur_lines(src, width, height, radius, false);
    blur_lines(across.as_slice(), width, height, radius, true)
}

/// A mask with its edge softened by `radius` cells; unchanged where that is none, or where the
/// mask has no width or no height.
pub fn feather_mask(mask: &[u8], width: usize, height: usize, radius: usize) -> (r: Vec<u8>)
    requires
        radius > 0 && width > 0 && height > 0 ==> width * height <= mask.len() && radius
            <= 0x7fff_ffff,
    ensures
        r@ == feathered(mask@, width as int, height as int, radius as int),
{
    if radius == 0 || width == 0 || height == 0 {
        return copied(mask);
    }
    let once = box_blur_1ch(mask, width, height, radius);
    box_blur_1ch(once.as_slice(), width, height, radius)
}

/// The same bytes again.
pub(crate) fn copied(s: &[u8]) -> (r: Vec<u8>)
    ensures
        r@ == s@,
{
    let mut v: Vec<u8> = Vec::new();
    let mut i: usize = 0;
    while i < s.len()
        invariant
            i <= s.len(),
            v@ == s@.take(i as int),
        decreases s.len() - i,
    {
        v.push(s[i]);
        i = i + 1;
        assert(v@ =~= s@.take(i as int));
    }
    assert(v@ =~= s@);
    v
}

/// Blurring a mask keeps its cells between the bounds they are in.
proof fn lemma_blurred_between(m: Seq<u8>, w: int, h: int, r: int, lo: int, hi: int)
    requires
        0 <= w,
        0 <= h,
        0 <= r,
        w * h <= m.len(),
        0 <= lo,
        hi <= 255,
        forall|i: int| 0 <= i < w * h ==> lo <= #[trigger] m[i] <= hi,
    ensures
        forall|i: int| 0 <= i < w * h ==> lo <= #[trigger] blurred(m, w, h, r)[i] <= hi,
{
    let a = blurred_across(m, w, h, r);
    assert forall|i: int| 0 <= i < w * h implies lo <= #[trigger] a[i] <= hi by {
        lemma_cell_of(w, h, i);
        let s = row(m, w, i / w);
        assert forall|k: int| 0 <= k < s.len() implies lo <= #[trigger] s[k] <= hi by {
            lemma_cell(w, h, k, i / w);
        }
        lemma_level_between(s, i % w, r, lo, hi);
    }
    let b = blurred(m, w, h, r);
    assert forall|i: int| 0 <= i < w * h implies lo <= #[trigger] b[i] <= hi by {
        lemma_cell_of(w, h, i);
        let s = column(a, w, h, i % w);
        assert forall|k: int| 0 <= k < s.len() implies lo <= #[trigger] s[k] <= hi by {
            lemma_cell(w, h, i % w, k);
        }
        lemma_level_between(s, i / w, r, lo, hi);
    }
}

/// Softening a mask keeps its cells between the bounds they are in. So a mask that selects all
/// selects all after it, and one that selects nothing, nothing.
pub proof fn feathering_stays_between(m: Seq<u8>, w: int, h: int, r: int, lo: int, hi: int)
    requires
        0 <= w,
        0 <= h,
        0 <= r,
        w * h <= m.len(),
        0 <= lo,
        hi <= 255,
        forall|i: int| 0 <= i < w * h ==> lo <= #[trigger] m[i] <= hi,
    ensures
        forall|i: int| 0 <= i < w * h ==> lo <= #[trigger] feathered(m, w, h, r)[i] <= hi,
{
    lemma_blurred_between(m, w, h, r, lo, hi);
    lemma_blurred_between(blurred(m, w, h, r), w, h, r, lo, hi);
}

/// Softening by nothing changes nothing, and neither does softening a mask without width or
/// height.
pub proof fn feathering_by_nothing_keeps(m: Seq<u8>, w: int, h: int, r: int)
    ensures
        r == 0 || w == 0 || h == 0 ==> feathered(m, w, h, r) == m,
{
}

/// Whether no row of a mask rises from left to right.
pub open spec fn falls(m: Seq<u8>, w: int, h: int) -> bool {
    forall|x: int, y: int|
        0 <= x && x + 1 < w && 0 <= y < h ==> #[trigger] m[cell(w, x, y)] >= m[cell(w, x + 1, y)]
}

/// A sum of values no less, place for place `d` apart, is no less.
proof fn lemma_span_no_less(s: Seq<u8>, t: Seq<u8>, d: int, from: int, to: int)
    requires
        forall|k: int| #[trigger] along(s, k) >= along(t, k + d),
    ensures
        span(s, from, to) >= span(t, from + d, to + d),
    decreases to - from,
{
    if from < to {
        lemma_span_no_less(s, t, d, from, to - 1);
        assert(along(s, to - 1) >= along(t, to - 1 + d));
    }
}

proof fn lemma_level_no_less(s: Seq<u8>, t: Seq<u8>, d: int, k: int, r: int)
    requires
        r >= 0,
        forall|k: int| #[trigger] along(s, k) >= along(t, k + d),
    ensures
        level(s, k, r) >= level(t, k + d, r),
{
    lemma_span_no_less(s, t, d, k - r, k + r + 1);
    assert(k + r + 1 + d == k + d + r + 1 && k - r + d == k + d - r);
    let a = span(s, k - r, k + r + 1);
    let b = span(t, k + d - r, k + d + r + 1);
    let n = 2 * r + 1;
    assert(a / n >= b / n) by (nonlinear_arith)
        requires
            a >= b,
            n > 0,
    ;
}

proof fn lemma_blurred_falls(m: Seq<u8>, w: int, h: int, r: int)
    requires
        0 <= r,
        w * h <= m.len(),
        falls(m, w, h),
    ensures
        falls(blurred(m, w, h, r), w, h),
{
    let a = blurred_across(m, w, h, r);
    let b = blurred(m, w, h, r);
    assert forall|x: int, y: int| 0 <= x && x + 1 < w && 0 <= y < h implies #[trigger] a[cell(
        w,
        x,
        y,
    )] >= a[cell(w, x + 1, y)] by {
        lemma_cell(w, h, x, y);
        lemma_cell(w, h, x + 1, y);
        let s = row(m, w, y);
        assert forall|k: int| #[trigger] along(s, k) >= along(s, k + 1) by {
            if 0 <= k && k + 1 < w {
                assert(m[cell(w, k, y)] >= m[cell(w, k + 1, y)]);
            }
        }
        lemma_level_no_less(s, s, 1, x, r);
        lemma_level_between(s, x, r, 0, 255);
        lemma_level_between(s, x + 1, r, 0, 255);
    }
    assert forall|x: int, y: int| 0 <= x && x + 1 < w && 0 <= y < h implies #[trigger] b[cell(
        w,
        x,
        y,
    )] >= b[cell(w, x + 1, y)] by {
        lemma_cell(w, h, x, y);
        lemma_cell(w, h, x + 1, y);
        let s = column(a, w, h, x);
        let t = column(a, w, h, x + 1);
        assert forall|k: int| #[trigger] along(s, k) >= along(t, k + 0) by {
            let j = if k < 0 {
                0
            } else if k >= h {
                h - 1
            } else {
                k
            };
            assert(a[cell(w, x, j)] >= a[cell(w, x + 1, j)]);
        }
        lemma_level_no_less(s, t, 0, y, r);
        lemma_level_between(s, y, r, 0, 255);
        lemma_level_between(t, y, r, 0, 255);
    }
}

/// Softening a mask whose rows fall from left to right gives one whose rows fall: the edge of
/// a selection becomes a ramp without bumps.
pub proof fn feathering_keeps_ramps(m: Seq<u8>, w: int, h: int, r: int)
    requires
        0 <= r,
        w * h <= m.len(),
        falls(m, w, h),
    ensures
        falls(feathered(m, w, h, r), w, h),
{
    lemma_blurred_falls(m, w, h, r);
    lemma_blurred_falls(blurred(m, w, h, r), w, h, r);
}

/// Whether no cell of a mask is less than that of another.
pub open spec fn covers(a: Seq<u8>, b: Seq<u8>, n: int) -> bool {
    forall|i: int| 0 <= i < n ==> #[trigger] a[i] >= b[i]
}

proof fn lemma_blurred_covers(a: Seq<u8>, b: Seq<u8>, w: int, h: int, r: int)
    requires
        0 <= w,
        0 <= h,
        0 <= r,
        w * h <= a.len(),
        w * h <= b.len(),
        covers(a, b, w * h),
    ensures
        covers(blurred(a, w, h, r), blurred(b, w, h, r), w * h),
{
    let c = blurred_across(a, w, h, r);
    let d = blurred_across(b, w, h, r);
    assert forall|i: int| 0 <= i < w * h implies #[trigger] c[i] >= d[i] by {
        lemma_cell_of(w, h, i);
        let s = row(a, w, i / w);
        let t = row(b, w, i / w);
        assert forall|k: int| #[trigger] along(s, k) >= along(t, k + 0) by {
            let j = if k < 0 {
                0
            } else if k >= w {
                w - 1
            } else {
                k
            };
            lemma_cell(w, h, j, i / w);
            assert(a[cell(w, j, i / w)] >= b[cell(w, j, i / w)]);
        }
        lemma_level_no_less(s, t, 0, i % w, r);
        lemma_level_between(s, i % w, r, 0, 255);
        lemma_level_between(t, i % w, r, 0, 255);
    }
    let e = blurred(a, w, h, r);
    let f = blurred(b, w, h, r);
    assert forall|i: int| 0 <= i < w * h implies #[trigger] e[i] >= f[i] by {
        lemma_cell_of(w, h, i);
        let s = column(c, w, h, i % w);
        let t = column(d, w, h, i % w);
        assert forall|k: int| #[trigger] along(s, k) >= along(t, k + 0) by {
            let j = if k < 0 {
                0
            } else if k >= h {
                h - 1
            } else {
                k
            };
            lemma_cell(w, h, i % w, j);
            assert(c[cell(w, i % w, j)] >= d[cell(w, i % w, j)]);
        }
        lemma_level_no_less(s, t, 0, i / w, r);
        lemma_level_between(s, i / w, r, 0, 255);
        lemma_level_between(t, i / w, r, 0, 255);
    }
}

/// A mask that selects no less than another selects no less when both are softened.
pub proof fn feathering_keeps_order(a: Seq<u8>, b: Seq<u8>, w: int, h: int, r: int)
    requires
        0 <= w,
        0 <= h,
        0 <= r,
        w * h <= a.len(),
        w * h <= b.len(),
        covers(a, b, w * h),
    ensures
        covers(feathered(a, w, h, r), feathered(b, w, h, r), w * h),
{
    lemma_blurred_covers(a, b, w, h, r);
    lemma_blurred_covers(blurred(a, w, h, r), blurred(b, w, h, r), w, h, r);
}

} // verus!
