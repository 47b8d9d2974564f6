//! What numbers are: how their bits order them, when they count as one, and how they are written.
use crate::nearness::{doublings, fraction, near, reach, units, FRACTION, STEP};
use crate::number::Real;
use crate::text::{decimal, decimal3, digit};
use vstd::arithmetic::power2::{
    lemma2_to64, lemma_pow2_adds, lemma_pow2_pos, lemma_pow2_unfold, pow2,
};
use vstd::prelude::*;

verus! {

/// A number whose first bit is set lies below zero, and one whose first bit is not set above. Above
/// zero the greater bits are the greater number, and below it the lesser.
pub proof fn numbers_follow_their_bits(a: Real, b: Real)
    requires
        !a.nan(),
        !b.nan(),
    ensures
        a.bits < b.bits < 0x8000_0000 ==> a.less(b),
        0x8000_0000 <= a.bits < b.bits ==> b.less(a),
        0x8000_0000 < a.bits && b.bits < 0x8000_0000 ==> a.less(b),
        a.bits == b.bits ==> a.same_number(b),
        a.bits == 0 && b.bits == 0x8000_0000 ==> a.same_number(b),
{
}

/// What has all bits of the exponent set and some of the fraction is no number, and what has all
/// bits of the exponent set is not finite.
pub proof fn bits_tell_numbers(a: Real)
    ensures
        a.nan() <==> (0x7f80_0000 < a.bits < 0x8000_0000 || 0xff80_0000 < a.bits),
        a.finite() <==> (a.bits < 0x7f80_0000 || 0x8000_0000 <= a.bits < 0xff80_0000),
{
}

/// The lesser of two numbers is one of the two and lies below neither, and the greater lies above
/// neither. What is no number does not count.
pub proof fn lesser_and_greater_are_extremes(a: Real, b: Real)
    ensures
        a.lesser(b) == a || a.lesser(b) == b,
        a.greater(b) == a || a.greater(b) == b,
        !a.less(a.lesser(b)) && !b.less(a.lesser(b)),
        !a.greater(b).less(a) && !a.greater(b).less(b),
        a.nan() ==> a.lesser(b) == b && a.greater(b) == b,
        b.nan() && !a.nan() ==> a.lesser(b) == a && a.greater(b) == a,
{
}

/// A number with its sign flipped is as far from zero, on the other side.
pub proof fn opposites_lie_across_zero(a: Real)
    ensures
        a.opposite().magnitude() == a.magnitude(),
        a.opposite().place() == -a.place(),
{
}

/// The greater magnitude is more units.
proof fn lemma_units_grow(x: int, y: int)
    requires
        0 <= x < y,
    ensures
        units(x) < units(y),
{
    let (f, g) = (fraction(x), fraction(y));
    let (s, t) = (doublings(x), doublings(y));
    let (p, q) = (pow2(s) as int, pow2(t) as int);
    lemma_pow2_pos(s);
    lemma_pow2_pos(t);
    lemma2_to64();
    assert(units(x) == f * p && units(y) == g * q);
    if y < FRACTION {
        assert(f * p < g * q) by (nonlinear_arith)
            requires
                p == 1,
                q == 1,
                f < g,
        ;
    } else if x < FRACTION {
        assert(f * p < g * q) by (nonlinear_arith)
            requires
                p == 1,
                q >= 1,
                0 <= f < g,
        ;
    } else if s == t {
        assert(f < g);
        assert(f * p < g * p) by (nonlinear_arith)
            requires
                f < g,
                p >= 1,
        ;
    } else {
        assert(s < t);
        lemma_pow2_adds(s, (t - s) as nat);
        lemma_pow2_pos((t - s) as nat);
        lemma_pow2_unfold((t - s) as nat);
        lemma_pow2_pos((t - s - 1) as nat);
        let m = pow2((t - s) as nat) as int;
        assert(m >= 2);
        assert(f * p < g * q) by (nonlinear_arith)
            requires
                0 <= f < 2 * 0x80_0000,
                g >= 0x80_0000,
                p >= 1,
                q == p * m,
                m >= 2,
        ;
    }
}

/// Numbers measure as they are ordered: of two finite numbers the lesser measures less, and a
/// number and its opposite measure the same across zero.
pub proof fn measures_follow_the_order(a: Real, b: Real)
    requires
        a.finite(),
        b.finite(),
    ensures
        a.less(b) <==> a.measure() < b.measure(),
        a.opposite().measure() == -a.measure(),
{
    let (x, y) = (a.magnitude(), b.magnitude());
    assert(units(0) == 0) by (nonlinear_arith)
        requires
            units(0) == fraction(0) * pow2(doublings(0)),
            fraction(0) == 0,
    ;
    if x < y {
        lemma_units_grow(x, y);
    } else if y < x {
        lemma_units_grow(y, x);
    }
    if 0 < x {
        lemma_units_grow(0, x);
    }
    if 0 < y {
        lemma_units_grow(0, y);
    }
}

/// Twice a number measures twice as much: the next exponent is one doubling more.
pub proof fn exponents_double(a: Real, b: Real)
    requires
        a.finite(),
        b.finite(),
        0x80_0000 <= a.bits,
        b.bits == a.bits + 0x80_0000,
        b.bits < 0x8000_0000,
    ensures
        b.measure() == 2 * a.measure(),
{
    let x = a.magnitude();
    assert((x + 0x80_0000) / 0x80_0000 == x / 0x80_0000 + 1);
    assert((x + 0x80_0000) % 0x80_0000 == x % 0x80_0000);
    lemma_pow2_unfold(doublings(x + 0x80_0000));
    let (f, p, q) = (fraction(x), pow2(doublings(x)) as int, pow2(doublings(x + 0x80_0000)) as int);
    assert(f * q == 2 * (f * p)) by (nonlinear_arith)
        requires
            q == 2 * p,
    ;
}

/// A number counts as zero exactly where it lies nearer to it than half a thousandth, the bits of
/// which are `0x3a03126f`.
pub proof fn half_a_thousandth_is_near(a: Real)
    ensures
        near(Real { bits: 0 }, a) <==> a.magnitude() < 0x3a03_126f,
{
    let m = a.magnitude();
    let p = pow2(STEP as nat) as int;
    lemma_pow2_pos(STEP as nat);
    lemma_pow2_unfold(115);
    lemma2_to64();
    assert(reach() == 0x0106_24dd * p);
    assert(units(0) == 0) by (nonlinear_arith)
        requires
            units(0) == fraction(0) * pow2(doublings(0)),
            fraction(0) == 0,
    ;
    assert(fraction(0x3a03_126f) == 0x83_126f && doublings(0x3a03_126f) == 115);
    assert(fraction(0x3a03_126e) == 0x83_126e && doublings(0x3a03_126e) == 115);
    assert(units(0x3a03_126f) == 0x0106_24de * p);
    assert(units(0x3a03_126e) == 0x0106_24dc * p);
    if m > 0x3a03_126f {
        lemma_units_grow(0x3a03_126f, m);
    }
    if m < 0x3a03_126e {
        lemma_units_grow(m, 0x3a03_126e);
    }
    if 0 < m {
        lemma_units_grow(0, m);
    }
}

/// What lies between two numbers that count as one counts as one with either.
pub proof fn nearness_spans_what_lies_between(a: Real, b: Real, c: Real)
    requires
        near(a, c),
        b.finite(),
        !b.less(a),
        !c.less(b),
    ensures
        near(a, b),
        near(b, c),
{
    measures_follow_the_order(b, a);
    measures_follow_the_order(c, b);
    measures_follow_the_order(a, b);
}

/// The number that some decimal digits say.
pub open spec fn said(digits: Seq<char>) -> int
    decreases digits.len(),
{
    if digits.len() == 0 {
        0
    } else {
        10 * said(digits.drop_last()) + (digits.last() as int - '0' as int)
    }
}

/// The digits of a number say it, and do not begin with a zero unless that is the number.
pub proof fn digits_say_the_number(n: nat)
    ensures
        said(decimal(n)) == n,
        decimal(n).len() > 0,
        n > 0 ==> decimal(n)[0] != '0',
        forall|k: int|
            0 <= k < decimal(n).len() ==> '0' <= #[trigger] decimal(n)[k] && decimal(n)[k] <= '9',
    decreases n,
{
    reveal_with_fuel(said, 2);
    if n < 10 {
        assert(decimal(n).drop_last() =~= Seq::empty());
    } else {
        digits_say_the_number(n / 10);
        assert(decimal(n).drop_last() =~= decimal(n / 10));
        assert(decimal(n).last() == digit((n % 10) as int));
    }
}

/// Zeros in front do not change what digits say.
proof fn lemma_leading_zero(digits: Seq<char>)
    ensures
        said(seq!['0'] + digits) == said(digits),
    decreases digits.len(),
{
    let all = seq!['0'] + digits;
    reveal_with_fuel(said, 2);
    if digits.len() == 0 {
        assert(all.drop_last() =~= Seq::empty());
    } else {
        lemma_leading_zero(digits.drop_last());
        assert(all.drop_last() =~= seq!['0'] + digits.drop_last());
        assert(all.last() == digits.last());
    }
}

/// Written with three digits at least, a number is still said, and numbers below a thousand have
/// just three.
pub proof fn three_digits_say_the_number(n: nat)
    ensures
        said(decimal3(n)) == n,
        decimal3(n).len() >= 3,
        n < 1000 ==> decimal3(n).len() == 3,
{
    digits_say_the_number(n);
    reveal_with_fuel(decimal, 4);
    if n < 10 {
        lemma_leading_zero(decimal(n));
        lemma_leading_zero(seq!['0'] + decimal(n));
        assert(decimal3(n) =~= seq!['0'] + (seq!['0'] + decimal(n)));
    } else if n < 100 {
        lemma_leading_zero(decimal(n));
    } else {
        assert(n / 10 >= 10 && n / 100 >= 1);
    }
}

} // verus!
