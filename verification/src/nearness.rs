//! Times that are so near to each other that they count as one.
//!
//! Numbers are measured in units of the least one above zero. Half a thousandth is `0x83126f`
//! steps of as many units as `STEP` doublings give, and the number just below it is one step
//! less. A difference is rounded to the nearest number, and one that lies halfway to the even one
//! of the two. So the rounded difference of two numbers is less than half a thousandth exactly
//! where the difference itself is at most halfway between those two.
use crate::number::{Real, INFINITE, SIGN};
use vstd::arithmetic::power2::{
    lemma2_to64, lemma2_to64_rest, lemma_pow2_adds, lemma_pow2_pos, lemma_pow2_strictly_increases,
    lemma_pow2_unfold, pow2,
};
use vstd::prelude::*;

verus! {

/// How often a unit is doubled to make half a step.
pub const STEP: u32 = 114;

/// How many half steps two numbers that count as one are apart at most.
pub const NEAR_STEPS: i64 = 0x0106_24dd;

/// The bit pattern of sixteen thousand and three hundred eighty-four. Numbers from there on are
/// further apart than those that count as one.
pub const FAR_BITS: u32 = 0x4680_0000;

/// The weight of the lowest exponent bit.
pub const FRACTION: u32 = 0x80_0000;

/// The fraction of a magnitude, as a whole number.
pub open spec fn fraction(magnitude: int) -> int {
    if magnitude < FRACTION {
        magnitude
    } else {
        FRACTION + magnitude % (FRACTION as int)
    }
}

/// How often the fraction of a magnitude is doubled.
pub open spec fn doublings(magnitude: int) -> nat {
    if magnitude < FRACTION {
        0
    } else {
        (magnitude / (FRACTION as int) - 1) as nat
    }
}

/// How many units a magnitude is.
pub open spec fn units(magnitude: int) -> int {
    fraction(magnitude) * pow2(doublings(magnitude))
}

impl Real {
    /// How many units a finite number is.
    pub open spec fn measure(self) -> int {
        if self.bits < SIGN {
            units(self.magnitude())
        } else {
            -units(self.magnitude())
        }
    }
}

/// How many units two numbers that count as one are apart at most.
pub open spec fn reach() -> int {
    NEAR_STEPS * pow2(STEP as nat)
}

/// Whether the difference of two numbers, rounded to a number, is less than half a thousandth.
pub open spec fn near(a: Real, b: Real) -> bool {
    a.finite() && b.finite() && -reach() <= a.measure() - b.measure() <= reach()
}

/// Being near goes both ways, and a finite number is near to itself, whatever the sign of a zero.
pub proof fn nearness_is_mutual(a: Real, b: Real)
    ensures
        near(a, b) == near(b, a),
        a.finite() && a.same_number(b) ==> near(a, b),
{
    lemma_pow2_pos(STEP as nat);
    assert(reach() >= 0) by (nonlinear_arith)
        requires
            reach() == NEAR_STEPS * pow2(STEP as nat),
            pow2(STEP as nat) > 0,
    ;
    assert(units(0) == 0) by (nonlinear_arith)
        requires
            units(0) == fraction(0) * pow2(doublings(0)),
            fraction(0) == 0,
    ;
}

/// Two to a power.
fn two_to(n: u32) -> (r: u128)
    requires
        n <= 126,
    ensures
        r == pow2(n as nat),
        r > 0,
{
    let mut r: u128 = 1;
    let mut i: u32 = 0;
    proof {
        lemma2_to64();
    }
    while i < n
        invariant
            i <= n <= 126,
            r == pow2(i as nat),
            r > 0,
        decreases n - i,
    {
        proof {
            lemma_pow2_unfold((i + 1) as nat);
            lemma_pow2_adds(63, 63);
            lemma2_to64_rest();
            assert(pow2(126) == 0x8000_0000_0000_0000 * 0x8000_0000_0000_0000);
            if i < 126 {
                lemma_pow2_strictly_increases(i as nat, 126);
            }
        }
        r = r * 2;
        i = i + 1;
    }
    r
}

/// A magnitude in half steps, and the units that are left.
fn steps_of(magnitude: u32) -> (r: (u64, u128))
    requires
        magnitude < FAR_BITS,
    ensures
        units(magnitude as int) == r.0 * pow2(STEP as nat) + r.1,
        r.1 < pow2(STEP as nat),
        r.0 <= 0x10_0000_0000_0000,
{
    let (f, s): (u32, u32) = if magnitude < FRACTION {
        (magnitude, 0)
    } else {
        (FRACTION + magnitude % FRACTION, magnitude / FRACTION - 1)
    };
    assert(f == fraction(magnitude as int) && s == doublings(magnitude as int));
    assert(f < 0x100_0000 && s <= 139);
    if s >= STEP {
        let q: u128 = two_to(s - STEP);
        proof {
            let k = (s - STEP) as nat;
            lemma_pow2_adds(k, STEP as nat);
            lemma_pow2_pos(STEP as nat);
            lemma2_to64();
            if k < 25 {
                lemma_pow2_strictly_increases(k, 25);
            }
            assert(q <= 0x200_0000);
            assert(f * q <= 0x100_0000 * 0x200_0000) by (nonlinear_arith)
                requires
                    0 <= f <= 0x100_0000,
                    0 <= q <= 0x200_0000,
            ;
            let p = pow2(STEP as nat);
            assert(f * (q * p) == (f * q) * p) by (nonlinear_arith);
        }
        (f as u64 * q as u64, 0)
    } else {
        let p: u128 = two_to(STEP - s);
        let q: u128 = two_to(s);
        let whole: u128 = f as u128 / p;
        let left: u128 = f as u128 % p;
        proof {
            lemma_pow2_adds((STEP - s) as nat, s as nat);
            lemma_pow2_pos((STEP - s) as nat);
            lemma_pow2_pos(s as nat);
            assert(p * q == pow2(STEP as nat));
            assert(f == whole * p + left && left < p && whole <= f) by (nonlinear_arith)
                requires
                    p > 0,
                    whole == f as int / p as int,
                    left == f as int % p as int,
                    f >= 0,
            ;
            assert(f * q == whole * (p * q) + left * q) by (nonlinear_arith)
                requires
                    f == whole * p + left,
            ;
            assert(left * q < p * q) by (nonlinear_arith)
                requires
                    left < p,
                    q > 0,
            ;
            lemma_step_fits();
        }
        (whole as u64, left * q)
    }
}

/// A half step is less than what a machine number holds.
proof fn lemma_step_fits()
    ensures
        pow2(STEP as nat) <= u128::MAX,
{
    lemma_pow2_strictly_increases(STEP as nat, 126);
    lemma_pow2_adds(63, 63);
    lemma2_to64_rest();
    assert(pow2(126) == 0x8000_0000_0000_0000 * 0x8000_0000_0000_0000);
}

/// A number in half steps, rounded down, and the units that are left.
fn parts_of(a: Real) -> (r: (i64, u128))
    requires
        a.magnitude() < FAR_BITS,
    ensures
        a.measure() == r.0 * pow2(STEP as nat) + r.1,
        r.1 < pow2(STEP as nat),
        -0x10_0000_0000_0001 <= r.0 <= 0x10_0000_0000_0000,
{
    let (h, l) = steps_of(a.magnitude_bits());
    if a.bits < SIGN {
        (h as i64, l)
    } else if l == 0 {
        proof {
            let p = pow2(STEP as nat);
            assert((-h) * p == -(h * p)) by (nonlinear_arith);
            lemma_pow2_pos(STEP as nat);
        }
        (-(h as i64), 0)
    } else {
        proof {
            let p = pow2(STEP as nat);
            assert((-h - 1) * p == -(h * p) - p) by (nonlinear_arith);
            lemma_step_fits();
        }
        let step: u128 = two_to(STEP);
        (-(h as i64) - 1, step - l)
    }
}

/// Two different magnitudes of which the greater is far from zero are further apart than those
/// that count as one.
proof fn lemma_far(x: int, y: int)
    requires
        FAR_BITS <= x < INFINITE,
        0 <= y < x,
    ensures
        units(x) - units(y) > reach(),
        units(x) > reach(),
        units(y) >= 0,
{
    let (f, g) = (fraction(x), fraction(y));
    let (s, t) = (doublings(x), doublings(y));
    let p = pow2(STEP as nat);
    let half = pow2((s - 1) as nat);
    assert(s >= 140);
    lemma_pow2_pos(STEP as nat);
    lemma_pow2_pos(s);
    lemma_pow2_pos(t);
    lemma_pow2_pos((s - 1) as nat);
    lemma_pow2_unfold(s);
    assert(pow2(s) == 2 * half);
    lemma_pow2_adds(25, STEP as nat);
    lemma2_to64();
    if 139 < s - 1 {
        lemma_pow2_strictly_increases(139, (s - 1) as nat);
    }
    assert(half > reach()) by (nonlinear_arith)
        requires
            half >= 0x200_0000 * p,
            p > 0,
            reach() == NEAR_STEPS * p,
    ;
    assert(0 <= g < 0x100_0000);
    assert(units(y) >= 0) by (nonlinear_arith)
        requires
            units(y) == g * pow2(t),
            g >= 0,
            pow2(t) > 0,
    ;
    assert(units(x) >= 0x100_0000 * half) by (nonlinear_arith)
        requires
            units(x) == f * pow2(s),
            pow2(s) == 2 * half,
            f >= 0x80_0000,
            half > 0,
    ;
    assert(t <= s);
    if t == s {
        assert(f - g >= 1);
        assert(units(x) - units(y) >= half) by (nonlinear_arith)
            requires
                units(x) == f * pow2(s),
                units(y) == g * pow2(s),
                f - g >= 1,
                pow2(s) == 2 * half,
                half > 0,
        ;
    } else {
        if t < s - 1 {
            lemma_pow2_strictly_increases(t, (s - 1) as nat);
        }
        assert(units(y) <= 0xff_ffff * half) by (nonlinear_arith)
            requires
                units(y) == g * pow2(t),
                0 <= g <= 0xff_ffff,
                0 < pow2(t) <= half,
        ;
    }
}

/// Numbers far from zero are near only where they are equal.
proof fn lemma_far_apart(a: Real, b: Real)
    requires
        a.finite(),
        b.finite(),
        a.magnitude() >= FAR_BITS || b.magnitude() >= FAR_BITS,
    ensures
        near(a, b) == a.same_number(b),
{
    let (x, y) = (a.magnitude(), b.magnitude());
    nearness_is_mutual(a, b);
    if x > y {
        lemma_far(x, y);
    } else if y > x {
        lemma_far(y, x);
    } else {
        lemma_far(x, 0);
    }
}

/// Whether two numbers count as one.
pub fn is_near(a: Real, b: Real) -> (r: bool)
    ensures
        r == near(a, b),
{
    if !a.is_finite() || !b.is_finite() {
        return false;
    }
    if a.magnitude_bits() >= FAR_BITS || b.magnitude_bits() >= FAR_BITS {
        proof {
            lemma_far_apart(a, b);
        }
        return a.equals(b);
    }
    let (h, l) = parts_of(a);
    let (k, m) = parts_of(b);
    let d: i64 = h - k;
    let r: bool = (d < NEAR_STEPS || d == NEAR_STEPS && l <= m) && (d > -NEAR_STEPS || d
        == -NEAR_STEPS && l >= m);
    proof {
        let p = pow2(STEP as nat);
        let n = NEAR_STEPS as int;
        let rest = l - m;
        assert(a.measure() - b.measure() == d * p + rest) by (nonlinear_arith)
            requires
                a.measure() == h * p + l,
                b.measure() == k * p + m,
                d == h - k,
                rest == l - m,
        ;
        assert(d < n ==> d * p + rest < n * p) by (nonlinear_arith)
            requires
                rest < p,
                p > 0,
        ;
        assert(d > n ==> d * p + rest > n * p) by (nonlinear_arith)
            requires
                rest > -p,
                p > 0,
        ;
        assert(d < -n ==> d * p + rest < -n * p) by (nonlinear_arith)
            requires
                rest < p,
                p > 0,
        ;
        assert(d > -n ==> d * p + rest > -n * p) by (nonlinear_arith)
            requires
                rest > -p,
                p > 0,
        ;
        assert(-n * p == -(n * p)) by (nonlinear_arith);
    }
    r
}

} // verus!
