//! Single-precision numbers as plain values.
//!
//! A [`Real`] is the IEEE 754 bit pattern of a number. The library stores, compares,
//! clamps and moves such numbers; arithmetic on them belongs to the caller.
use vstd::prelude::*;

verus! {

/// A single-precision number, held as its bit pattern: sign bit, eight exponent bits,
/// twenty-three fraction bits.
#[derive(Clone, Copy, Debug, PartialEq, Eq, Structural)]
pub struct Real {
    pub bits: u32,
}

/// The weight of the sign bit.
pub const SIGN: u32 = 0x8000_0000;

/// The magnitude of an infinity. Larger magnitudes are not numbers.
pub const INFINITE: u32 = 0x7f80_0000;

/// The bit pattern of zero.
pub const ZERO_BITS: u32 = 0;

/// The bit pattern of one.
pub const ONE_BITS: u32 = 0x3f80_0000;

/// The bit pattern of one half.
pub const HALF_BITS: u32 = 0x3f00_0000;

/// The bit pattern of minus one half.
pub const MINUS_HALF_BITS: u32 = 0xbf00_0000;

impl Real {
    /// The bit pattern without its sign.
    pub open spec fn magnitude(self) -> int {
        if self.bits < SIGN { self.bits as int } else { self.bits - SIGN }
    }

    /// Whether the pattern is no number.
    pub open spec fn nan(self) -> bool {
        self.magnitude() > INFINITE
    }

    /// Whether the pattern is neither an infinity nor no number.
    pub open spec fn finite(self) -> bool {
        self.magnitude() < INFINITE
    }

    /// The place of a number in the order of all numbers. Both zeros have place 0.
    pub open spec fn place(self) -> int {
        if self.bits < SIGN { self.magnitude() } else { -self.magnitude() }
    }

    /// `self < other`, false where either is no number.
    pub open spec fn less(self, other: Real) -> bool {
        !self.nan() && !other.nan() && self.place() < other.place()
    }

    /// `self == other` as numbers: no number equals nothing, and the zeros are equal.
    pub open spec fn same_number(self, other: Real) -> bool {
        !self.nan() && !other.nan() && self.place() == other.place()
    }

    /// `self <= other`, false where either is no number.
    pub open spec fn at_most(self, other: Real) -> bool {
        self.less(other) || self.same_number(other)
    }

    /// `self` held to `lo ..= hi`; what is no number stays as it is.
    pub open spec fn held(self, lo: Real, hi: Real) -> Real {
        if self.less(lo) {
            lo
        } else if hi.less(self) {
            hi
        } else {
            self
        }
    }

    /// The lesser of two numbers; where one is no number, the other.
    pub open spec fn lesser(self, other: Real) -> Real {
        if self.nan() || other.less(self) {
            other
        } else {
            self
        }
    }

    /// The greater of two numbers; where one is no number, the other.
    pub open spec fn greater(self, other: Real) -> Real {
        if self.nan() || self.less(other) {
            other
        } else {
            self
        }
    }

    /// Whether two numbers are written alike in a document, where every number that is not
    /// finite is written as the same blank.
    pub open spec fn alike(self, other: Real) -> bool {
        self == other || (!self.finite() && !other.finite())
    }

    /// The number with its sign flipped.
    pub open spec fn opposite(self) -> Real {
        Real {
            bits: if self.bits < SIGN {
                (self.bits + SIGN) as u32
            } else {
                (self.bits - SIGN) as u32
            },
        }
    }

    /// The number with its sign flipped.
    pub fn negated(self) -> (r: Real)
        ensures
            r == self.opposite(),
    {
        Real {
            bits: if self.bits < SIGN {
                self.bits + SIGN
            } else {
                self.bits - SIGN
            },
        }
    }

    /// The bit pattern without its sign.
    pub fn magnitude_bits(self) -> (r: u32)
        ensures
            r == self.magnitude(),
    {
        if self.bits < SIGN {
            self.bits
        } else {
            self.bits - SIGN
        }
    }

    /// Whether the pattern is no number.
    pub fn is_nan(self) -> (r: bool)
        ensures
            r == self.nan(),
    {
        self.magnitude_bits() > INFINITE
    }

    /// Whether the pattern is a finite number.
    pub fn is_finite(self) -> (r: bool)
        ensures
            r == self.finite(),
    {
        self.magnitude_bits() < INFINITE
    }

    /// `self < other` as numbers.
    pub fn lt(self, other: Real) -> (r: bool)
        ensures
            r == self.less(other),
    {
        if self.is_nan() || other.is_nan() {
            return false;
        }
        let a: u32 = self.magnitude_bits();
        let b: u32 = other.magnitude_bits();
        if self.bits < SIGN {
            other.bits < SIGN && a < b
        } else if other.bits < SIGN {
            a > 0 || b > 0
        } else {
            a > b
        }
    }

    /// `self <= other` as numbers.
    pub fn le(self, other: Real) -> (r: bool)
        ensures
            r == self.at_most(other),
    {
        !self.is_nan() && !other.is_nan() && !other.lt(self)
    }

    /// `self == other` as numbers.
    pub fn equals(self, other: Real) -> (r: bool)
        ensures
            r == self.same_number(other),
    {
        !self.is_nan() && !other.is_nan() && !self.lt(other) && !other.lt(self)
    }

    /// The lesser of two numbers.
    pub fn min(self, other: Real) -> (r: Real)
        ensures
            r == self.lesser(other),
    {
        if self.is_nan() || other.lt(self) {
            other
        } else {
            self
        }
    }

    /// The greater of two numbers.
    pub fn max(self, other: Real) -> (r: Real)
        ensures
            r == self.greater(other),
    {
        if self.is_nan() || self.lt(other) {
            other
        } else {
            self
        }
    }

    /// `self` held to `lo ..= hi`.
    pub fn clamp(self, lo: Real, hi: Real) -> (r: Real)
        requires
            !hi.less(lo) && !lo.nan() && !hi.nan(),
        ensures
            r == self.held(lo, hi),
    {
        if self.lt(lo) {
            lo
        } else if hi.lt(self) {
            hi
        } else {
            self
        }
    }

    /// Whether two numbers are written alike in a document.
    pub fn is_alike(self, other: Real) -> (r: bool)
        ensures
            r == self.alike(other),
    {
        self.bits == other.bits || (!self.is_finite() && !other.is_finite())
    }
}

/// Comparing as numbers is a strict order that relates any two numbers.
pub proof fn order_is_total(a: Real, b: Real, c: Real)
    ensures
        !a.less(a),
        a.less(b) && b.less(c) ==> a.less(c),
        !a.nan() && !b.nan() ==> a.less(b) || a.same_number(b) || b.less(a),
{
}

/// A number held to an interval lies in it, and holding it again changes nothing.
pub proof fn held_lies_between(x: Real, lo: Real, hi: Real)
    requires
        !hi.less(lo) && !lo.nan() && !hi.nan(),
    ensures
        !x.nan() ==> !x.held(lo, hi).less(lo) && !hi.less(x.held(lo, hi)),
        x.held(lo, hi).held(lo, hi) == x.held(lo, hi),
{
}

/// Flipping the sign twice changes nothing, and turns the order around.
pub proof fn opposite_turns_the_order(a: Real, b: Real)
    ensures
        a.opposite().opposite() == a,
        a.opposite().less(b.opposite()) == b.less(a),
{
}

/// A point or a direction in space.
#[derive(Clone, Copy, Debug, PartialEq, Eq, Structural)]
pub struct Vec3 {
    pub x: Real,
    pub y: Real,
    pub z: Real,
}

/// A rotation, as a quaternion.
#[derive(Clone, Copy, Debug, PartialEq, Eq, Structural)]
pub struct Quat {
    pub x: Real,
    pub y: Real,
    pub z: Real,
    pub w: Real,
}

impl Vec3 {
    pub fn new(x: Real, y: Real, z: Real) -> (r: Vec3)
        ensures
            r == (Vec3 { x, y, z }),
    {
        Vec3 { x, y, z }
    }

    /// Whether two points are written alike in a document.
    pub open spec fn alike(self, other: Vec3) -> bool {
        self.x.alike(other.x) && self.y.alike(other.y) && self.z.alike(other.z)
    }

    /// Whether two points are written alike in a document.
    pub fn is_alike(self, other: Vec3) -> (r: bool)
        ensures
            r == self.alike(other),
    {
        self.x.is_alike(other.x) && self.y.is_alike(other.y) && self.z.is_alike(other.z)
    }
}

impl Quat {
    /// Whether two rotations are written alike in a document.
    pub open spec fn alike(self, other: Quat) -> bool {
        self.x.alike(other.x) && self.y.alike(other.y) && self.z.alike(other.z) && self.w.alike(
            other.w,
        )
    }

    /// Whether two rotations are written alike in a document.
    pub fn is_alike(self, other: Quat) -> (r: bool)
        ensures
            r == self.alike(other),
    {
        self.x.is_alike(other.x) && self.y.is_alike(other.y) && self.z.is_alike(other.z)
            && self.w.is_alike(other.w)
    }
}

} // verus!
