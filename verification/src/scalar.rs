//! IEEE-754 numbers carried as bit patterns, and exact fractions.
//!
//! The library never computes with reals; it stores them, hands them on, and compares
//! them. Comparison works on the bit pattern: sign and magnitude order the numbers, the
//! two zeros are equal, and a NaN compares false with everything.

use vstd::prelude::*;

verus! {

/// A single-precision number.
#[derive(Debug, Clone, Copy, PartialEq, Eq, Hash, Structural)]
pub struct Real32 {
    pub bits: u32,
}

/// A double-precision number.
#[derive(Debug, Clone, Copy, PartialEq, Eq, Hash, Structural)]
pub struct Real64 {
    pub bits: u64,
}

impl Real32 {
    #[verifier::allow_in_spec]
    pub fn zero() -> Real32
        returns
            (Real32 { bits: 0 }),
    {
        Real32 { bits: 0 }
    }

    #[verifier::allow_in_spec]
    pub fn one() -> Real32
        returns
            (Real32 { bits: 0x3f80_0000 }),
    {
        Real32 { bits: 0x3f80_0000 }
    }

    /// The bit pattern is not a number.
    pub open spec fn is_nan_spec(self) -> bool {
        self.bits % 0x8000_0000 > 0x7f80_0000
    }

    /// Position on the number line; both zeros are at 0.
    pub open spec fn rank(self) -> int {
        if self.bits < 0x8000_0000 {
            self.bits as int
        } else {
            0x8000_0000 - self.bits
        }
    }

    /// `self < other` as numbers.
    pub open spec fn below(self, other: Real32) -> bool {
        !self.is_nan_spec() && !other.is_nan_spec() && self.rank() < other.rank()
    }

    pub fn is_nan(self) -> (b: bool)
        ensures
            b == self.is_nan_spec(),
    {
        self.bits % 0x8000_0000 > 0x7f80_0000
    }

    /// Numeric `<`.
    pub fn less(self, other: Real32) -> (b: bool)
        ensures
            b == self.below(other),
    {
        if self.is_nan() || other.is_nan() {
            return false;
        }
        let a: i64 = if self.bits < 0x8000_0000 {
            self.bits as i64
        } else {
            0x8000_0000i64 - self.bits as i64
        };
        let b: i64 = if other.bits < 0x8000_0000 {
            other.bits as i64
        } else {
            0x8000_0000i64 - other.bits as i64
        };
        a < b
    }

    /// Limit to `0.0..=1.0`; a NaN and a negative zero pass unchanged.
    pub fn clamp_unit(self) -> (r: Real32)
        ensures
            r == clamped_unit(self),
    {
        if self.less(Real32::zero()) {
            Real32::zero()
        } else if Real32::one().less(self) {
            Real32::one()
        } else {
            self
        }
    }
}

/// A number limited to the unit interval.
pub open spec fn clamped_unit(v: Real32) -> Real32 {
    if v.below(Real32::zero()) {
        Real32::zero()
    } else if Real32::one().below(v) {
        Real32::one()
    } else {
        v
    }
}

impl Real64 {
    #[verifier::allow_in_spec]
    pub fn zero() -> Real64
        returns
            (Real64 { bits: 0 }),
    {
        Real64 { bits: 0 }
    }

    /// The bit pattern is not a number.
    pub open spec fn is_nan_spec(self) -> bool {
        self.bits % 0x8000_0000_0000_0000 > 0x7ff0_0000_0000_0000
    }

    /// Position on the number line; both zeros are at 0.
    pub open spec fn rank(self) -> int {
        if self.bits < 0x8000_0000_0000_0000 {
            self.bits as int
        } else {
            0x8000_0000_0000_0000 - self.bits
        }
    }

    /// `self < other` as numbers.
    pub open spec fn below(self, other: Real64) -> bool {
        !self.is_nan_spec() && !other.is_nan_spec() && self.rank() < other.rank()
    }

    pub fn is_nan(self) -> (b: bool)
        ensures
            b == self.is_nan_spec(),
    {
        self.bits % 0x8000_0000_0000_0000 > 0x7ff0_0000_0000_0000
    }

    /// Numeric `<`.
    pub fn less(self, other: Real64) -> (b: bool)
        ensures
            b == self.below(other),
    {
        if self.is_nan() || other.is_nan() {
            return false;
        }
        let a: i128 = if self.bits < 0x8000_0000_0000_0000 {
            self.bits as i128
        } else {
            0x8000_0000_0000_0000i128 - self.bits as i128
        };
        let b: i128 = if other.bits < 0x8000_0000_0000_0000 {
            other.bits as i128
        } else {
            0x8000_0000_0000_0000i128 - other.bits as i128
        };
        a < b
    }

    /// Limit to `lo..=hi`; a NaN passes unchanged.
    pub fn clamp_to(self, lo: Real64, hi: Real64) -> (r: Real64)
        requires
            !lo.is_nan_spec(),
            !hi.is_nan_spec(),
            !hi.below(lo),
        ensures
            r == clamped_between(self, lo, hi),
    {
        if self.less(lo) {
            lo
        } else if hi.less(self) {
            hi
        } else {
            self
        }
    }

    /// The larger of two numbers; a NaN yields to the other operand.
    pub fn at_least(self, lo: Real64) -> (r: Real64)
        ensures
            r == raised_to(self, lo),
    {
        if self.is_nan() || self.less(lo) {
            lo
        } else {
            self
        }
    }
}

/// A number limited to `lo..=hi`.
pub open spec fn clamped_between(v: Real64, lo: Real64, hi: Real64) -> Real64 {
    if v.below(lo) {
        lo
    } else if hi.below(v) {
        hi
    } else {
        v
    }
}

/// `v`, or `lo` where `v` is smaller or no number.
pub open spec fn raised_to(v: Real64, lo: Real64) -> Real64 {
    if v.is_nan_spec() || v.below(lo) {
        lo
    } else {
        v
    }
}

/// A fraction. Its denominator is positive, or zero under a positive numerator for a value
/// without bound.
#[derive(Debug, Clone, Copy, PartialEq, Eq, Structural)]
pub struct Frac {
    pub num: i128,
    pub den: i128,
}

impl Frac {
    /// The denominator is positive and the parts are small enough to compute with.
    pub open spec fn small(self) -> bool {
        1 <= self.den <= 0x1_0000_0000_0000_0000 && -0x1_0000_0000_0000_0000_0000 <= self.num
            <= 0x1_0000_0000_0000_0000_0000
    }
}

/// The unit clamp lands in `0.0..=1.0` for every number, and keeps what is already there.
pub proof fn law_clamp_unit(v: Real32)
    ensures
        !v.is_nan_spec() ==> Real32::zero().rank() <= clamped_unit(v).rank() <= Real32::one().rank(),
        clamped_unit(clamped_unit(v)) == clamped_unit(v),
        !v.is_nan_spec() && Real32::zero().rank() <= v.rank() <= Real32::one().rank() ==> clamped_unit(v) == v,
{
}

/// A clamped number lies between the bounds, and clamping it again changes nothing.
pub proof fn law_clamp_between(v: Real64, lo: Real64, hi: Real64)
    requires
        !v.is_nan_spec(),
        !lo.is_nan_spec(),
        !hi.is_nan_spec(),
        !hi.below(lo),
    ensures
        lo.rank() <= clamped_between(v, lo, hi).rank() <= hi.rank(),
        clamped_between(clamped_between(v, lo, hi), lo, hi) == clamped_between(v, lo, hi),
{
}

/// Bit patterns are ordered as the numbers they stand for: positive ones by their bits, negative
/// ones the other way round, negative before positive, and both zeros alike. What is no number
/// is in no order.
pub proof fn law_order64(a: u64, b: u64)
    requires
        a < 0x7ff0_0000_0000_0000,
        b < 0x7ff0_0000_0000_0000,
    ensures
        ({
            let sign = 0x8000_0000_0000_0000int;
            let pa = Real64 { bits: a };
            let pb = Real64 { bits: b };
            let na = Real64 { bits: (a + sign) as u64 };
            let nb = Real64 { bits: (b + sign) as u64 };
            &&& pa.below(pb) <==> a < b
            &&& na.below(nb) <==> b < a
            &&& na.below(pb) <==> a > 0 || b > 0
            &&& !pa.below(nb)
        }),
{
}

/// The same of the smaller numbers.
pub proof fn law_order32(a: u32, b: u32)
    requires
        a < 0x7f80_0000,
        b < 0x7f80_0000,
    ensures
        ({
            let sign = 0x8000_0000int;
            let pa = Real32 { bits: a };
            let pb = Real32 { bits: b };
            let na = Real32 { bits: (a + sign) as u32 };
            let nb = Real32 { bits: (b + sign) as u32 };
            &&& pa.below(pb) <==> a < b
            &&& na.below(nb) <==> b < a
            &&& na.below(pb) <==> a > 0 || b > 0
            &&& !pa.below(nb)
        }),
{
}

/// What is no number is neither below nor above anything.
pub proof fn law_nan_unordered(v: Real64, w: Real64, x: Real32, y: Real32)
    ensures
        0x7ff0_0000_0000_0000 < v.bits < 0x8000_0000_0000_0000 || 0xfff0_0000_0000_0000 < v.bits
            ==> !v.below(w) && !w.below(v),
        0x7f80_0000 < x.bits < 0x8000_0000 || 0xff80_0000 < x.bits ==> !x.below(y) && !y.below(x),
        v.below(w) ==> !w.below(v) && v != w,
        x.below(y) ==> !y.below(x) && x != y,
{
}

/// Limiting takes the nearer limit: nothing where the number is below that, all where it is
/// above one, and the number itself in between.
pub proof fn law_clamp_limits(v: Real32, w: Real64, lo: Real64, hi: Real64)
    requires
        !lo.is_nan_spec(),
        !hi.is_nan_spec(),
        lo.rank() <= hi.rank(),
    ensures
        v.below(Real32 { bits: 0 }) ==> clamped_unit(v).bits == 0,
        (Real32 { bits: 0x3f80_0000 }).below(v) ==> clamped_unit(v).bits == 0x3f80_0000,
        !v.below(Real32 { bits: 0 }) && !(Real32 { bits: 0x3f80_0000 }).below(v) ==> clamped_unit(v)
            == v,
        w.below(lo) ==> clamped_between(w, lo, hi) == lo,
        hi.below(w) ==> clamped_between(w, lo, hi) == hi,
        !w.below(lo) && !hi.below(w) ==> clamped_between(w, lo, hi) == w,
        w.below(lo) ==> raised_to(w, lo) == lo,
        lo.below(w) ==> raised_to(w, lo) == w,
        w.is_nan_spec() ==> raised_to(w, lo) == lo,
{
}

} // verus!
