//! Coordinate numbers.
//!
//! The tree is generic over the number type of its coordinates. Every number
//! stands for a mathematical integer, its [`RTreeNum::value`], and all contracts
//! of this crate are stated over these integers. Arithmetic never fails: a
//! result outside the representable range is moved to the nearest bound.

use vstd::prelude::*;

verus! {

/// `x`, moved into the closed interval `[lo, hi]`.
pub open spec fn clamp(x: int, lo: int, hi: int) -> int {
    if x < lo {
        lo
    } else if x > hi {
        hi
    } else {
        x
    }
}

/// `x`, moved into the range of the number type `S`.
pub open spec fn saturate<S: RTreeNum>(x: int) -> int {
    clamp(x, S::lower_limit(), S::upper_limit())
}

/// The quotient of `x` by `d`, rounded towards zero.
pub open spec fn trunc_div(x: int, d: int) -> int
    recommends
        d != 0,
{
    if x >= 0 && d > 0 {
        x / d
    } else if x < 0 && d < 0 {
        (-x) / (-d)
    } else if x < 0 {
        -((-x) / d)
    } else {
        -(x / (-d))
    }
}

/// A number type that coordinates can have.
///
/// Implementations exist for `i32` and `i64`.
pub trait RTreeNum: Copy + Sized {
    /// The integer a number stands for.
    spec fn value(self) -> int;

    /// The value of the smallest number of this type.
    spec fn lower_limit() -> int;

    /// The value of the largest number of this type.
    spec fn upper_limit() -> int;

    /// Every number lies between the limits, and the limits are those of a
    /// two's complement type of at most 64 bits.
    proof fn lemma_limits(x: Self)
        ensures
            Self::lower_limit() <= x.value() <= Self::upper_limit(),
            Self::lower_limit() == -Self::upper_limit() - 1,
            127 <= Self::upper_limit() <= i64::MAX,
    ;

    /// Two numbers with the same value are the same number.
    proof fn lemma_value_injective(a: Self, b: Self)
        requires
            a.value() == b.value(),
        ensures
            a == b,
    ;

    fn zero() -> (r: Self)
        ensures
            r.value() == 0,
    ;

    fn one() -> (r: Self)
        ensures
            r.value() == 1,
    ;

    fn min_value() -> (r: Self)
        ensures
            r.value() == Self::lower_limit(),
    ;

    fn max_value() -> (r: Self)
        ensures
            r.value() == Self::upper_limit(),
    ;

    /// `self < other`
    fn less(self, other: Self) -> (b: bool)
        ensures
            b == (self.value() < other.value()),
    ;

    /// `self <= other`
    fn less_eq(self, other: Self) -> (b: bool)
        ensures
            b == (self.value() <= other.value()),
    ;

    /// The saturating sum.
    fn add(self, other: Self) -> (r: Self)
        ensures
            r.value() == clamp(self.value() + other.value(), Self::lower_limit(), Self::upper_limit()),
    ;

    /// The saturating difference.
    fn sub(self, other: Self) -> (r: Self)
        ensures
            r.value() == clamp(self.value() - other.value(), Self::lower_limit(), Self::upper_limit()),
    ;

    /// The saturating product.
    fn mul(self, other: Self) -> (r: Self)
        ensures
            r.value() == clamp(self.value() * other.value(), Self::lower_limit(), Self::upper_limit()),
    ;

    /// The quotient, rounded towards zero, saturating.
    fn div(self, other: Self) -> (r: Self)
        requires
            other.value() != 0,
        ensures
            r.value() == clamp(
                trunc_div(self.value(), other.value()),
                Self::lower_limit(),
                Self::upper_limit(),
            ),
    ;

    /// The mean of `self` and `other`, rounded towards zero.
    fn midpoint(self, other: Self) -> (r: Self)
        ensures
            r.value() == trunc_div(self.value() + other.value(), 2),
    ;

    /// The value as an `i64`.
    fn to_i64(self) -> (r: i64)
        ensures
            r == self.value(),
    ;
}

impl RTreeNum for i64 {
    open spec fn value(self) -> int {
        self as int
    }

    open spec fn lower_limit() -> int {
        i64::MIN as int
    }

    open spec fn upper_limit() -> int {
        i64::MAX as int
    }

    proof fn lemma_limits(x: Self) {
    }

    proof fn lemma_value_injective(a: Self, b: Self) {
    }

    fn zero() -> (r: Self) {
        0
    }

    fn one() -> (r: Self) {
        1
    }

    fn min_value() -> (r: Self) {
        i64::MIN
    }

    fn max_value() -> (r: Self) {
        i64::MAX
    }

    fn less(self, other: Self) -> (b: bool) {
        self < other
    }

    fn less_eq(self, other: Self) -> (b: bool) {
        self <= other
    }

    fn add(self, other: Self) -> (r: Self) {
        match self.checked_add(other) {
            Some(v) => v,
            None => if other > 0 {
                i64::MAX
            } else {
                i64::MIN
            },
        }
    }

    fn sub(self, other: Self) -> (r: Self) {
        match self.checked_sub(other) {
            Some(v) => v,
            None => if other < 0 {
                i64::MAX
            } else {
                i64::MIN
            },
        }
    }

    fn mul(self, other: Self) -> (r: Self) {
        match self.checked_mul(other) {
            Some(v) => v,
            None => {
                proof {
                    lemma_product_sign(self as int, other as int);
                }
                if (self < 0) == (other < 0) {
                    i64::MAX
                } else {
                    i64::MIN
                }
            },
        }
    }

    fn div(self, other: Self) -> (r: Self) {
        match self.checked_div(other) {
            Some(v) => v,
            None => i64::MAX,
        }
    }

    fn midpoint(self, other: Self) -> (r: Self) {
        match (self as i128 + other as i128).checked_div(2) {
            Some(v) => v as i64,
            None => 0,
        }
    }

    fn to_i64(self) -> (r: i64) {
        self
    }
}

impl RTreeNum for i32 {
    open spec fn value(self) -> int {
        self as int
    }

    open spec fn lower_limit() -> int {
        i32::MIN as int
    }

    open spec fn upper_limit() -> int {
        i32::MAX as int
    }

    proof fn lemma_limits(x: Self) {
    }

    proof fn lemma_value_injective(a: Self, b: Self) {
    }

    fn zero() -> (r: Self) {
        0
    }

    fn one() -> (r: Self) {
        1
    }

    fn min_value() -> (r: Self) {
        i32::MIN
    }

    fn max_value() -> (r: Self) {
        i32::MAX
    }

    fn less(self, other: Self) -> (b: bool) {
        self < other
    }

    fn less_eq(self, other: Self) -> (b: bool) {
        self <= other
    }

    fn add(self, other: Self) -> (r: Self) {
        match self.checked_add(other) {
            Some(v) => v,
            None => if other > 0 {
                i32::MAX
            } else {
                i32::MIN
            },
        }
    }

    fn sub(self, other: Self) -> (r: Self) {
        match self.checked_sub(other) {
            Some(v) => v,
            None => if other < 0 {
                i32::MAX
            } else {
                i32::MIN
            },
        }
    }

    fn mul(self, other: Self) -> (r: Self) {
        match self.checked_mul(other) {
            Some(v) => v,
            None => {
                proof {
                    lemma_product_sign(self as int, other as int);
                }
                if (self < 0) == (other < 0) {
                    i32::MAX
                } else {
                    i32::MIN
                }
            },
        }
    }

    fn div(self, other: Self) -> (r: Self) {
        match self.checked_div(other) {
            Some(v) => v,
            None => i32::MAX,
        }
    }

    fn midpoint(self, other: Self) -> (r: Self) {
        match (self as i64 + other as i64).checked_div(2) {
            Some(v) => v as i32,
            None => 0,
        }
    }

    fn to_i64(self) -> (r: i64) {
        self as i64
    }
}

/// A product is negative exactly if its factors have different signs and
/// neither is zero.
pub proof fn lemma_product_sign(x: int, y: int)
    ensures
        (x > 0 && y > 0) || (x < 0 && y < 0) ==> x * y > 0,
        (x > 0 && y < 0) || (x < 0 && y > 0) ==> x * y < 0,
        x == 0 || y == 0 ==> x * y == 0,
{
    assert((x > 0 && y > 0) || (x < 0 && y < 0) ==> x * y > 0) by (nonlinear_arith);
    assert((x > 0 && y < 0) || (x < 0 && y > 0) ==> x * y < 0) by (nonlinear_arith);
    assert(x == 0 || y == 0 ==> x * y == 0) by (nonlinear_arith);
}

/// The smaller of two numbers; `b` where they are equal.
pub fn min_inline<S: RTreeNum>(a: S, b: S) -> (r: S)
    ensures
        r == if a.value() < b.value() { a } else { b },
{
    if a.less(b) {
        a
    } else {
        b
    }
}

/// The larger of two numbers; `b` where they are equal.
pub fn max_inline<S: RTreeNum>(a: S, b: S) -> (r: S)
    ensures
        r == if a.value() > b.value() { a } else { b },
{
    if b.less(a) {
        a
    } else {
        b
    }
}

} // verus!
