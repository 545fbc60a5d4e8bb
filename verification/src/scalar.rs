//! The numbers that the estimator computes with.
//!
//! Every algorithm of the crate is generic over [`Scalar`], whose methods are
//! the operations that a hardware number offers. Contracts are written over the
//! specification operators of the same trait (`+`, `-`, `*`, `/`, `<`, ...), so
//! they fix which operations are applied to which operands in which order. No
//! algebraic law (associativity, exactness, totality of the order) is assumed.
//!
//! [`Fixed`](crate::fixed::Fixed) is the number type of the crate itself. A type
//! outside the verified code, such as one that wraps a hardware float,
//! implements the executable methods alone. The default bodies of the
//! specification functions, which such a type is left with, are placeholders: they
//! say nothing of its operations, and no proof over a `T: Scalar` can see them. To
//! read a contract for such a type, take each specification operator for what the
//! type's own method computes. The contract then holds as far as each method is a
//! function of its operands.
use vstd::arithmetic::power::pow;
use vstd::prelude::*;

verus! {

/// A number type. Each operation is a function of its operands.
pub trait Scalar: Copy {
    /// The value nearest to the integer `n`.
    open spec fn of_int(n: int) -> Self {
        arbitrary()
    }

    /// The value nearest to `digits / 10^places`.
    open spec fn of_decimal(digits: int, places: nat) -> Self {
        arbitrary()
    }

    open spec fn spec_add(self, rhs: Self) -> Self {
        arbitrary()
    }

    open spec fn spec_sub(self, rhs: Self) -> Self {
        arbitrary()
    }

    open spec fn spec_mul(self, rhs: Self) -> Self {
        arbitrary()
    }

    open spec fn spec_euclidean_or_real_div(self, rhs: Self) -> Self {
        arbitrary()
    }

    open spec fn spec_neg(self) -> Self {
        arbitrary()
    }

    /// The absolute value.
    open spec fn magnitude(self) -> Self {
        arbitrary()
    }

    /// The largest integral value not above `self`.
    open spec fn rounded_down(self) -> Self {
        arbitrary()
    }

    /// The smallest integral value not below `self`.
    open spec fn rounded_up(self) -> Self {
        arbitrary()
    }

    /// The cosine of an angle in radians.
    open spec fn cosine(self) -> Self {
        arbitrary()
    }

    open spec fn square_root(self) -> Self {
        arbitrary()
    }

    /// The natural logarithm.
    open spec fn logarithm(self) -> Self {
        arbitrary()
    }

    /// Two to the power `self`.
    open spec fn power_of_two(self) -> Self {
        arbitrary()
    }

    open spec fn spec_lt(self, rhs: Self) -> bool {
        arbitrary()
    }

    open spec fn spec_le(self, rhs: Self) -> bool {
        arbitrary()
    }

    /// Numeric equality, which need not be identity.
    open spec fn equals(self, rhs: Self) -> bool {
        arbitrary()
    }

    /// Whether `self` is not a number.
    open spec fn undefined(self) -> bool {
        arbitrary()
    }

    /// Whether `self` is neither infinite nor undefined.
    open spec fn finite(self) -> bool {
        arbitrary()
    }

    /// `self` without its fraction, kept within the range of `i32`.
    open spec fn as_i32(self) -> i32 {
        arbitrary()
    }

    /// `self` without its fraction, kept within the range of `usize`.
    open spec fn as_usize(self) -> usize {
        arbitrary()
    }

    fn from_int(n: i128) -> (r: Self)
        ensures
            r == Self::of_int(n as int),
    ;

    fn from_decimal(digits: i64, places: u32) -> (r: Self)
        requires
            places <= 24,
        ensures
            r == Self::of_decimal(digits as int, places as nat),
    ;

    fn plus(self, rhs: Self) -> (r: Self)
        ensures
            r == self + rhs,
    ;

    fn minus(self, rhs: Self) -> (r: Self)
        ensures
            r == self - rhs,
    ;

    fn times(self, rhs: Self) -> (r: Self)
        ensures
            r == self * rhs,
    ;

    fn over(self, rhs: Self) -> (r: Self)
        ensures
            r == self / rhs,
    ;

    fn negated(self) -> (r: Self)
        ensures
            r == -self,
    ;

    fn abs(self) -> (r: Self)
        ensures
            r == self.magnitude(),
    ;

    fn floor(self) -> (r: Self)
        ensures
            r == self.rounded_down(),
    ;

    fn ceil(self) -> (r: Self)
        ensures
            r == self.rounded_up(),
    ;

    fn cos(self) -> (r: Self)
        ensures
            r == self.cosine(),
    ;

    fn sqrt(self) -> (r: Self)
        ensures
            r == self.square_root(),
    ;

    fn ln(self) -> (r: Self)
        ensures
            r == self.logarithm(),
    ;

    fn exp2(self) -> (r: Self)
        ensures
            r == self.power_of_two(),
    ;

    fn less(self, rhs: Self) -> (r: bool)
        ensures
            r == (self < rhs),
    ;

    fn at_most(self, rhs: Self) -> (r: bool)
        ensures
            r == (self <= rhs),
    ;

    fn same(self, rhs: Self) -> (r: bool)
        ensures
            r == self.equals(rhs),
    ;

    fn is_nan(self) -> (r: bool)
        ensures
            r == self.undefined(),
    ;

    fn is_finite(self) -> (r: bool)
        ensures
            r == self.finite(),
    ;

    fn to_i32(self) -> (r: i32)
        ensures
            r == self.as_i32(),
    ;

    fn to_usize(self) -> (r: usize)
        ensures
            r == self.as_usize(),
    ;
}

/// Numbers keep their order under multiplication and division by positive
/// numbers and when they are cut to an integer, as far as they are finite; and
/// zero stays zero.
pub open spec fn ordered_numbers<T: Scalar>() -> bool {
    let o = T::of_int(0);
    &&& forall|a: int, b: int| a <= b ==> #[trigger] T::of_int(a) <= #[trigger] T::of_int(b)
    &&& forall|k: T, x: T, y: T|
        #![trigger k * x, k * y]
        o < k && k.finite() && x.finite() && y.finite() && x <= y ==> k * x <= k * y
    &&& forall|d: T, x: T, y: T|
        #![trigger x / d, y / d]
        o < d && d.finite() && x.finite() && y.finite() && x <= y ==> x / d <= y / d
    &&& forall|x: T, y: T|
        x <= y ==> #[trigger] x.as_usize() <= #[trigger] y.as_usize()
    &&& forall|k: T| o < k && k.finite() ==> #[trigger] (k * o) == o
    &&& forall|d: T| o < d && d.finite() ==> #[trigger] (o / d) == o
    &&& o.as_usize() == 0
}

/// Numbers that are defined are totally ordered.
pub open spec fn totally_ordered<T: Scalar>() -> bool {
    &&& forall|x: T, y: T|
        #![trigger x < y]
        #![trigger y <= x]
        !x.undefined() && !y.undefined() ==> (x < y <==> !(y <= x)) && (x <= y || y <= x)
    &&& forall|x: T, y: T, z: T|
        #![trigger x <= y, y <= z]
        !x.undefined() && !y.undefined() && !z.undefined() && x <= y && y <= z ==> x <= z
    &&& forall|x: T| !x.undefined() ==> #[trigger] (x <= x)
}

/// Numbers from zero up to the largest `i32` behave below zero as they do above:
/// adding a half, rounding to an integral value and cutting to an `i32` go along
/// with a change of sign.
pub open spec fn mirrored_numbers<T: Scalar>() -> bool {
    let o = T::of_int(0);
    let h = T::of_decimal(5, 1);
    forall|x: T|
        #![trigger (-x)]
        x.finite() && o <= x && x <= T::of_int(i32::MAX as int) ==> {
            &&& !x.undefined() && !(-x).undefined()
            &&& -x - h == -(x + h)
            &&& (-(x + h)).rounded_up() == -((x + h).rounded_down())
            &&& (-((x + h).rounded_down())).as_i32() == -((x + h).rounded_down().as_i32())
            &&& o <= -x ==> (x + h).rounded_down().as_i32() == 0 && (-x
                + h).rounded_down().as_i32() == 0
        }
}

/// `value` reads numbers as reals: whole numbers and decimals mean what they say, the
/// four operations and the comparisons are exact, and every number is defined. What
/// holds of such numbers holds of others up to rounding.
pub open spec fn exact<T: Scalar>(value: spec_fn(T) -> real) -> bool {
    &&& forall|n: int| value(#[trigger] T::of_int(n)) == n as real
    &&& exact_decimals(value)
    &&& forall|x: T, y: T| value(#[trigger] (x + y)) == value(x) + value(y)
    &&& forall|x: T, y: T| value(#[trigger] (x - y)) == value(x) - value(y)
    &&& forall|x: T, y: T| value(#[trigger] (x * y)) == value(x) * value(y)
    &&& forall|x: T, y: T|
        value(y) != 0real ==> value(#[trigger] (x / y)) * value(y) == value(x)
    &&& forall|x: T| value(#[trigger] (-x)) == -value(x)
    &&& forall|x: T|
        value(#[trigger] x.magnitude()) == if value(x) < 0real {
            -value(x)
        } else {
            value(x)
        }
    &&& forall|x: T, y: T| #[trigger] (x < y) <==> value(x) < value(y)
    &&& forall|x: T, y: T| #[trigger] (x <= y) <==> value(x) <= value(y)
    &&& forall|x: T, y: T| #[trigger] x.equals(y) <==> value(x) == value(y)
    &&& forall|x: T| !(#[trigger] x.undefined())
    &&& forall|x: T| #[trigger] x.finite()
}

/// `value` reads decimals for what they say.
pub open spec fn exact_decimals<T: Scalar>(value: spec_fn(T) -> real) -> bool {
    forall|digits: int, places: nat|
        value(#[trigger] T::of_decimal(digits, places)) * (pow(10, places) as real)
            == digits as real
}

/// Rounding to whole numbers is exact too, as far as `i32` goes: down and up to the next
/// whole number, and towards zero when a number is cut.
pub open spec fn exact_rounding<T: Scalar>(value: spec_fn(T) -> real) -> bool {
    let most = 2_147_483_647real;
    &&& forall|x: T|
        #![trigger x.rounded_down()]
        -most <= value(x) <= most ==> {
            let n = x.rounded_down();
            &&& value(n) <= value(x) < value(n) + 1real
            &&& n.as_i32() as int as real == value(n)
        }
    &&& forall|x: T|
        #![trigger x.rounded_up()]
        -most <= value(x) <= most ==> {
            let n = x.rounded_up();
            &&& value(n) - 1real < value(x) <= value(n)
            &&& n.as_i32() as int as real == value(n)
        }
    &&& forall|x: T|
        #![trigger x.as_usize()]
        value(x) <= most ==> {
            let n = x.as_usize() as int as real;
            &&& value(x) < 0real ==> n == 0real
            &&& 0real <= value(x) ==> n <= value(x) < n + 1real
        }
    &&& forall|x: T|
        #![trigger x.as_i32()]
        -most <= value(x) <= most ==> {
            let n = x.as_i32() as int as real;
            &&& 0real <= value(x) ==> n <= value(x) < n + 1real
            &&& value(x) <= 0real ==> n - 1real < value(x) <= n
        }
}

} // verus!
